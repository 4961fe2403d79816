//! Integer geometry used by the layout engine: square roots and the
//! magnitude clamp applied to per-round displacement vectors.

use vstd::prelude::*;
use vstd::arithmetic::div_mod::{
    lemma_div_is_ordered, lemma_div_multiples_vanish, lemma_fundamental_div_mod,
};

verus! {

/// Floor of the square root of a nonnegative integer.
pub open spec fn sqrt_floor(n: int) -> int {
    choose|r: int| 0 <= r && #[trigger] (r * r) <= n && n < (r + 1) * (r + 1)
}

/// Ceiling of the square root of a nonnegative integer.
pub open spec fn sqrt_ceil(n: int) -> int {
    if sqrt_floor(n) * sqrt_floor(n) == n {
        sqrt_floor(n)
    } else {
        sqrt_floor(n) + 1
    }
}

/// Some integer square root exists for every nonnegative integer.
proof fn lemma_sqrt_exists(n: int)
    requires
        0 <= n,
    ensures
        exists|r: int| 0 <= r && #[trigger] (r * r) <= n && (r + 1) * (r + 1) > n,
    decreases n,
{
    if n == 0 {
        let r0: int = 0;
        assert(0 <= r0 && r0 * r0 <= n && (r0 + 1) * (r0 + 1) > n);
    } else {
        lemma_sqrt_exists(n - 1);
        let r = choose|r: int| 0 <= r && #[trigger] (r * r) <= n - 1 && (r + 1) * (r + 1) > n - 1;
        if (r + 1) * (r + 1) <= n {
            assert(n <= (r + 1) * (r + 1));
            assert(((r + 1) + 1) * ((r + 1) + 1) > n) by (nonlinear_arith)
                requires
                    0 <= r,
                    n == (r + 1) * (r + 1),
            ;
            assert(0 <= r + 1 && (r + 1) * (r + 1) <= n && ((r + 1) + 1) * ((r + 1) + 1) > n);
        } else {
            assert(0 <= r && r * r <= n && (r + 1) * (r + 1) > n);
        }
    }
}

/// Any value meeting the square-root bracketing is `sqrt_floor`.
pub proof fn lemma_sqrt_is(n: int, r: int)
    requires
        0 <= r,
        r * r <= n,
        n < (r + 1) * (r + 1),
    ensures
        r == sqrt_floor(n),
{
    lemma_sqrt_exists(n);
    let s = sqrt_floor(n);
    assert(0 <= s && s * s <= n && n < (s + 1) * (s + 1));
    assert(r == s) by (nonlinear_arith)
        requires
            0 <= r,
            0 <= s,
            r * r <= n,
            n < (r + 1) * (r + 1),
            s * s <= n,
            n < (s + 1) * (s + 1),
    ;
}

/// Computes the floor of the square root of `n`.
pub fn isqrt_u128(n: u128) -> (r: u64)
    requires
        n < 0x4000_0000_0000_0000_0000_0000_0000_0000u128,
    ensures
        r as int == sqrt_floor(n as int),
        (r as int) * (r as int) <= n as int,
        (n as int) < ((r as int + 1) * (r as int + 1)),
        r < 0x8000_0000_0000_0000u64,
{
    let mut lo: u64 = 0;
    let mut hi: u64 = 0x8000_0000_0000_0000;
    // invariant: lo * lo <= n < hi * hi
    assert((0x8000_0000_0000_0000u64 as u128) * (0x8000_0000_0000_0000u64 as u128)
        == 0x4000_0000_0000_0000_0000_0000_0000_0000u128);
    while lo + 1 < hi
        invariant
            lo < hi,
            hi <= 0x8000_0000_0000_0000u64,
            (lo as int) * (lo as int) <= n as int,
            (n as int) < (hi as int) * (hi as int),
        decreases hi - lo,
    {
        let mid: u64 = lo + (hi - lo) / 2;
        proof {
            assert((mid as int) * (mid as int) <= (0x8000_0000_0000_0000 as int) * (
            0x8000_0000_0000_0000 as int)) by (nonlinear_arith)
                requires
                    0 <= (mid as int) && (mid as int) <= 0x8000_0000_0000_0000,
            ;
        }
        if (mid as u128) * (mid as u128) <= n {
            lo = mid;
        } else {
            hi = mid;
        }
    }
    proof {
        assert(hi == lo + 1);
        lemma_sqrt_is(n as int, lo as int);
    }
    lo
}

/// Computes the ceiling of the square root of `n`.
pub fn isqrt_ceil_u128(n: u128) -> (r: u64)
    requires
        n < 0x4000_0000_0000_0000_0000_0000_0000_0000u128,
    ensures
        r as int == sqrt_ceil(n as int),
        n as int <= (r as int) * (r as int),
        n > 0 ==> r >= 1,
{
    let f = isqrt_u128(n);
    if (f as u128) * (f as u128) == n {
        f
    } else {
        proof {
            assert((f as int) * (f as int) < n as int);
        }
        f + 1
    }
}

/// Truncating scale of one displacement component: `|a| * c / q`, signed.
pub open spec fn scale_component(a: int, c: int, q: int) -> int {
    let m = (vstd::math::abs(a) * c) / q;
    if a < 0 {
        -m
    } else {
        m
    }
}

/// The clamp of a displacement vector to magnitude `c`: the vector itself if
/// its Euclidean norm is already within `c`, otherwise the vector scaled by
/// `c / ceil(norm)` with truncating division, preserving direction.
pub open spec fn clamp_x(ax: int, ay: int, c: int) -> int {
    let n2 = ax * ax + ay * ay;
    if n2 <= c * c {
        ax
    } else {
        scale_component(ax, c, sqrt_ceil(n2))
    }
}

pub open spec fn clamp_y(ax: int, ay: int, c: int) -> int {
    let n2 = ax * ax + ay * ay;
    if n2 <= c * c {
        ay
    } else {
        scale_component(ay, c, sqrt_ceil(n2))
    }
}

/// After scaling both components by `c / q` with `q*q >= ax*ax + ay*ay`,
/// the squared norm is at most `c*c`.
proof fn lemma_scaled_norm(ax: int, ay: int, c: int, q: int)
    requires
        0 <= c,
        1 <= q,
        ax * ax + ay * ay <= q * q,
    ensures
        scale_component(ax, c, q) * scale_component(ax, c, q) + scale_component(ay, c, q)
            * scale_component(ay, c, q) <= c * c,
{
    let ua = vstd::math::abs(ax);
    let ub = vstd::math::abs(ay);
    let u = (ua * c) / q;
    let v = (ub * c) / q;
    lemma_fundamental_div_mod(ua * c, q);
    lemma_fundamental_div_mod(ub * c, q);
    assert(u * q <= ua * c) by (nonlinear_arith)
        requires
            1 <= q,
            ua * c == q * u + (ua * c) % q,
            (ua * c) % q >= 0,
    ;
    assert(v * q <= ub * c) by (nonlinear_arith)
        requires
            1 <= q,
            ub * c == q * v + (ub * c) % q,
            (ub * c) % q >= 0,
    ;
    assert(0 <= u && 0 <= v) by {
        vstd::arithmetic::div_mod::lemma_div_pos_is_pos(ua * c, q);
        vstd::arithmetic::div_mod::lemma_div_pos_is_pos(ub * c, q);
        assert(ua * c >= 0) by (nonlinear_arith)
            requires
                0 <= ua,
                0 <= c,
        ;
        assert(ub * c >= 0) by (nonlinear_arith)
            requires
                0 <= ub,
                0 <= c,
        ;
    }
    assert((u * u + v * v) * (q * q) <= (ua * ua + ub * ub) * (c * c)) by (nonlinear_arith)
        requires
            0 <= u,
            0 <= v,
            0 <= ua,
            0 <= ub,
            0 <= c,
            1 <= q,
            u * q <= ua * c,
            v * q <= ub * c,
    ;
    assert(ua * ua == ax * ax && ub * ub == ay * ay) by (nonlinear_arith)
        requires
            ua == vstd::math::abs(ax),
            ub == vstd::math::abs(ay),
    ;
    assert(u * u + v * v <= c * c) by (nonlinear_arith)
        requires
            1 <= q,
            (u * u + v * v) * (q * q) <= (ax * ax + ay * ay) * (c * c),
            ax * ax + ay * ay <= q * q,
            0 <= c,
            0 <= u * u + v * v,
    ;
    assert(scale_component(ax, c, q) * scale_component(ax, c, q) == u * u) by (nonlinear_arith)
        requires
            u == (vstd::math::abs(ax) * c) / q,
            scale_component(ax, c, q) == if ax < 0 {
                -u
            } else {
                u
            },
    ;
    assert(scale_component(ay, c, q) * scale_component(ay, c, q) == v * v) by (nonlinear_arith)
        requires
            v == (vstd::math::abs(ay) * c) / q,
            scale_component(ay, c, q) == if ay < 0 {
                -v
            } else {
                v
            },
    ;
}

/// The clamped displacement never exceeds magnitude `c`.
pub proof fn lemma_clamp_norm(ax: int, ay: int, c: int)
    requires
        0 <= c,
    ensures
        clamp_x(ax, ay, c) * clamp_x(ax, ay, c) + clamp_y(ax, ay, c) * clamp_y(ax, ay, c) <= c
            * c,
{
    let n2 = ax * ax + ay * ay;
    assert(n2 >= 0) by (nonlinear_arith)
        requires
            n2 == ax * ax + ay * ay,
    ;
    if n2 <= c * c {
    } else {
        lemma_sqrt_exists(n2);
        let q = sqrt_ceil(n2);
        assert(n2 <= q * q && 1 <= q) by {
            let f = sqrt_floor(n2);
            assert(0 <= f && f * f <= n2 && n2 < (f + 1) * (f + 1));
            if f * f == n2 {
                assert(q == f);
                assert(q >= 1) by (nonlinear_arith)
                    requires
                        0 <= q,
                        q * q == n2,
                        n2 > c * c,
                        c >= 0,
                ;
            } else {
                assert(q == f + 1);
            }
        }
        lemma_scaled_norm(ax, ay, c, q);
    }
}

/// The clamp is antisymmetric: clamping the opposite vector yields the
/// opposite clamped vector, so direction reversal survives the clamp.
pub proof fn lemma_clamp_antisymmetric(ax: int, ay: int, c: int)
    requires
        0 <= c,
    ensures
        clamp_x(-ax, -ay, c) == -clamp_x(ax, ay, c),
        clamp_y(-ax, -ay, c) == -clamp_y(ax, ay, c),
{
    assert((-ax) * (-ax) + (-ay) * (-ay) == ax * ax + ay * ay) by (nonlinear_arith);
    let n2 = ax * ax + ay * ay;
    if n2 <= c * c {
    } else {
        assert(n2 >= 0) by (nonlinear_arith)
            requires
                n2 == ax * ax + ay * ay,
        ;
        lemma_sqrt_exists(n2);
        let q = sqrt_ceil(n2);
        assert(1 <= q) by {
            let f = sqrt_floor(n2);
            assert(0 <= f && f * f <= n2 && n2 < (f + 1) * (f + 1));
            if f * f == n2 {
                assert(q >= 1) by (nonlinear_arith)
                    requires
                        0 <= q,
                        q * q == n2,
                        n2 > c * c,
                        c >= 0,
                ;
            }
        }
        assert(vstd::math::abs(-ax) == vstd::math::abs(ax));
        assert(vstd::math::abs(-ay) == vstd::math::abs(ay));
        if ax == 0 {
            assert((vstd::math::abs(ax) * c) / q == 0) by {
                assert(vstd::math::abs(ax) * c == 0) by (nonlinear_arith)
                    requires
                        vstd::math::abs(ax) == 0,
                ;
                vstd::arithmetic::div_mod::lemma_div_of0(q);
            }
        }
        if ay == 0 {
            assert((vstd::math::abs(ay) * c) / q == 0) by {
                assert(vstd::math::abs(ay) * c == 0) by (nonlinear_arith)
                    requires
                        vstd::math::abs(ay) == 0,
                ;
                vstd::arithmetic::div_mod::lemma_div_of0(q);
            }
        }
    }
}

/// If the displacement is already within `c`, the clamp returns it unchanged.
pub proof fn lemma_clamp_identity(ax: int, ay: int, c: int)
    requires
        ax * ax + ay * ay <= c * c,
    ensures
        clamp_x(ax, ay, c) == ax,
        clamp_y(ax, ay, c) == ay,
{
}

/// Absolute value as an executable helper on bounded `i64` values.
pub fn abs_i64(v: i64) -> (r: u64)
    requires
        v != i64::MIN,
    ensures
        r as int == vstd::math::abs(v as int),
{
    if v < 0 {
        (-v) as u64
    } else {
        v as u64
    }
}

/// Clamps the displacement `(ax, ay)` to Euclidean magnitude `c`,
/// preserving its direction.
pub fn clamp_step(ax: i64, ay: i64, c: i64) -> (r: (i64, i64))
    requires
        -0x1000_0000_0000_0000 < ax < 0x1000_0000_0000_0000,
        -0x1000_0000_0000_0000 < ay < 0x1000_0000_0000_0000,
        0 <= c <= 1_000_000_000,
    ensures
        r.0 as int == clamp_x(ax as int, ay as int, c as int),
        r.1 as int == clamp_y(ax as int, ay as int, c as int),
        (r.0 as int) * (r.0 as int) + (r.1 as int) * (r.1 as int) <= (c as int) * (c as int),
{
    proof {
        lemma_clamp_norm(ax as int, ay as int, c as int);
    }
    let ua = abs_i64(ax) as u128;
    let ub = abs_i64(ay) as u128;
    proof {
        assert((ua as int) * (ua as int) + (ub as int) * (ub as int)
            < 0x4000_0000_0000_0000_0000_0000_0000_0000) by (nonlinear_arith)
            requires
                0 <= (ua as int) && (ua as int) < 0x1000_0000_0000_0000,
                0 <= (ub as int) && (ub as int) < 0x1000_0000_0000_0000,
        ;
        assert((ua as int) * (ua as int) == (ax as int) * (ax as int) && (ub as int) * (
        ub as int) == (ay as int) * (ay as int)) by (nonlinear_arith)
            requires
                ua as int == vstd::math::abs(ax as int),
                ub as int == vstd::math::abs(ay as int),
        ;
    }
    let n2: u128 = ua * ua + ub * ub;
    proof {
        assert((c as int) * (c as int) <= 0x1000_0000_0000_0000_0000_0000_0000_0000)
            by (nonlinear_arith)
            requires
                0 <= (c as int) && (c as int) <= 1_000_000_000,
        ;
    }
    let cc: u128 = (c as u128) * (c as u128);
    if n2 <= cc {
        (ax, ay)
    } else {
        let q = isqrt_ceil_u128(n2);
        let qq = q as u128;
        let cu = c as u128;
        proof {
            assert(qq >= 1);
            assert((ua as int) * (cu as int) / (qq as int) <= ua as int && (ub as int) * (
            cu as int) / (qq as int) <= ub as int) by {
                assert(ua * cu <= ua * qq && ub * cu <= ub * qq) by (nonlinear_arith)
                    requires
                        0 <= cu,
                        0 <= ua,
                        0 <= ub,
                        1 <= qq,
                        cu * cu < n2,
                        n2 <= qq * qq,
                ;
                lemma_div_is_ordered(ua as int * cu as int, ua as int * qq as int, qq as int);
                lemma_div_is_ordered(ub as int * cu as int, ub as int * qq as int, qq as int);
                lemma_div_multiples_vanish(ua as int, qq as int);
                lemma_div_multiples_vanish(ub as int, qq as int);
            }
        }
        proof {
            assert((ua as int) * (cu as int) <= 0x1000_0000_0000_0000_0000_0000_0000_0000 && (
            ub as int) * (cu as int) <= 0x1000_0000_0000_0000_0000_0000_0000_0000)
                by (nonlinear_arith)
                requires
                    0 <= (ua as int) && (ua as int) < 0x1000_0000_0000_0000,
                    0 <= (ub as int) && (ub as int) < 0x1000_0000_0000_0000,
                    0 <= (cu as int) && (cu as int) <= 1_000_000_000,
            ;
        }
        let sx: u64 = ((ua * cu) / qq) as u64;
        let sy: u64 = ((ub * cu) / qq) as u64;
        let rx: i64 = if ax < 0 {
            -(sx as i64)
        } else {
            sx as i64
        };
        let ry: i64 = if ay < 0 {
            -(sy as i64)
        } else {
            sy as i64
        };
        (rx, ry)
    }
}

} // verus!
