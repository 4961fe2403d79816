//! Force-directed layout: repeated rounds of pairwise repulsion, per-edge
//! attraction, and a clamped apply step, all over integer world coordinates.
//!
//! Every round accumulates a displacement vector per node, clamps its
//! magnitude to `max_step`, adds it to the node's position, and keeps the
//! position inside the bounded world square. Coincident nodes exert no force
//! on each other, so no division by zero can occur; Verus checks every
//! division and every addition for definedness, which is how this integer
//! engine discharges the "no non-finite coordinate" policy.

use vstd::prelude::*;
use vstd::arithmetic::div_mod::{
    lemma_div_is_ordered, lemma_div_multiples_vanish, lemma_div_nonincreasing, lemma_div_of0,
    lemma_div_pos_is_pos,
};
use crate::geom::{abs_i64, clamp_step, clamp_x, clamp_y, isqrt_u128, sqrt_floor};
use crate::model::{Graph, GraphView, NodeView, MAX_COORD};

verus! {

/// Largest accepted value for the `ideal_distance` and `max_step` parameters.
pub const MAX_PARAM: i64 = 100_000;

/// Largest node count the engine accepts (keeps force sums inside `i64`).
pub const MAX_NODES: usize = 10_000;

/// Largest edge count the engine accepts (keeps force sums inside `i64`).
pub const MAX_EDGES: usize = 100_000;

/// Squared Euclidean distance between two points.
pub open spec fn dist2(px: int, py: int, qx: int, qy: int) -> int {
    (qx - px) * (qx - px) + (qy - py) * (qy - py)
}

/// A magnitude given the sign of the axis difference `d`.
pub open spec fn signed(d: int, mag: int) -> int {
    if d < 0 {
        -mag
    } else {
        mag
    }
}

/// X component of the repulsive force on the node at `p` exerted by the node
/// at `q`: magnitude `k*k / distance` directed away from `q`, zero for
/// coincident points.
pub open spec fn repulse_x(px: int, py: int, qx: int, qy: int, k: int) -> int {
    let dx = qx - px;
    let d2 = dist2(px, py, qx, qy);
    if d2 == 0 {
        0
    } else {
        -signed(dx, (vstd::math::abs(dx) * (k * k)) / d2)
    }
}

/// Y component of the repulsive force on the node at `p` exerted by the node
/// at `q`.
pub open spec fn repulse_y(px: int, py: int, qx: int, qy: int, k: int) -> int {
    let dy = qy - py;
    let d2 = dist2(px, py, qx, qy);
    if d2 == 0 {
        0
    } else {
        -signed(dy, (vstd::math::abs(dy) * (k * k)) / d2)
    }
}

/// X component of the attractive pull on the node at `p` toward the node at
/// `q`: magnitude `distance * distance / k` along the connecting line, zero
/// for coincident points.
pub open spec fn attract_x(px: int, py: int, qx: int, qy: int, k: int) -> int {
    let dx = qx - px;
    let d2 = dist2(px, py, qx, qy);
    if d2 == 0 {
        0
    } else {
        signed(dx, (vstd::math::abs(dx) * sqrt_floor(d2)) / k)
    }
}

/// Y component of the attractive pull on the node at `p` toward the node at
/// `q`.
pub open spec fn attract_y(px: int, py: int, qx: int, qy: int, k: int) -> int {
    let dy = qy - py;
    let d2 = dist2(px, py, qx, qy);
    if d2 == 0 {
        0
    } else {
        signed(dy, (vstd::math::abs(dy) * sqrt_floor(d2)) / k)
    }
}

/// Sum of the repulsive X forces on node `i` from nodes `0 .. upto`.
pub open spec fn rep_sum_x(nodes: Seq<NodeView>, i: int, upto: int, k: int) -> int
    decreases upto,
{
    if upto <= 0 {
        0
    } else {
        rep_sum_x(nodes, i, upto - 1, k) + if upto - 1 == i {
            0
        } else {
            repulse_x(nodes[i].x, nodes[i].y, nodes[upto - 1].x, nodes[upto - 1].y, k)
        }
    }
}

/// Sum of the repulsive Y forces on node `i` from nodes `0 .. upto`.
pub open spec fn rep_sum_y(nodes: Seq<NodeView>, i: int, upto: int, k: int) -> int
    decreases upto,
{
    if upto <= 0 {
        0
    } else {
        rep_sum_y(nodes, i, upto - 1, k) + if upto - 1 == i {
            0
        } else {
            repulse_y(nodes[i].x, nodes[i].y, nodes[upto - 1].x, nodes[upto - 1].y, k)
        }
    }
}

/// Contribution of one edge to the X displacement of node `i`: its source is
/// pulled toward its target and vice versa; parallel edges each contribute.
pub open spec fn edge_pull_x(nodes: Seq<NodeView>, e: crate::model::EdgeView, i: int, k: int) -> int {
    (if e.source == i {
        attract_x(nodes[i].x, nodes[i].y, nodes[e.target].x, nodes[e.target].y, k)
    } else {
        0
    }) + (if e.target == i {
        attract_x(nodes[i].x, nodes[i].y, nodes[e.source].x, nodes[e.source].y, k)
    } else {
        0
    })
}

/// Contribution of one edge to the Y displacement of node `i`.
pub open spec fn edge_pull_y(nodes: Seq<NodeView>, e: crate::model::EdgeView, i: int, k: int) -> int {
    (if e.source == i {
        attract_y(nodes[i].x, nodes[i].y, nodes[e.target].x, nodes[e.target].y, k)
    } else {
        0
    }) + (if e.target == i {
        attract_y(nodes[i].x, nodes[i].y, nodes[e.source].x, nodes[e.source].y, k)
    } else {
        0
    })
}

/// Sum of the attractive X forces on node `i` from edges `0 .. upto`.
pub open spec fn attr_sum_x(
    nodes: Seq<NodeView>,
    edges: Seq<crate::model::EdgeView>,
    i: int,
    upto: int,
    k: int,
) -> int
    decreases upto,
{
    if upto <= 0 {
        0
    } else {
        attr_sum_x(nodes, edges, i, upto - 1, k) + edge_pull_x(nodes, edges[upto - 1], i, k)
    }
}

/// Sum of the attractive Y forces on node `i` from edges `0 .. upto`.
pub open spec fn attr_sum_y(
    nodes: Seq<NodeView>,
    edges: Seq<crate::model::EdgeView>,
    i: int,
    upto: int,
    k: int,
) -> int
    decreases upto,
{
    if upto <= 0 {
        0
    } else {
        attr_sum_y(nodes, edges, i, upto - 1, k) + edge_pull_y(nodes, edges[upto - 1], i, k)
    }
}

/// Total X displacement accumulated for node `i` in one round.
pub open spec fn disp_x(g: GraphView, i: int, k: int) -> int {
    rep_sum_x(g.nodes, i, g.nodes.len() as int, k) + attr_sum_x(
        g.nodes,
        g.edges,
        i,
        g.edges.len() as int,
        k,
    )
}

/// Total Y displacement accumulated for node `i` in one round.
pub open spec fn disp_y(g: GraphView, i: int, k: int) -> int {
    rep_sum_y(g.nodes, i, g.nodes.len() as int, k) + attr_sum_y(
        g.nodes,
        g.edges,
        i,
        g.edges.len() as int,
        k,
    )
}

/// Keeps a coordinate inside the bounded world square.
pub open spec fn saturate(v: int) -> int {
    if v < -(MAX_COORD as int) {
        -(MAX_COORD as int)
    } else if v > MAX_COORD as int {
        MAX_COORD as int
    } else {
        v
    }
}

/// The node `i` after one round: position moved by the clamped displacement,
/// identifier and label untouched.
pub open spec fn round_node(g: GraphView, i: int, k: int, c: int) -> NodeView {
    let ax = disp_x(g, i, k);
    let ay = disp_y(g, i, k);
    NodeView {
        id: g.nodes[i].id,
        label: g.nodes[i].label,
        x: saturate(g.nodes[i].x + clamp_x(ax, ay, c)),
        y: saturate(g.nodes[i].y + clamp_y(ax, ay, c)),
    }
}

/// One full simulation round over the whole graph.
pub open spec fn round_spec(g: GraphView, k: int, c: int) -> GraphView {
    GraphView { nodes: Seq::new(g.nodes.len(), |i: int| round_node(g, i, k, c)), edges: g.edges }
}

/// The layout after `iters` rounds.
pub open spec fn layout_spec(g: GraphView, iters: int, k: int, c: int) -> GraphView
    decreases iters,
{
    if iters <= 0 {
        g
    } else {
        layout_spec(round_spec(g, k, c), iters - 1, k, c)
    }
}

/// Repulsion is symmetric: for any two points the two contributions are
/// equal in magnitude and opposite in direction.
pub proof fn lemma_repulsion_symmetric(px: int, py: int, qx: int, qy: int, k: int)
    ensures
        repulse_x(px, py, qx, qy, k) == -repulse_x(qx, qy, px, py, k),
        repulse_y(px, py, qx, qy, k) == -repulse_y(qx, qy, px, py, k),
{
    let dx = qx - px;
    let dy = qy - py;
    assert(dist2(px, py, qx, qy) == dist2(qx, qy, px, py)) by (nonlinear_arith);
    let d2 = dist2(px, py, qx, qy);
    if d2 != 0 {
        assert(d2 > 0) by (nonlinear_arith)
            requires
                d2 == dist2(px, py, qx, qy),
                d2 != 0,
        ;
        assert(vstd::math::abs(dx) == vstd::math::abs(-dx));
        assert(vstd::math::abs(dy) == vstd::math::abs(-dy));
        if dx == 0 {
            lemma_div_of0(d2);
            assert((vstd::math::abs(dx) * (k * k)) / d2 == 0) by {
                assert(vstd::math::abs(dx) * (k * k) == 0) by (nonlinear_arith)
                    requires
                        vstd::math::abs(dx) == 0,
                ;
                lemma_div_of0(d2);
            }
        }
        if dy == 0 {
            assert((vstd::math::abs(dy) * (k * k)) / d2 == 0) by {
                assert(vstd::math::abs(dy) * (k * k) == 0) by (nonlinear_arith)
                    requires
                        vstd::math::abs(dy) == 0,
                ;
                lemma_div_of0(d2);
            }
        }
    }
}

/// Attraction is antisymmetric along an edge: the pull of `p` toward `q` is
/// the opposite of the pull of `q` toward `p`.
pub proof fn lemma_attraction_antisymmetric(px: int, py: int, qx: int, qy: int, k: int)
    requires
        1 <= k,
    ensures
        attract_x(px, py, qx, qy, k) == -attract_x(qx, qy, px, py, k),
        attract_y(px, py, qx, qy, k) == -attract_y(qx, qy, px, py, k),
{
    let dx = qx - px;
    let dy = qy - py;
    assert(dist2(px, py, qx, qy) == dist2(qx, qy, px, py)) by (nonlinear_arith);
    let d2 = dist2(px, py, qx, qy);
    if d2 != 0 {
        assert(vstd::math::abs(dx) == vstd::math::abs(-dx));
        assert(vstd::math::abs(dy) == vstd::math::abs(-dy));
        if dx == 0 {
            assert((vstd::math::abs(dx) * sqrt_floor(d2)) / k == 0) by {
                assert(vstd::math::abs(dx) * sqrt_floor(d2) == 0) by (nonlinear_arith)
                    requires
                        vstd::math::abs(dx) == 0,
                ;
                lemma_div_of0(k);
            }
        }
        if dy == 0 {
            assert((vstd::math::abs(dy) * sqrt_floor(d2)) / k == 0) by {
                assert(vstd::math::abs(dy) * sqrt_floor(d2) == 0) by (nonlinear_arith)
                    requires
                        vstd::math::abs(dy) == 0,
                ;
                lemma_div_of0(k);
            }
        }
    }
}

/// The repulsive force between two bounded points is computed exactly, and
/// each component is bounded by `k*k`.
fn repulsion_contribution(px: i64, py: i64, qx: i64, qy: i64, k: i64) -> (r: (i64, i64))
    requires
        -MAX_COORD <= px <= MAX_COORD,
        -MAX_COORD <= py <= MAX_COORD,
        -MAX_COORD <= qx <= MAX_COORD,
        -MAX_COORD <= qy <= MAX_COORD,
        1 <= k <= MAX_PARAM,
    ensures
        r.0 as int == repulse_x(px as int, py as int, qx as int, qy as int, k as int),
        r.1 as int == repulse_y(px as int, py as int, qx as int, qy as int, k as int),
        -10_000_000_000 <= r.0 as int <= 10_000_000_000,
        -10_000_000_000 <= r.1 as int <= 10_000_000_000,
{
    let dx: i64 = qx - px;
    let dy: i64 = qy - py;
    let udx: u64 = abs_i64(dx);
    let udy: u64 = abs_i64(dy);
    proof {
        assert((udx as int) * (udx as int) + (udy as int) * (udy as int) == dist2(
            px as int,
            py as int,
            qx as int,
            qy as int,
        ) && (udx as int) * (udx as int) + (udy as int) * (udy as int) <= 8_000_000_000_000)
            by (nonlinear_arith)
            requires
                udx as int == vstd::math::abs(qx as int - px as int),
                udy as int == vstd::math::abs(qy as int - py as int),
                0 <= (udx as int) <= 2_000_000,
                0 <= (udy as int) <= 2_000_000,
        ;
        assert((k as int) * (k as int) <= 10_000_000_000) by (nonlinear_arith)
            requires
                1 <= (k as int) <= 100_000,
        ;
    }
    let d2: u64 = udx * udx + udy * udy;
    if d2 == 0 {
        (0, 0)
    } else {
        let kk: u64 = (k * k) as u64;
        proof {
            assert((udx as int) * (kk as int) <= 20_000_000_000_000_000 && (udy as int) * (
            kk as int) <= 20_000_000_000_000_000) by (nonlinear_arith)
                requires
                    0 <= (udx as int) <= 2_000_000,
                    0 <= (udy as int) <= 2_000_000,
                    0 <= (kk as int) <= 10_000_000_000,
            ;
        }
        let mx: u64 = (udx * kk) / d2;
        let my: u64 = (udy * kk) / d2;
        proof {
            assert(udx as int <= d2 as int && udy as int <= d2 as int) by (nonlinear_arith)
                requires
                    d2 as int == (udx as int) * (udx as int) + (udy as int) * (udy as int),
                    0 <= udx as int,
                    0 <= udy as int,
                    d2 as int != 0,
            ;
            assert((udx as int) * (kk as int) <= (d2 as int) * (kk as int) && (udy as int) * (
            kk as int) <= (d2 as int) * (kk as int)) by (nonlinear_arith)
                requires
                    udx as int <= d2 as int,
                    udy as int <= d2 as int,
                    0 <= kk as int,
            ;
            lemma_div_is_ordered((udx as int) * (kk as int), (d2 as int) * (kk as int), d2 as int);
            lemma_div_is_ordered((udy as int) * (kk as int), (d2 as int) * (kk as int), d2 as int);
            lemma_div_multiples_vanish(kk as int, d2 as int);
            lemma_div_pos_is_pos((udx as int) * (kk as int), d2 as int);
            lemma_div_pos_is_pos((udy as int) * (kk as int), d2 as int);
            assert((udx as int) * (kk as int) >= 0 && (udy as int) * (kk as int) >= 0)
                by (nonlinear_arith)
                requires
                    0 <= udx as int,
                    0 <= udy as int,
                    0 <= kk as int,
            ;
        }
        let rx: i64 = if dx < 0 {
            mx as i64
        } else {
            -(mx as i64)
        };
        let ry: i64 = if dy < 0 {
            my as i64
        } else {
            -(my as i64)
        };
        (rx, ry)
    }
}

/// The attractive force along one edge is computed exactly, and each
/// component is bounded by a constant.
fn attraction_contribution(px: i64, py: i64, qx: i64, qy: i64, k: i64) -> (r: (i64, i64))
    requires
        -MAX_COORD <= px <= MAX_COORD,
        -MAX_COORD <= py <= MAX_COORD,
        -MAX_COORD <= qx <= MAX_COORD,
        -MAX_COORD <= qy <= MAX_COORD,
        1 <= k <= MAX_PARAM,
    ensures
        r.0 as int == attract_x(px as int, py as int, qx as int, qy as int, k as int),
        r.1 as int == attract_y(px as int, py as int, qx as int, qy as int, k as int),
        -6_000_000_000_000 <= r.0 as int <= 6_000_000_000_000,
        -6_000_000_000_000 <= r.1 as int <= 6_000_000_000_000,
{
    let dx: i64 = qx - px;
    let dy: i64 = qy - py;
    let udx: u64 = abs_i64(dx);
    let udy: u64 = abs_i64(dy);
    proof {
        assert((udx as int) * (udx as int) + (udy as int) * (udy as int) == dist2(
            px as int,
            py as int,
            qx as int,
            qy as int,
        ) && (udx as int) * (udx as int) + (udy as int) * (udy as int) <= 8_000_000_000_000)
            by (nonlinear_arith)
            requires
                udx as int == vstd::math::abs(qx as int - px as int),
                udy as int == vstd::math::abs(qy as int - py as int),
                0 <= (udx as int) <= 2_000_000,
                0 <= (udy as int) <= 2_000_000,
        ;
    }
    let d2: u64 = udx * udx + udy * udy;
    if d2 == 0 {
        (0, 0)
    } else {
        let dist: u64 = isqrt_u128(d2 as u128);
        proof {
            assert(dist as int <= 3_000_000) by (nonlinear_arith)
                requires
                    (dist as int) * (dist as int) <= d2 as int,
                    d2 as int <= 8_000_000_000_000,
                    0 <= dist as int,
            ;
            assert((udx as int) * (dist as int) <= 6_000_000_000_000 && (udy as int) * (
            dist as int) <= 6_000_000_000_000 && 0 <= (udx as int) * (dist as int) && 0 <= (
            udy as int) * (dist as int)) by (nonlinear_arith)
                requires
                    0 <= (udx as int) <= 2_000_000,
                    0 <= (udy as int) <= 2_000_000,
                    0 <= (dist as int) <= 3_000_000,
            ;
            lemma_div_nonincreasing((udx as int) * (dist as int), k as int);
            lemma_div_nonincreasing((udy as int) * (dist as int), k as int);
            lemma_div_pos_is_pos((udx as int) * (dist as int), k as int);
            lemma_div_pos_is_pos((udy as int) * (dist as int), k as int);
        }
        proof {
            assert((udx as int) * (dist as int) <= 6_000_000_000_000 && (udy as int) * (
            dist as int) <= 6_000_000_000_000) by (nonlinear_arith)
                requires
                    0 <= (udx as int) <= 2_000_000,
                    0 <= (udy as int) <= 2_000_000,
                    0 <= (dist as int) <= 3_000_000,
            ;
        }
        let mx: u64 = (udx * dist) / (k as u64);
        let my: u64 = (udy * dist) / (k as u64);
        let rx: i64 = if dx < 0 {
            -(mx as i64)
        } else {
            mx as i64
        };
        let ry: i64 = if dy < 0 {
            -(my as i64)
        } else {
            my as i64
        };
        (rx, ry)
    }
}



/// One simulation round, mutating positions in place: accumulate repulsion
/// over all unordered node pairs and attraction over all edges, then apply
/// each node's displacement clamped to `max_step`.
#[verifier::rlimit(100)]
pub fn layout_round(g: &mut Graph, ideal_distance: i64, max_step: i64)
    requires
        old(g)@.wf(),
        old(g)@.nodes.len() <= MAX_NODES,
        old(g)@.edges.len() <= MAX_EDGES,
        1 <= ideal_distance <= MAX_PARAM,
        0 <= max_step <= MAX_PARAM,
    ensures
        final(g)@ == round_spec(old(g)@, ideal_distance as int, max_step as int),
        final(g)@.wf(),
        final(g)@.nodes.len() == old(g)@.nodes.len(),
        final(g)@.edges == old(g)@.edges,
{
    let ghost g0 = g@;
    let ghost ki = ideal_distance as int;
    let n = g.nodes.len();
    let mut axv: Vec<i64> = Vec::new();
    let mut ayv: Vec<i64> = Vec::new();
    // Repulsion pass: node i collects the force from every other node.
    let mut i: usize = 0;
    while i < n
        invariant
            g@ == g0,
            g0.wf(),
            n == g0.nodes.len(),
            n <= MAX_NODES,
            1 <= ideal_distance <= MAX_PARAM,
            ki == ideal_distance as int,
            i <= n,
            axv@.len() == i as int,
            ayv@.len() == i as int,
            forall|p: int|
                0 <= p < i as int ==> #[trigger] axv@[p] == rep_sum_x(g0.nodes, p, n as int, ki)
                    && ayv@[p] == rep_sum_y(g0.nodes, p, n as int, ki),
            forall|p: int|
                0 <= p < i as int ==> -100_000_000_000_000 <= #[trigger] axv@[p]
                    <= 100_000_000_000_000 && -100_000_000_000_000 <= ayv@[p]
                    <= 100_000_000_000_000,
        decreases n - i,
    {
        let px = g.nodes[i].x;
        let py = g.nodes[i].y;
        let mut jx: i64 = 0;
        let mut jy: i64 = 0;
        let mut j: usize = 0;
        proof {
            assert(px as int == g0.nodes[i as int].x && py as int == g0.nodes[i as int].y);
        }
        while j < n
            invariant
                g@ == g0,
                g0.wf(),
                n == g0.nodes.len(),
                n <= MAX_NODES,
                1 <= ideal_distance <= MAX_PARAM,
                ki == ideal_distance as int,
                i < n,
                j <= n,
                px as int == g0.nodes[i as int].x,
                py as int == g0.nodes[i as int].y,
                jx as int == rep_sum_x(g0.nodes, i as int, j as int, ki),
                jy as int == rep_sum_y(g0.nodes, i as int, j as int, ki),
                -(j as int) * 10_000_000_000 <= jx as int <= (j as int) * 10_000_000_000,
                -(j as int) * 10_000_000_000 <= jy as int <= (j as int) * 10_000_000_000,
            decreases n - j,
        {
            if j != i {
                let qx = g.nodes[j].x;
                let qy = g.nodes[j].y;
                proof {
                    assert(qx as int == g0.nodes[j as int].x && qy as int == g0.nodes[
                    j as int].y);
                }
                let r = repulsion_contribution(px, py, qx, qy, ideal_distance);
                jx = jx + r.0;
                jy = jy + r.1;
            }
            j = j + 1;
        }
        axv.push(jx);
        ayv.push(jy);
        i = i + 1;
    }
    // Attraction pass: each edge pulls its endpoints together.
    let m = g.edges.len();
    let mut e: usize = 0;
    while e < m
        invariant
            g@ == g0,
            g0.wf(),
            n == g0.nodes.len(),
            m == g0.edges.len(),
            n <= MAX_NODES,
            m <= MAX_EDGES,
            1 <= ideal_distance <= MAX_PARAM,
            ki == ideal_distance as int,
            e <= m,
            axv@.len() == n as int,
            ayv@.len() == n as int,
            forall|p: int|
                0 <= p < n as int ==> #[trigger] axv@[p] == rep_sum_x(g0.nodes, p, n as int, ki)
                    + attr_sum_x(g0.nodes, g0.edges, p, e as int, ki) && ayv@[p] == rep_sum_y(
                    g0.nodes,
                    p,
                    n as int,
                    ki,
                ) + attr_sum_y(g0.nodes, g0.edges, p, e as int, ki),
            forall|p: int|
                0 <= p < n as int ==> -(100_000_000_000_000 + (e as int) * 6_000_000_000_000)
                    <= #[trigger] axv@[p] <= 100_000_000_000_000 + (e as int) * 6_000_000_000_000
                    && -(100_000_000_000_000 + (e as int) * 6_000_000_000_000) <= ayv@[p]
                    <= 100_000_000_000_000 + (e as int) * 6_000_000_000_000,
        decreases m - e,
    {
        let s = g.edges[e].source;
        let t = g.edges[e].target;
        proof {
            assert(g0.edges[e as int].source == s as int && g0.edges[e as int].target
                == t as int);
            assert(0 <= g0.edges[e as int].source < n as int && 0 <= g0.edges[e as int].target
                < n as int);
        }
        let sx = g.nodes[s].x;
        let sy = g.nodes[s].y;
        let tx = g.nodes[t].x;
        let ty = g.nodes[t].y;
        proof {
            assert(sx as int == g0.nodes[s as int].x && sy as int == g0.nodes[s as int].y);
            assert(tx as int == g0.nodes[t as int].x && ty as int == g0.nodes[t as int].y);
        }
        let v = attraction_contribution(sx, sy, tx, ty, ideal_distance);
        let ghost axv_before = axv@;
        let ghost ayv_before = ayv@;
        let nax = axv[s] + v.0;
        axv[s] = nax;
        let nay = ayv[s] + v.1;
        ayv[s] = nay;
        let nbx = axv[t] - v.0;
        axv[t] = nbx;
        let nby = ayv[t] - v.1;
        ayv[t] = nby;
        proof {
            lemma_attraction_antisymmetric(
                g0.nodes[s as int].x,
                g0.nodes[s as int].y,
                g0.nodes[t as int].x,
                g0.nodes[t as int].y,
                ki,
            );
            if s == t {
                assert(dist2(
                    g0.nodes[s as int].x,
                    g0.nodes[s as int].y,
                    g0.nodes[t as int].x,
                    g0.nodes[t as int].y,
                ) == 0) by (nonlinear_arith)
                    requires
                        g0.nodes[s as int].x == g0.nodes[t as int].x,
                        g0.nodes[s as int].y == g0.nodes[t as int].y,
                ;
            }
            assert forall|p: int| 0 <= p < n as int implies #[trigger] axv@[p] == rep_sum_x(
                g0.nodes,
                p,
                n as int,
                ki,
            ) + attr_sum_x(g0.nodes, g0.edges, p, (e + 1) as int, ki) && ayv@[p] == rep_sum_y(
                g0.nodes,
                p,
                n as int,
                ki,
            ) + attr_sum_y(g0.nodes, g0.edges, p, (e + 1) as int, ki) by {
                assert(attr_sum_x(g0.nodes, g0.edges, p, (e + 1) as int, ki) == attr_sum_x(
                    g0.nodes,
                    g0.edges,
                    p,
                    e as int,
                    ki,
                ) + edge_pull_x(g0.nodes, g0.edges[e as int], p, ki));
                assert(attr_sum_y(g0.nodes, g0.edges, p, (e + 1) as int, ki) == attr_sum_y(
                    g0.nodes,
                    g0.edges,
                    p,
                    e as int,
                    ki,
                ) + edge_pull_y(g0.nodes, g0.edges[e as int], p, ki));
                if p == s as int && p == t as int {
                    assert(axv@[p] == axv_before[p] && ayv@[p] == ayv_before[p]);
                    assert(edge_pull_x(g0.nodes, g0.edges[e as int], p, ki) == 0);
                    assert(edge_pull_y(g0.nodes, g0.edges[e as int], p, ki) == 0);
                } else if p == s as int {
                    assert(axv@[p] == axv_before[p] + v.0 as int);
                    assert(edge_pull_x(g0.nodes, g0.edges[e as int], p, ki) == v.0 as int);
                    assert(edge_pull_y(g0.nodes, g0.edges[e as int], p, ki) == v.1 as int);
                } else if p == t as int {
                    assert(axv@[p] == axv_before[p] - v.0 as int);
                    assert(edge_pull_x(g0.nodes, g0.edges[e as int], p, ki) == -(v.0 as int));
                    assert(edge_pull_y(g0.nodes, g0.edges[e as int], p, ki) == -(v.1 as int));
                } else {
                    assert(axv@[p] == axv_before[p] && ayv@[p] == ayv_before[p]);
                    assert(edge_pull_x(g0.nodes, g0.edges[e as int], p, ki) == 0);
                    assert(edge_pull_y(g0.nodes, g0.edges[e as int], p, ki) == 0);
                }
            }
        }
        e = e + 1;
    }
    // Apply pass: clamp each node's displacement and move it.
    let mut i: usize = 0;
    while i < n
        invariant
            g@.nodes.len() == n as int,
            g@.edges == g0.edges,
            n == g0.nodes.len(),
            n <= MAX_NODES,
            m == g0.edges.len(),
            m <= MAX_EDGES,
            1 <= ideal_distance <= MAX_PARAM,
            0 <= max_step <= MAX_PARAM,
            ki == ideal_distance as int,
            g0.wf(),
            i <= n,
            axv@.len() == n as int,
            ayv@.len() == n as int,
            forall|p: int|
                0 <= p < n as int ==> #[trigger] axv@[p] == disp_x(g0, p, ki) && ayv@[p]
                    == disp_y(g0, p, ki),
            forall|p: int|
                0 <= p < n as int ==> -700_000_000_000_000_000 <= #[trigger] axv@[p]
                    <= 700_000_000_000_000_000 && -700_000_000_000_000_000 <= ayv@[p]
                    <= 700_000_000_000_000_000,
            forall|p: int|
                i as int <= p < n as int ==> g@.nodes[p] == g0.nodes[p],
            forall|p: int|
                0 <= p < i as int ==> g@.nodes[p] == round_spec(g0, ki, max_step as int).nodes[p],
        decreases n - i,
    {
        let c = clamp_step(axv[i], ayv[i], max_step);
        proof {
            assert(g@.nodes[i as int] == g0.nodes[i as int]);
            assert(g.nodes@[i as int].x as int == g0.nodes[i as int].x);
            assert((c.0 as int) * (c.0 as int) + (c.1 as int) * (c.1 as int) <= (max_step as int)
                * (max_step as int));
            assert(-(max_step as int) <= c.0 as int <= max_step as int && -(max_step as int)
                <= c.1 as int <= max_step as int) by (nonlinear_arith)
                requires
                    (c.0 as int) * (c.0 as int) + (c.1 as int) * (c.1 as int) <= (max_step as int)
                        * (max_step as int),
                    0 <= max_step as int <= 100_000,
            ;
        }
        let old_x = g.nodes[i].x;
        let old_y = g.nodes[i].y;
        let nx_raw = old_x + c.0;
        let ny_raw = old_y + c.1;
        let nx = if nx_raw > MAX_COORD {
            MAX_COORD
        } else if nx_raw < -MAX_COORD {
            -MAX_COORD
        } else {
            nx_raw
        };
        let ny = if ny_raw > MAX_COORD {
            MAX_COORD
        } else if ny_raw < -MAX_COORD {
            -MAX_COORD
        } else {
            ny_raw
        };
        let ghost before = g@;
        g.nodes[i].x = nx;
        g.nodes[i].y = ny;
        proof {
            assert forall|p: int| 0 <= p < n as int && p != i as int implies g@.nodes[p]
                == before.nodes[p] by {
                assert(g.nodes@[p]@ == before.nodes[p]);
            }
            assert(g@.nodes[i as int] == round_spec(g0, ki, max_step as int).nodes[i as int]) by {
                assert(round_spec(g0, ki, max_step as int).nodes[i as int] == round_node(
                    g0,
                    i as int,
                    ki,
                    max_step as int,
                ));
                assert(nx as int == saturate(
                    g0.nodes[i as int].x + clamp_x(
                        disp_x(g0, i as int, ki),
                        disp_y(g0, i as int, ki),
                        max_step as int,
                    ),
                ));
                assert(ny as int == saturate(
                    g0.nodes[i as int].y + clamp_y(
                        disp_x(g0, i as int, ki),
                        disp_y(g0, i as int, ki),
                        max_step as int,
                    ),
                ));
                assert(g@.nodes[i as int].id == g0.nodes[i as int].id);
                assert(g@.nodes[i as int].label == g0.nodes[i as int].label);
            }
            assert forall|p: int| 0 <= p < i as int + 1 implies g@.nodes[p] == round_spec(
                g0,
                ki,
                max_step as int,
            ).nodes[p] by {
                if p != i as int {
                    assert(g@.nodes[p] == before.nodes[p]);
                    assert(before.nodes[p] == round_spec(g0, ki, max_step as int).nodes[p]);
                }
            }
        }
        i = i + 1;
    }
    proof {
        assert(g@.nodes =~= round_spec(g0, ki, max_step as int).nodes);
        assert(g@.edges =~= round_spec(g0, ki, max_step as int).edges);
        assert(g@ =~= round_spec(g0, ki, max_step as int));
        assert(round_spec(g0, ki, max_step as int).wf()) by {
            lemma_round_wf(g0, ki, max_step as int);
        }
    }
}

/// One round keeps the graph well formed: positions stay saturated inside the
/// world square and the edge list is untouched.
pub proof fn lemma_round_wf(g: GraphView, k: int, c: int)
    requires
        g.wf(),
    ensures
        round_spec(g, k, c).wf(),
        round_spec(g, k, c).nodes.len() == g.nodes.len(),
        round_spec(g, k, c).edges == g.edges,
{
    let r = round_spec(g, k, c);
    assert forall|n: int| 0 <= n < r.nodes.len() implies -(MAX_COORD as int)
        <= #[trigger] r.nodes[n].x <= MAX_COORD as int && -(MAX_COORD as int) <= r.nodes[n].y
        <= MAX_COORD as int by {
        assert(r.nodes[n] == round_node(g, n, k, c));
    }
    assert forall|e: int| 0 <= e < r.edges.len() implies 0 <= #[trigger] r.edges[e].source
        < r.nodes.len() && 0 <= r.edges[e].target < r.nodes.len() by {
        assert(g.edges[e] == r.edges[e]);
    }
}

/// Any number of rounds keeps the graph well formed: in this integer engine
/// every coordinate stays a defined, bounded value, whatever the input.
pub proof fn lemma_layout_wf(g: GraphView, iters: int, k: int, c: int)
    requires
        g.wf(),
    ensures
        layout_spec(g, iters, k, c).wf(),
    decreases iters,
{
    if iters <= 0 {
    } else {
        lemma_round_wf(g, k, c);
        lemma_layout_wf(round_spec(g, k, c), iters - 1, k, c);
    }
}

/// Layout only moves positions: node count, identifiers, labels and the edge
/// list are preserved by every number of rounds.
pub proof fn lemma_layout_preserves_structure(g: GraphView, iters: int, k: int, c: int)
    ensures
        layout_spec(g, iters, k, c).nodes.len() == g.nodes.len(),
        layout_spec(g, iters, k, c).edges == g.edges,
        forall|i: int|
            0 <= i < g.nodes.len() ==> #[trigger] layout_spec(g, iters, k, c).nodes[i].id
                == g.nodes[i].id && layout_spec(g, iters, k, c).nodes[i].label
                == g.nodes[i].label,
    decreases iters,
{
    if iters <= 0 {
    } else {
        let r = round_spec(g, k, c);
        assert forall|i: int| 0 <= i < g.nodes.len() implies #[trigger] r.nodes[i].id
            == g.nodes[i].id && r.nodes[i].label == g.nodes[i].label by {
            assert(r.nodes[i] == round_node(g, i, k, c));
        }
        lemma_layout_preserves_structure(r, iters - 1, k, c);
    }
}

/// No single round moves any node by more than `max_step` in Euclidean
/// distance.
pub proof fn lemma_round_moves_at_most(g: GraphView, k: int, c: int, i: int)
    requires
        g.wf(),
        0 <= c,
        0 <= i < g.nodes.len(),
    ensures
        (round_spec(g, k, c).nodes[i].x - g.nodes[i].x) * (round_spec(g, k, c).nodes[i].x
            - g.nodes[i].x) + (round_spec(g, k, c).nodes[i].y - g.nodes[i].y) * (round_spec(
            g,
            k,
            c,
        ).nodes[i].y - g.nodes[i].y) <= c * c,
{
    let r = round_spec(g, k, c);
    assert(r.nodes[i] == round_node(g, i, k, c));
    let ax = disp_x(g, i, k);
    let ay = disp_y(g, i, k);
    let cx = clamp_x(ax, ay, c);
    let cy = clamp_y(ax, ay, c);
    crate::geom::lemma_clamp_norm(ax, ay, c);
    let x0 = g.nodes[i].x;
    let y0 = g.nodes[i].y;
    let mx = saturate(x0 + cx) - x0;
    let my = saturate(y0 + cy) - y0;
    assert(-(MAX_COORD as int) <= x0 <= MAX_COORD as int);
    assert(-(MAX_COORD as int) <= y0 <= MAX_COORD as int);
    assert(mx * mx <= cx * cx) by (nonlinear_arith)
        requires
            mx == saturate(x0 + cx) - x0,
            -(MAX_COORD as int) <= x0 <= MAX_COORD as int,
            saturate(x0 + cx) == if x0 + cx < -(MAX_COORD as int) {
                -(MAX_COORD as int)
            } else if x0 + cx > MAX_COORD as int {
                MAX_COORD as int
            } else {
                x0 + cx
            },
    ;
    assert(my * my <= cy * cy) by (nonlinear_arith)
        requires
            my == saturate(y0 + cy) - y0,
            -(MAX_COORD as int) <= y0 <= MAX_COORD as int,
            saturate(y0 + cy) == if y0 + cy < -(MAX_COORD as int) {
                -(MAX_COORD as int)
            } else if y0 + cy > MAX_COORD as int {
                MAX_COORD as int
            } else {
                y0 + cy
            },
    ;
    assert(r.nodes[i].x - x0 == mx && r.nodes[i].y - y0 == my);
}

/// The position-level face of repulsion symmetry: two nodes with no
/// connecting edge move by exactly opposite displacements in one round, so
/// their midpoint is preserved. Stated away from the world-square boundary,
/// where the saturation cannot clip either move.
pub proof fn lemma_round_two_nodes_opposite(g: GraphView, k: int, c: int)
    requires
        g.wf(),
        g.nodes.len() == 2,
        g.edges.len() == 0,
        0 <= c,
        -(MAX_COORD as int) + c <= g.nodes[0].x <= MAX_COORD as int - c,
        -(MAX_COORD as int) + c <= g.nodes[0].y <= MAX_COORD as int - c,
        -(MAX_COORD as int) + c <= g.nodes[1].x <= MAX_COORD as int - c,
        -(MAX_COORD as int) + c <= g.nodes[1].y <= MAX_COORD as int - c,
    ensures
        round_spec(g, k, c).nodes[0].x - g.nodes[0].x == -(round_spec(g, k, c).nodes[1].x
            - g.nodes[1].x),
        round_spec(g, k, c).nodes[0].y - g.nodes[0].y == -(round_spec(g, k, c).nodes[1].y
            - g.nodes[1].y),
{
    let r = round_spec(g, k, c);
    assert(r.nodes[0] == round_node(g, 0, k, c));
    assert(r.nodes[1] == round_node(g, 1, k, c));
    let p0x = g.nodes[0].x;
    let p0y = g.nodes[0].y;
    let p1x = g.nodes[1].x;
    let p1y = g.nodes[1].y;
    assert(rep_sum_x(g.nodes, 0, 0, k) == 0 && rep_sum_y(g.nodes, 0, 0, k) == 0);
    assert(rep_sum_x(g.nodes, 0, 1, k) == 0 && rep_sum_y(g.nodes, 0, 1, k) == 0);
    assert(rep_sum_x(g.nodes, 0, 2, k) == repulse_x(p0x, p0y, p1x, p1y, k));
    assert(rep_sum_y(g.nodes, 0, 2, k) == repulse_y(p0x, p0y, p1x, p1y, k));
    assert(rep_sum_x(g.nodes, 1, 0, k) == 0 && rep_sum_y(g.nodes, 1, 0, k) == 0);
    assert(rep_sum_x(g.nodes, 1, 1, k) == repulse_x(p1x, p1y, p0x, p0y, k));
    assert(rep_sum_y(g.nodes, 1, 1, k) == repulse_y(p1x, p1y, p0x, p0y, k));
    assert(rep_sum_x(g.nodes, 1, 2, k) == repulse_x(p1x, p1y, p0x, p0y, k));
    assert(rep_sum_y(g.nodes, 1, 2, k) == repulse_y(p1x, p1y, p0x, p0y, k));
    assert(attr_sum_x(g.nodes, g.edges, 0, 0, k) == 0);
    assert(attr_sum_y(g.nodes, g.edges, 0, 0, k) == 0);
    assert(attr_sum_x(g.nodes, g.edges, 1, 0, k) == 0);
    assert(attr_sum_y(g.nodes, g.edges, 1, 0, k) == 0);
    lemma_repulsion_symmetric(p0x, p0y, p1x, p1y, k);
    let ax = disp_x(g, 0, k);
    let ay = disp_y(g, 0, k);
    assert(disp_x(g, 1, k) == -ax && disp_y(g, 1, k) == -ay);
    crate::geom::lemma_clamp_antisymmetric(ax, ay, c);
    crate::geom::lemma_clamp_norm(ax, ay, c);
    let cx = clamp_x(ax, ay, c);
    let cy = clamp_y(ax, ay, c);
    assert(-c <= cx <= c && -c <= cy <= c) by (nonlinear_arith)
        requires
            cx * cx + cy * cy <= c * c,
            0 <= c,
    ;
    assert(saturate(p0x + cx) == p0x + cx && saturate(p0y + cy) == p0y + cy);
    assert(saturate(p1x + -cx) == p1x - cx && saturate(p1y + -cy) == p1y - cy);
}

/// Runs the force-directed simulation for a fixed number of rounds, mutating
/// node positions in place. Deterministic in its inputs; identifiers, labels
/// and edges are untouched.
pub fn apply_force_directed_layout(
    graph: &mut Graph,
    iterations: usize,
    ideal_distance: i64,
    max_step: i64,
)
    requires
        old(graph)@.wf(),
        old(graph)@.nodes.len() <= MAX_NODES,
        old(graph)@.edges.len() <= MAX_EDGES,
        1 <= ideal_distance <= MAX_PARAM,
        0 <= max_step <= MAX_PARAM,
    ensures
        final(graph)@ == layout_spec(
            old(graph)@,
            iterations as int,
            ideal_distance as int,
            max_step as int,
        ),
        final(graph)@.wf(),
{
    let ghost g0 = graph@;
    let ghost ki = ideal_distance as int;
    let ghost ci = max_step as int;
    let mut it: usize = 0;
    while it < iterations
        invariant
            graph@.wf(),
            graph@.nodes.len() == g0.nodes.len(),
            graph@.edges == g0.edges,
            g0.nodes.len() <= MAX_NODES,
            g0.edges.len() <= MAX_EDGES,
            1 <= ideal_distance <= MAX_PARAM,
            0 <= max_step <= MAX_PARAM,
            ki == ideal_distance as int,
            ci == max_step as int,
            it <= iterations,
            layout_spec(g0, iterations as int, ki, ci) == layout_spec(
                graph@,
                iterations as int - it as int,
                ki,
                ci,
            ),
        decreases iterations - it,
    {
        let ghost before = graph@;
        layout_round(graph, ideal_distance, max_step);
        proof {
            assert(layout_spec(before, iterations as int - it as int, ki, ci) == layout_spec(
                round_spec(before, ki, ci),
                iterations as int - it as int - 1,
                ki,
                ci,
            ));
        }
        it = it + 1;
    }
}

} // verus!
