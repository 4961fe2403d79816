//! Viewport fitting: from the final node positions, a scale and offset that
//! place the whole layout centered inside a target display extent with a
//! margin. Scale and offsets are in thousandths (milli-units), so the
//! transform reads `screen_milli = world * zoom_milli + pan_milli`.

use vstd::prelude::*;
use crate::model::{Graph, GraphView, MAX_COORD};

verus! {

/// Zoom used when the bounding box is degenerate (no nodes, a single node,
/// or all nodes coincident on an axis): one, in milli-units.
pub const DEFAULT_ZOOM_MILLI: i64 = 1000;

/// Largest accepted target extent, in display units.
pub const MAX_TARGET: i64 = 100_000;

/// Smallest x coordinate among the first `upto` nodes (0 when there are none).
pub open spec fn min_x(nodes: Seq<crate::model::NodeView>, upto: int) -> int
    decreases upto,
{
    if upto <= 0 {
        0
    } else if upto == 1 {
        nodes[0].x
    } else if nodes[upto - 1].x < min_x(nodes, upto - 1) {
        nodes[upto - 1].x
    } else {
        min_x(nodes, upto - 1)
    }
}

/// Largest x coordinate among the first `upto` nodes.
pub open spec fn max_x(nodes: Seq<crate::model::NodeView>, upto: int) -> int
    decreases upto,
{
    if upto <= 0 {
        0
    } else if upto == 1 {
        nodes[0].x
    } else if nodes[upto - 1].x > max_x(nodes, upto - 1) {
        nodes[upto - 1].x
    } else {
        max_x(nodes, upto - 1)
    }
}

/// Smallest y coordinate among the first `upto` nodes.
pub open spec fn min_y(nodes: Seq<crate::model::NodeView>, upto: int) -> int
    decreases upto,
{
    if upto <= 0 {
        0
    } else if upto == 1 {
        nodes[0].y
    } else if nodes[upto - 1].y < min_y(nodes, upto - 1) {
        nodes[upto - 1].y
    } else {
        min_y(nodes, upto - 1)
    }
}

/// Largest y coordinate among the first `upto` nodes.
pub open spec fn max_y(nodes: Seq<crate::model::NodeView>, upto: int) -> int
    decreases upto,
{
    if upto <= 0 {
        0
    } else if upto == 1 {
        nodes[0].y
    } else if nodes[upto - 1].y > max_y(nodes, upto - 1) {
        nodes[upto - 1].y
    } else {
        max_y(nodes, upto - 1)
    }
}

/// The fitted zoom, in milli-units: the margin factor times the smaller of
/// the two axis ratios, with the degenerate bounding box falling back to the
/// documented default, and never below one milli.
pub open spec fn fit_zoom_spec(g: GraphView, tw: int, th: int, margin_milli: int) -> int {
    let n = g.nodes.len() as int;
    if n == 0 {
        DEFAULT_ZOOM_MILLI as int
    } else {
        let bw = max_x(g.nodes, n) - min_x(g.nodes, n);
        let bh = max_y(g.nodes, n) - min_y(g.nodes, n);
        if bw == 0 || bh == 0 {
            DEFAULT_ZOOM_MILLI as int
        } else {
            let zx = tw * 1000 / bw;
            let zy = th * 1000 / bh;
            let z = margin_milli * (if zx < zy {
                zx
            } else {
                zy
            }) / 1000;
            if z == 0 {
                1
            } else {
                z
            }
        }
    }
}

/// The fitted pan on one axis, in milli-units: half of the target extent
/// minus the zoomed bounding-box center (floor division by two).
pub open spec fn fit_pan_spec(target: int, lo: int, hi: int, zoom_milli: int) -> int {
    (target * 1000 - (lo + hi) * zoom_milli) / 2
}

/// Floor division by two.
fn half_floor(v: i64) -> (r: i64)
    requires
        -1_000_000_000_000_000_000 < v < 1_000_000_000_000_000_000,
    ensures
        r as int == (v as int) / 2,
{
    if v >= 0 {
        ((v as u64) / 2) as i64
    } else {
        let m = (-v) as u64;
        -(((m + 1) / 2) as i64)
    }
}

/// Computes the zoom and pan that fit every node position inside the target
/// extent with the given margin: the bounding box of all positions scaled by
/// the smaller axis ratio and centered, with degenerate boxes falling back
/// to the documented default zoom instead of dividing by zero.
pub fn fit(graph: &Graph, target_w: i64, target_h: i64, margin_milli: i64) -> (r: (i64, (i64, i64)))
    requires
        graph@.wf(),
        1 <= target_w <= MAX_TARGET,
        1 <= target_h <= MAX_TARGET,
        1 <= margin_milli <= 1000,
    ensures
        r.0 as int == fit_zoom_spec(graph@, target_w as int, target_h as int, margin_milli as int),
        r.0 >= 1,
        graph@.nodes.len() > 0 ==> (r.1).0 as int == fit_pan_spec(
            target_w as int,
            min_x(graph@.nodes, graph@.nodes.len() as int),
            max_x(graph@.nodes, graph@.nodes.len() as int),
            r.0 as int,
        ) && (r.1).1 as int == fit_pan_spec(
            target_h as int,
            min_y(graph@.nodes, graph@.nodes.len() as int),
            max_y(graph@.nodes, graph@.nodes.len() as int),
            r.0 as int,
        ),
        graph@.nodes.len() == 0 ==> r.1 == (0i64, 0i64),
{
    let n = graph.nodes.len();
    if n == 0 {
        return (DEFAULT_ZOOM_MILLI, (0, 0));
    }
    let mut lo_x = graph.nodes[0].x;
    let mut hi_x = graph.nodes[0].x;
    let mut lo_y = graph.nodes[0].y;
    let mut hi_y = graph.nodes[0].y;
    proof {
        assert(lo_x as int == graph@.nodes[0].x && lo_y as int == graph@.nodes[0].y);
    }
    let mut i: usize = 1;
    while i < n
        invariant
            graph@.wf(),
            n == graph@.nodes.len(),
            1 <= i <= n,
            lo_x as int == min_x(graph@.nodes, i as int),
            hi_x as int == max_x(graph@.nodes, i as int),
            lo_y as int == min_y(graph@.nodes, i as int),
            hi_y as int == max_y(graph@.nodes, i as int),
        decreases n - i,
    {
        let x = graph.nodes[i].x;
        let y = graph.nodes[i].y;
        proof {
            assert(x as int == graph@.nodes[i as int].x && y as int == graph@.nodes[i as int].y);
        }
        if x < lo_x {
            lo_x = x;
        }
        if x > hi_x {
            hi_x = x;
        }
        if y < lo_y {
            lo_y = y;
        }
        if y > hi_y {
            hi_y = y;
        }
        i = i + 1;
    }
    proof {
        lemma_bbox_bounds(graph@, n as int);
        assert(-(MAX_COORD as int) <= lo_x as int <= MAX_COORD as int);
        assert(-(MAX_COORD as int) <= hi_x as int <= MAX_COORD as int);
        assert(-(MAX_COORD as int) <= lo_y as int <= MAX_COORD as int);
        assert(-(MAX_COORD as int) <= hi_y as int <= MAX_COORD as int);
    }
    let bw = hi_x - lo_x;
    let bh = hi_y - lo_y;
    let zoom: i64 = if bw == 0 || bh == 0 {
        DEFAULT_ZOOM_MILLI
    } else {
        let zx: u64 = (target_w as u64) * 1000 / (bw as u64);
        let zy: u64 = (target_h as u64) * 1000 / (bh as u64);
        let zmin: u64 = if zx < zy {
            zx
        } else {
            zy
        };
        proof {
            assert(zx <= 100_000_000 && zy <= 100_000_000) by {
                vstd::arithmetic::div_mod::lemma_div_nonincreasing(
                    (target_w as u64 * 1000) as int,
                    bw as int,
                );
                vstd::arithmetic::div_mod::lemma_div_nonincreasing(
                    (target_h as u64 * 1000) as int,
                    bh as int,
                );
            }
        }
        proof {
            assert((margin_milli as int) * (zmin as int) <= 100_000_000_000) by (nonlinear_arith)
                requires
                    1 <= (margin_milli as int) <= 1000,
                    0 <= (zmin as int) <= 100_000_000,
            ;
        }
        let z: u64 = (margin_milli as u64) * zmin / 1000;
        proof {
            vstd::arithmetic::div_mod::lemma_div_nonincreasing(
                ((margin_milli as u64) * zmin) as int,
                1000,
            );
        }
        if z == 0 {
            1
        } else {
            z as i64
        }
    };
    proof {
        assert(1 <= zoom as int <= 100_000_000);
        assert(-400_000_000_000_000 <= (lo_x as int + hi_x as int) * (zoom as int)
            <= 400_000_000_000_000 && -400_000_000_000_000 <= (lo_y as int + hi_y as int) * (
        zoom as int) <= 400_000_000_000_000) by (nonlinear_arith)
            requires
                -2_000_000 <= lo_x as int + hi_x as int <= 2_000_000,
                -2_000_000 <= lo_y as int + hi_y as int <= 2_000_000,
                1 <= zoom as int <= 100_000_000,
        ;
    }
    let px = half_floor(target_w * 1000 - (lo_x + hi_x) * zoom);
    let py = half_floor(target_h * 1000 - (lo_y + hi_y) * zoom);
    (zoom, (px, py))
}

/// The bounding box of a well-formed graph lies inside the world square.
proof fn lemma_bbox_bounds(g: GraphView, upto: int)
    requires
        g.wf(),
        0 < upto <= g.nodes.len(),
    ensures
        -(MAX_COORD as int) <= min_x(g.nodes, upto) <= MAX_COORD as int,
        -(MAX_COORD as int) <= max_x(g.nodes, upto) <= MAX_COORD as int,
        -(MAX_COORD as int) <= min_y(g.nodes, upto) <= MAX_COORD as int,
        -(MAX_COORD as int) <= max_y(g.nodes, upto) <= MAX_COORD as int,
    decreases upto,
{
    if upto == 1 {
    } else {
        lemma_bbox_bounds(g, upto - 1);
    }
}

/// A graph with a single node has a zero-area bounding box, and the fit
/// falls back to the finite documented default zoom instead of dividing by
/// zero.
pub proof fn lemma_fit_single_node(g: GraphView, tw: int, th: int, margin_milli: int)
    requires
        g.nodes.len() == 1,
    ensures
        fit_zoom_spec(g, tw, th, margin_milli) == DEFAULT_ZOOM_MILLI as int,
{
    assert(max_x(g.nodes, 1) == g.nodes[0].x && min_x(g.nodes, 1) == g.nodes[0].x);
}

} // verus!
