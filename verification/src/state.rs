//! Viewer state: initial placement from an explicit seed, the full layout
//! run, and the initial auto-fit. The seed is an explicit input so a layout
//! is reproducible; the renderer owns zoom and pan afterwards.

use vstd::prelude::*;
use crate::layout::{apply_force_directed_layout, layout_spec, MAX_EDGES, MAX_NODES};
use crate::loader::LoadError;
use crate::model::{Graph, GraphView, NodeView};
use crate::viewport::{fit, fit_pan_spec, fit_zoom_spec, max_x, max_y, min_x, min_y};

verus! {

/// Modulus of the pseudo-random generator used for initial placement.
pub const SCATTER_MODULUS: u64 = 0x7fff_ffff;

/// Multiplier of the pseudo-random generator used for initial placement.
pub const SCATTER_MULTIPLIER: u64 = 48271;

/// Half-width of the square the initial placement scatters nodes over.
pub const SCATTER_SPREAD: i64 = 50_000;

/// Number of simulation rounds run when a viewer state is built.
pub const LAYOUT_ITERATIONS: usize = 200;

/// Ideal edge length handed to the layout engine, in world units.
pub const LAYOUT_IDEAL_DISTANCE: i64 = 80_000;

/// Per-round displacement bound handed to the layout engine, in world units.
pub const LAYOUT_MAX_STEP: i64 = 10_000;

/// Target display extent the initial fit aims at, in display units.
pub const FIT_TARGET_WIDTH: i64 = 800;

/// Target display extent the initial fit aims at, in display units.
pub const FIT_TARGET_HEIGHT: i64 = 600;

/// Margin factor of the initial fit, in milli-units.
pub const FIT_MARGIN_MILLI: i64 = 800;

/// One step of the multiplicative congruential generator.
pub open spec fn lcg_next(s: int) -> int {
    (s * SCATTER_MULTIPLIER as int) % SCATTER_MODULUS as int
}

/// The generator's state after `n` steps from a seed.
pub open spec fn lcg_state(seed: int, n: int) -> int
    decreases n,
{
    if n <= 0 {
        seed % SCATTER_MODULUS as int
    } else {
        lcg_next(lcg_state(seed, n - 1))
    }
}

/// A generator state folded into a coordinate of the scatter square.
pub open spec fn scatter_coord(s: int) -> int {
    s % (2 * SCATTER_SPREAD as int + 1) - SCATTER_SPREAD as int
}

/// The graph with every node moved to its seeded scatter position; node
/// `i` takes the generator's states `2i+1` and `2i+2`.
pub open spec fn scatter_spec(g: GraphView, seed: int) -> GraphView {
    GraphView {
        nodes: Seq::new(
            g.nodes.len(),
            |i: int|
                NodeView {
                    id: g.nodes[i].id,
                    label: g.nodes[i].label,
                    x: scatter_coord(lcg_state(seed, 2 * i + 1)),
                    y: scatter_coord(lcg_state(seed, 2 * i + 2)),
                },
        ),
        edges: g.edges,
    }
}

/// Moves every node to a pseudo-random position inside the scatter square,
/// deterministically from the seed.
pub fn scatter(g: &mut Graph, seed: u64)
    requires
        old(g)@.wf(),
    ensures
        final(g)@ == scatter_spec(old(g)@, seed as int),
        final(g)@.wf(),
{
    let ghost g0 = g@;
    let mut s: u64 = seed % SCATTER_MODULUS;
    let n = g.nodes.len();
    let mut i: usize = 0;
    while i < n
        invariant
            n == g@.nodes.len(),
            n == g0.nodes.len(),
            g@.edges == g0.edges,
            g0.wf(),
            i <= n,
            s as int == lcg_state(seed as int, 2 * i as int),
            s < SCATTER_MODULUS,
            forall|p: int| i as int <= p < n as int ==> g@.nodes[p] == g0.nodes[p],
            forall|p: int|
                0 <= p < i as int ==> g@.nodes[p] == (scatter_spec(g0, seed as int).nodes[p]),
        decreases n - i,
    {
        let s1 = (s * SCATTER_MULTIPLIER) % SCATTER_MODULUS;
        let s2 = (s1 * SCATTER_MULTIPLIER) % SCATTER_MODULUS;
        let x = (s1 % (2 * SCATTER_SPREAD as u64 + 1)) as i64 - SCATTER_SPREAD;
        let y = (s2 % (2 * SCATTER_SPREAD as u64 + 1)) as i64 - SCATTER_SPREAD;
        let ghost before = g@;
        g.nodes[i].x = x;
        g.nodes[i].y = y;
        proof {
            assert(s1 as int == lcg_state(seed as int, 2 * i as int + 1));
            assert(s2 as int == lcg_state(seed as int, 2 * i as int + 2));
            assert(x as int == scatter_coord(s1 as int));
            assert(y as int == scatter_coord(s2 as int));
            assert forall|p: int| 0 <= p < i as int + 1 implies g@.nodes[p] == (scatter_spec(
                g0,
                seed as int,
            ).nodes[p]) by {
                if p != i as int {
                    assert(g.nodes@[p]@ == before.nodes[p]);
                } else {
                    assert(g@.nodes[p].id == g0.nodes[p].id);
                    assert(g@.nodes[p].label == g0.nodes[p].label);
                }
            }
            assert forall|p: int| i as int + 1 <= p < n as int implies g@.nodes[p]
                == g0.nodes[p] by {
                assert(g.nodes@[p]@ == before.nodes[p]);
            }
        }
        s = s2;
        i = i + 1;
    }
    proof {
        assert(g@.nodes =~= scatter_spec(g0, seed as int).nodes);
        assert(g@ =~= scatter_spec(g0, seed as int));
        assert forall|p: int| 0 <= p < g@.nodes.len() implies -(crate::model::MAX_COORD as int)
            <= #[trigger] g@.nodes[p].x <= crate::model::MAX_COORD as int && -(
        crate::model::MAX_COORD as int) <= g@.nodes[p].y
            <= crate::model::MAX_COORD as int by {
            assert(g@.nodes[p] == scatter_spec(g0, seed as int).nodes[p]);
        }
    }
}

/// An error of the whole viewer pipeline: a loading failure, or one reported
/// by the display subsystem outside this library.
pub enum ViewerError {
    Load(LoadError),
    Display(String),
}

impl ViewerError {
    /// Whether this wraps a loading failure.
    pub fn is_load(&self) -> (r: bool)
        ensures
            r == (self is Load),
    {
        match self {
            ViewerError::Load(_) => true,
            ViewerError::Display(_) => false,
        }
    }
}

impl From<LoadError> for ViewerError {
    fn from(e: LoadError) -> (r: Self) {
        ViewerError::Load(e)
    }
}

impl vstd::std_specs::convert::FromSpecImpl<LoadError> for ViewerError {
    open spec fn obeys_from_spec() -> bool {
        true
    }

    open spec fn from_spec(e: LoadError) -> Self {
        ViewerError::Load(e)
    }
}

/// The state handed to the renderer: the laid-out graph, the initial zoom
/// and pan in milli-units, and a flag that stays false until the renderer
/// performs its first-frame centering.
pub struct ViewerState {
    pub graph: Graph,
    pub zoom_milli: i64,
    pub pan_x_milli: i64,
    pub pan_y_milli: i64,
    pub initialized_view: bool,
}

impl ViewerState {
    /// Builds the state for a freshly parsed graph: scatters the nodes from
    /// the seed, runs the full force-directed layout, and fits the result to
    /// the documented target extent. The zoom is always positive, and the
    /// initialized flag starts false.
    pub fn new(graph: Graph, seed: u64) -> (st: ViewerState)
        requires
            graph@.wf(),
            graph@.nodes.len() <= MAX_NODES,
            graph@.edges.len() <= MAX_EDGES,
        ensures
            st.graph@ == (layout_spec(
                scatter_spec(graph@, seed as int),
                LAYOUT_ITERATIONS as int,
                LAYOUT_IDEAL_DISTANCE as int,
                LAYOUT_MAX_STEP as int,
            )),
            st.graph@.wf(),
            st.zoom_milli as int == (fit_zoom_spec(
                st.graph@,
                FIT_TARGET_WIDTH as int,
                FIT_TARGET_HEIGHT as int,
                FIT_MARGIN_MILLI as int,
            )),
            st.zoom_milli > 0,
            st.graph@.nodes.len() > 0 ==> st.pan_x_milli as int == (fit_pan_spec(
                FIT_TARGET_WIDTH as int,
                min_x(st.graph@.nodes, st.graph@.nodes.len() as int),
                max_x(st.graph@.nodes, st.graph@.nodes.len() as int),
                st.zoom_milli as int,
            )) && st.pan_y_milli as int == (fit_pan_spec(
                FIT_TARGET_HEIGHT as int,
                min_y(st.graph@.nodes, st.graph@.nodes.len() as int),
                max_y(st.graph@.nodes, st.graph@.nodes.len() as int),
                st.zoom_milli as int,
            )),
            st.graph@.nodes.len() == 0 ==> st.pan_x_milli == 0 && st.pan_y_milli == 0,
            st.initialized_view == false,
    {
        let mut graph = graph;
        scatter(&mut graph, seed);
        apply_force_directed_layout(
            &mut graph,
            LAYOUT_ITERATIONS,
            LAYOUT_IDEAL_DISTANCE,
            LAYOUT_MAX_STEP,
        );
        let (zoom, pan) = fit(&graph, FIT_TARGET_WIDTH, FIT_TARGET_HEIGHT, FIT_MARGIN_MILLI);
        ViewerState {
            graph,
            zoom_milli: zoom,
            pan_x_milli: pan.0,
            pan_y_milli: pan.1,
            initialized_view: false,
        }
    }
}

} // verus!
