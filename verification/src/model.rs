//! The in-memory graph: nodes with identifiers, display labels and mutable 2D
//! positions, and directed edges referring to nodes by stable internal index.
//!
//! Coordinates are integer world units. The whole pipeline keeps every
//! coordinate within `[-MAX_COORD, MAX_COORD]`, so all force arithmetic can be
//! shown free of overflow.

use vstd::prelude::*;

verus! {

/// Largest magnitude a node coordinate may take.
pub const MAX_COORD: i64 = 1_000_000;

/// A node: external identifier, display label, and a mutable position.
pub struct NodeData {
    pub id: String,
    pub label: String,
    pub x: i64,
    pub y: i64,
}

/// Payload carried by an edge: an optional identity string.
pub struct EdgeData {
    pub id: Option<String>,
}

/// A directed edge between two nodes, by internal index.
pub struct GraphEdge {
    pub source: usize,
    pub target: usize,
    pub data: EdgeData,
}

/// Mathematical image of a node.
#[verifier::ext_equal]
pub ghost struct NodeView {
    pub id: Seq<char>,
    pub label: Seq<char>,
    pub x: int,
    pub y: int,
}

/// Mathematical image of an edge.
#[verifier::ext_equal]
pub ghost struct EdgeView {
    pub source: int,
    pub target: int,
    pub id: Option<Seq<char>>,
}

/// Mathematical image of a graph.
#[verifier::ext_equal]
pub ghost struct GraphView {
    pub nodes: Seq<NodeView>,
    pub edges: Seq<EdgeView>,
}

impl View for NodeData {
    type V = NodeView;

    open spec fn view(&self) -> NodeView {
        NodeView { id: self.id@, label: self.label@, x: self.x as int, y: self.y as int }
    }
}

impl View for GraphEdge {
    type V = EdgeView;

    open spec fn view(&self) -> EdgeView {
        EdgeView {
            source: self.source as int,
            target: self.target as int,
            id: match self.data.id {
                Some(s) => Some(s@),
                None => None,
            },
        }
    }
}

impl GraphView {
    /// Every edge endpoint names an existing node.
    pub open spec fn edges_wf(self) -> bool {
        forall|e: int|
            0 <= e < self.edges.len() ==> 0 <= #[trigger] self.edges[e].source
                < self.nodes.len() && 0 <= self.edges[e].target < self.nodes.len()
    }

    /// Every coordinate lies in the bounded world square.
    pub open spec fn coords_wf(self) -> bool {
        forall|n: int|
            0 <= n < self.nodes.len() ==> -(MAX_COORD as int) <= #[trigger] self.nodes[n].x
                <= MAX_COORD as int && -(MAX_COORD as int) <= self.nodes[n].y <= MAX_COORD as int
    }

    pub open spec fn wf(self) -> bool {
        self.edges_wf() && self.coords_wf()
    }
}

/// An owned collection of nodes and edges with stable insertion-order indices.
pub struct Graph {
    pub nodes: Vec<NodeData>,
    pub edges: Vec<GraphEdge>,
}

impl View for Graph {
    type V = GraphView;

    open spec fn view(&self) -> GraphView {
        GraphView {
            nodes: Seq::new(self.nodes@.len(), |i: int| self.nodes@[i]@),
            edges: Seq::new(self.edges@.len(), |i: int| self.edges@[i]@),
        }
    }
}

impl Graph {
    /// An empty graph, trivially well formed.
    pub fn new() -> (g: Graph)
        ensures
            g@.nodes.len() == 0,
            g@.edges.len() == 0,
            g@.wf(),
    {
        Graph { nodes: Vec::new(), edges: Vec::new() }
    }

    pub fn node_count(&self) -> (n: usize)
        ensures
            n == self@.nodes.len(),
    {
        self.nodes.len()
    }

    pub fn edge_count(&self) -> (n: usize)
        ensures
            n == self@.edges.len(),
    {
        self.edges.len()
    }

    /// Registers a node at the origin and returns its stable index.
    pub fn add_node(&mut self, id: String, label: String) -> (idx: usize)
        requires
            old(self)@.nodes.len() < usize::MAX,
        ensures
            idx == old(self)@.nodes.len(),
            final(self)@.nodes == old(self)@.nodes.push(
                NodeView { id: id@, label: label@, x: 0, y: 0 },
            ),
            final(self)@.edges == old(self)@.edges,
            old(self)@.wf() ==> final(self)@.wf(),
    {
        let idx = self.nodes.len();
        self.nodes.push(NodeData { id, label, x: 0, y: 0 });
        proof {
            assert(final(self)@.nodes =~= old(self)@.nodes.push(
                final(self)@.nodes[old(self)@.nodes.len() as int],
            ));
            assert(final(self)@.edges =~= old(self)@.edges);
        }
        idx
    }

    /// Adds a directed edge; both endpoints must already exist.
    pub fn add_edge(&mut self, source: usize, target: usize, data: EdgeData)
        requires
            source < old(self)@.nodes.len(),
            target < old(self)@.nodes.len(),
            old(self)@.edges.len() < usize::MAX,
        ensures
            final(self)@.nodes == old(self)@.nodes,
            final(self)@.edges == old(self)@.edges.push(
                EdgeView {
                    source: source as int,
                    target: target as int,
                    id: match data.id {
                        Some(s) => Some(s@),
                        None => None,
                    },
                },
            ),
            old(self)@.wf() ==> final(self)@.wf(),
    {
        self.edges.push(GraphEdge { source, target, data });
        proof {
            assert(final(self)@.nodes =~= old(self)@.nodes);
            assert(final(self)@.edges =~= old(self)@.edges.push(
                final(self)@.edges[old(self)@.edges.len() as int],
            ));
        }
    }
}

} // verus!
