//! Reconstructs a graph from the markup event stream: a small explicit state
//! machine tracks whether the cursor is outside the graph element, inside it,
//! capturing a pending node, or expecting a label text payload. Edges whose
//! endpoints do not resolve against the identifiers registered so far are
//! silently dropped; a node without a label payload gets its identifier as
//! its label.

use vstd::prelude::*;
use crate::model::{EdgeData, EdgeView, Graph, GraphView, NodeView};
use crate::xml::{ascii_wf, events_deep, tokenize, tokenize_spec, EventView, XmlEvent};

verus! {

/// Why loading failed: the stream could not be read, or it is not
/// well-formed markup in the accepted dialect.
#[derive(Clone, Copy, PartialEq, Eq, Structural, Debug)]
pub enum LoadError {
    Io,
    Malformed,
}

/// `"graph"` as bytes.
pub open spec fn graph_name() -> Seq<u8> {
    seq![103u8, 114u8, 97u8, 112u8, 104u8]
}

/// `"node"` as bytes.
pub open spec fn node_name() -> Seq<u8> {
    seq![110u8, 111u8, 100u8, 101u8]
}

/// `"edge"` as bytes.
pub open spec fn edge_name() -> Seq<u8> {
    seq![101u8, 100u8, 103u8, 101u8]
}

/// `"data"` as bytes.
pub open spec fn data_name() -> Seq<u8> {
    seq![100u8, 97u8, 116u8, 97u8]
}

/// `"id"` as bytes.
pub open spec fn id_name() -> Seq<u8> {
    seq![105u8, 100u8]
}

/// `"key"` as bytes.
pub open spec fn key_name() -> Seq<u8> {
    seq![107u8, 101u8, 121u8]
}

/// `"label"` as bytes.
pub open spec fn label_name() -> Seq<u8> {
    seq![108u8, 97u8, 98u8, 101u8, 108u8]
}

/// `"source"` as bytes.
pub open spec fn source_name() -> Seq<u8> {
    seq![115u8, 111u8, 117u8, 114u8, 99u8, 101u8]
}

/// `"target"` as bytes.
pub open spec fn target_name() -> Seq<u8> {
    seq![116u8, 97u8, 114u8, 103u8, 101u8, 116u8]
}

/// The namespace-stripped element name: the part after the last colon.
pub open spec fn local_name(name: Seq<u8>) -> Seq<u8>
    decreases name.len(),
{
    if name.len() == 0 {
        name
    } else if name[name.len() - 1] == 58 {
        Seq::<u8>::empty()
    } else {
        local_name(name.drop_last()).push(name[name.len() - 1])
    }
}

/// The value of the last attribute with the given name, if any.
pub open spec fn attr_lookup(attrs: Seq<(Seq<u8>, Seq<u8>)>, key: Seq<u8>) -> Option<Seq<u8>>
    decreases attrs.len(),
{
    if attrs.len() == 0 {
        None
    } else if attrs.last().0 == key {
        Some(attrs.last().1)
    } else {
        attr_lookup(attrs.drop_last(), key)
    }
}

/// The node index registered last under the given identifier, if any.
pub open spec fn lookup_id(ids: Seq<(Seq<u8>, int)>, id: Seq<u8>) -> Option<int>
    decreases ids.len(),
{
    if ids.len() == 0 {
        None
    } else if ids.last().0 == id {
        Some(ids.last().1)
    } else {
        lookup_id(ids.drop_last(), id)
    }
}

/// ASCII bytes read as characters, one per byte.
pub open spec fn ascii_chars(s: Seq<u8>) -> Seq<char> {
    Seq::new(s.len(), |i: int| s[i] as char)
}

/// The characters a byte sequence decodes to, replacing invalid UTF-8 runs:
/// what `String::from_utf8_lossy` yields, a function of the bytes alone.
pub uninterp spec fn lossy_chars(bytes: Seq<u8>) -> Seq<char>;

/// Parser position within the document, as the tagged state machine of the
/// dialect: outside the graph element, inside it, capturing a pending node,
/// or armed for the next text event to become the pending node's label.
pub enum ParserState {
    Outside,
    InsideGraph,
    InsideNode { id: Vec<u8>, label: Option<Vec<u8>> },
    ExpectingLabelText { id: Vec<u8>, label: Option<Vec<u8>> },
}

/// Mathematical image of the parser state.
#[verifier::ext_equal]
pub ghost enum StateView {
    Outside,
    InsideGraph,
    InsideNode { id: Seq<u8>, label: Option<Seq<u8>> },
    ExpectingLabelText { id: Seq<u8>, label: Option<Seq<u8>> },
}

impl View for ParserState {
    type V = StateView;

    open spec fn view(&self) -> StateView {
        match self {
            ParserState::Outside => StateView::Outside,
            ParserState::InsideGraph => StateView::InsideGraph,
            ParserState::InsideNode { id, label } => StateView::InsideNode {
                id: id@,
                label: match label {
                    Some(l) => Some(l@),
                    None => None,
                },
            },
            ParserState::ExpectingLabelText { id, label } => StateView::ExpectingLabelText {
                id: id@,
                label: match label {
                    Some(l) => Some(l@),
                    None => None,
                },
            },
        }
    }
}

/// The whole builder state: machine state, graph so far, and the identifier
/// to node index map built so far (later registrations override earlier).
#[verifier::ext_equal]
pub ghost struct BuildView {
    pub state: StateView,
    pub graph: GraphView,
    pub ids: Seq<(Seq<u8>, int)>,
}

/// The builder state before any event.
pub open spec fn init_build() -> BuildView {
    BuildView {
        state: StateView::Outside,
        graph: GraphView { nodes: Seq::empty(), edges: Seq::empty() },
        ids: Seq::empty(),
    }
}

/// Registers a node: appended at the origin, its identifier mapped to its
/// fresh index; the machine state is left to the caller.
pub open spec fn register_node(b: BuildView, id: Seq<u8>, label: Seq<u8>) -> BuildView {
    BuildView {
        state: b.state,
        graph: GraphView {
            nodes: b.graph.nodes.push(
                NodeView { id: lossy_chars(id), label: lossy_chars(label), x: 0, y: 0 },
            ),
            edges: b.graph.edges,
        },
        ids: b.ids.push((id, b.graph.nodes.len() as int)),
    }
}

/// Processes an edge element: if both endpoint attributes are present and
/// both resolve against the identifiers registered so far, a directed edge
/// is appended; otherwise the builder state is unchanged (the dangling
/// reference is dropped, not an error).
pub open spec fn add_edge_step(b: BuildView, attrs: Seq<(Seq<u8>, Seq<u8>)>) -> BuildView {
    match (attr_lookup(attrs, source_name()), attr_lookup(attrs, target_name())) {
        (Some(s), Some(t)) => match (lookup_id(b.ids, s), lookup_id(b.ids, t)) {
            (Some(si), Some(ti)) => BuildView {
                state: b.state,
                graph: GraphView {
                    nodes: b.graph.nodes,
                    edges: b.graph.edges.push(EdgeView { source: si, target: ti, id: None }),
                },
                ids: b.ids,
            },
            _ => b,
        },
        _ => b,
    }
}

/// The state machine's transition for one event.
pub open spec fn build_step(b: BuildView, ev: EventView) -> BuildView {
    match ev {
        EventView::Open { name, attrs } => {
            let ln = local_name(name);
            if ln == graph_name() {
                if b.state is Outside {
                    BuildView { state: StateView::InsideGraph, graph: b.graph, ids: b.ids }
                } else {
                    b
                }
            } else if b.state is Outside {
                b
            } else if ln == node_name() {
                match attr_lookup(attrs, id_name()) {
                    Some(id) => BuildView {
                        state: StateView::InsideNode { id, label: None },
                        graph: b.graph,
                        ids: b.ids,
                    },
                    None => BuildView { state: StateView::InsideGraph, graph: b.graph, ids: b.ids },
                }
            } else if ln == data_name() {
                match b.state {
                    StateView::InsideNode { id, label } => {
                        if attr_lookup(attrs, key_name()) == Some(label_name()) {
                            BuildView {
                                state: StateView::ExpectingLabelText { id, label },
                                graph: b.graph,
                                ids: b.ids,
                            }
                        } else {
                            b
                        }
                    },
                    _ => b,
                }
            } else if ln == edge_name() {
                add_edge_step(b, attrs)
            } else {
                b
            }
        },
        EventView::Empty { name, attrs } => {
            let ln = local_name(name);
            if b.state is Outside {
                b
            } else if ln == node_name() {
                match attr_lookup(attrs, id_name()) {
                    Some(id) => register_node(b, id, id),
                    None => b,
                }
            } else if ln == edge_name() {
                add_edge_step(b, attrs)
            } else {
                b
            }
        },
        EventView::Close { name } => {
            let ln = local_name(name);
            if ln == graph_name() {
                BuildView { state: StateView::Outside, graph: b.graph, ids: b.ids }
            } else if ln == node_name() {
                match b.state {
                    StateView::InsideNode { id, label } => {
                        let b2 = register_node(
                            b,
                            id,
                            match label {
                                Some(l) => l,
                                None => id,
                            },
                        );
                        BuildView { state: StateView::InsideGraph, graph: b2.graph, ids: b2.ids }
                    },
                    StateView::ExpectingLabelText { id, label } => {
                        let b2 = register_node(
                            b,
                            id,
                            match label {
                                Some(l) => l,
                                None => id,
                            },
                        );
                        BuildView { state: StateView::InsideGraph, graph: b2.graph, ids: b2.ids }
                    },
                    _ => b,
                }
            } else {
                b
            }
        },
        EventView::Text { text } => {
            match b.state {
                StateView::ExpectingLabelText { id, label: _ } => BuildView {
                    state: StateView::InsideNode { id, label: Some(text) },
                    graph: b.graph,
                    ids: b.ids,
                },
                _ => b,
            }
        },
    }
}

/// The builder state after the first `upto` events.
pub open spec fn build_events(evs: Seq<EventView>, upto: int) -> BuildView
    decreases upto,
{
    if upto <= 0 {
        init_build()
    } else {
        build_step(build_events(evs, upto - 1), evs[upto - 1])
    }
}

/// The graph reconstructed from a whole event stream.
pub open spec fn build_result(evs: Seq<EventView>) -> GraphView {
    build_events(evs, evs.len() as int).graph
}

/// The builder invariant: the graph is well formed and every registered
/// index names a registered node.
pub open spec fn build_wf(b: BuildView) -> bool {
    b.graph.wf() && (forall|i: int|
        0 <= i < b.ids.len() ==> 0 <= (#[trigger] b.ids[i]).1 < b.graph.nodes.len())
}

/// A successful identifier lookup yields an index of a registered node.
pub proof fn lemma_lookup_in_range(ids: Seq<(Seq<u8>, int)>, id: Seq<u8>, n: int)
    requires
        forall|i: int| 0 <= i < ids.len() ==> 0 <= (#[trigger] ids[i]).1 < n,
        lookup_id(ids, id) is Some,
    ensures
        0 <= lookup_id(ids, id)->Some_0 < n,
    decreases ids.len(),
{
    if ids.len() == 0 {
    } else if ids.last().0 == id {
        assert(ids[ids.len() - 1].1 == ids.last().1);
    } else {
        lemma_lookup_in_range(ids.drop_last(), id, n);
    }
}

/// One transition preserves the builder invariant, and grows the graph by at
/// most one node and one edge.
pub proof fn lemma_step_wf(b: BuildView, ev: EventView)
    requires
        build_wf(b),
    ensures
        build_wf(build_step(b, ev)),
        build_step(b, ev).graph.nodes.len() <= b.graph.nodes.len() + 1,
        build_step(b, ev).graph.edges.len() <= b.graph.edges.len() + 1,
{
    let b2 = build_step(b, ev);
    match ev {
        EventView::Open { name, attrs } => {
            let ln = local_name(name);
            if ln == graph_name() || b.state is Outside {
            } else if ln == node_name() {
            } else if ln == data_name() {
            } else if ln == edge_name() {
                lemma_add_edge_wf(b, attrs);
            }
        },
        EventView::Empty { name, attrs } => {
            let ln = local_name(name);
            if b.state is Outside {
            } else if ln == node_name() {
                match attr_lookup(attrs, id_name()) {
                    Some(id) => {
                        lemma_register_wf(b, id, id);
                    },
                    None => {},
                }
            } else if ln == edge_name() {
                lemma_add_edge_wf(b, attrs);
            }
        },
        EventView::Close { name } => {
            let ln = local_name(name);
            if ln == graph_name() {
            } else if ln == node_name() {
                match b.state {
                    StateView::InsideNode { id, label } => {
                        lemma_register_wf(
                            b,
                            id,
                            match label {
                                Some(l) => l,
                                None => id,
                            },
                        );
                    },
                    StateView::ExpectingLabelText { id, label } => {
                        lemma_register_wf(
                            b,
                            id,
                            match label {
                                Some(l) => l,
                                None => id,
                            },
                        );
                    },
                    _ => {},
                }
            }
        },
        EventView::Text { text } => {},
    }
}

proof fn lemma_register_wf(b: BuildView, id: Seq<u8>, label: Seq<u8>)
    requires
        build_wf(b),
    ensures
        build_wf(BuildView { state: b.state, ..register_node(b, id, label) }),
        register_node(b, id, label).graph.wf(),
        forall|i: int|
            0 <= i < register_node(b, id, label).ids.len() ==> 0 <= (#[trigger] register_node(
                b,
                id,
                label,
            ).ids[i]).1 < register_node(b, id, label).graph.nodes.len(),
{
    let b2 = register_node(b, id, label);
    assert forall|e: int| 0 <= e < b2.graph.edges.len() implies 0
        <= #[trigger] b2.graph.edges[e].source < b2.graph.nodes.len() && 0
        <= b2.graph.edges[e].target < b2.graph.nodes.len() by {
        assert(b2.graph.edges[e] == b.graph.edges[e]);
    }
    assert forall|n: int| 0 <= n < b2.graph.nodes.len() implies -(crate::model::MAX_COORD as int)
        <= #[trigger] b2.graph.nodes[n].x <= crate::model::MAX_COORD as int && -(
    crate::model::MAX_COORD as int) <= b2.graph.nodes[n].y <= crate::model::MAX_COORD as int by {
        if n < b.graph.nodes.len() {
            assert(b2.graph.nodes[n] == b.graph.nodes[n]);
        }
    }
    assert forall|i: int| 0 <= i < b2.ids.len() implies 0 <= (#[trigger] b2.ids[i]).1
        < b2.graph.nodes.len() by {
        if i < b.ids.len() {
            assert(b2.ids[i] == b.ids[i]);
        }
    }
}

proof fn lemma_add_edge_wf(b: BuildView, attrs: Seq<(Seq<u8>, Seq<u8>)>)
    requires
        build_wf(b),
    ensures
        build_wf(add_edge_step(b, attrs)),
        add_edge_step(b, attrs).graph.nodes == b.graph.nodes,
        add_edge_step(b, attrs).graph.edges.len() <= b.graph.edges.len() + 1,
        add_edge_step(b, attrs).state == b.state,
        add_edge_step(b, attrs).ids == b.ids,
{
    let b2 = add_edge_step(b, attrs);
    match (attr_lookup(attrs, source_name()), attr_lookup(attrs, target_name())) {
        (Some(s), Some(t)) => {
            match (lookup_id(b.ids, s), lookup_id(b.ids, t)) {
                (Some(si), Some(ti)) => {
                    lemma_lookup_in_range(b.ids, s, b.graph.nodes.len() as int);
                    lemma_lookup_in_range(b.ids, t, b.graph.nodes.len() as int);
                    assert forall|e: int| 0 <= e < b2.graph.edges.len() implies 0
                        <= #[trigger] b2.graph.edges[e].source < b2.graph.nodes.len() && 0
                        <= b2.graph.edges[e].target < b2.graph.nodes.len() by {
                        if e < b.graph.edges.len() {
                            assert(b2.graph.edges[e] == b.graph.edges[e]);
                        } else {
                            assert(b2.graph.edges[e] == EdgeView {
                                source: si,
                                target: ti,
                                id: None,
                            });
                        }
                    }
                },
                _ => {},
            }
        },
        _ => {},
    }
}

/// The builder invariant holds after any prefix of well-formed events.
pub proof fn lemma_build_wf(evs: Seq<EventView>, upto: int)
    requires
        upto <= evs.len(),
    ensures
        build_wf(build_events(evs, upto)),
        build_events(evs, upto).graph.nodes.len() <= if upto >= 0 {
            upto
        } else {
            0
        },
        build_events(evs, upto).graph.edges.len() <= if upto >= 0 {
            upto
        } else {
            0
        },
    decreases upto,
{
    if upto <= 0 {
    } else {
        lemma_build_wf(evs, upto - 1);
        lemma_step_wf(build_events(evs, upto - 1), evs[upto - 1]);
    }
}



/// Copies a byte vector.
fn copy_bytes(v: &Vec<u8>) -> (r: Vec<u8>)
    ensures
        r@ == v@,
{
    let mut out: Vec<u8> = Vec::new();
    let mut i: usize = 0;
    while i < v.len()
        invariant
            i <= v@.len(),
            out@ == v@.take(i as int),
        decreases v@.len() - i,
    {
        out.push(v[i]);
        proof {
            assert(out@ =~= v@.take(i as int + 1));
        }
        i = i + 1;
    }
    proof {
        assert(v@.take(v@.len() as int) =~= v@);
    }
    out
}

/// Compares two byte vectors for equality.
fn bytes_is(a: &Vec<u8>, b: &Vec<u8>) -> (r: bool)
    ensures
        r <==> a@ == b@,
{
    if a.len() != b.len() {
        return false;
    }
    let mut i: usize = 0;
    while i < a.len()
        invariant
            i <= a@.len(),
            a@.len() == b@.len(),
            forall|j: int| 0 <= j < i as int ==> a@[j] == b@[j],
        decreases a@.len() - i,
    {
        if a[i] != b[i] {
            return false;
        }
        i = i + 1;
    }
    proof {
        assert(a@ =~= b@);
    }
    true
}

fn lit_graph() -> (v: Vec<u8>)
    ensures
        v@ == graph_name(),
{
    let mut v: Vec<u8> = Vec::new();
    v.push(103);
    v.push(114);
    v.push(97);
    v.push(112);
    v.push(104);
    proof {
        assert(v@ =~= graph_name());
    }
    v
}

fn lit_node() -> (v: Vec<u8>)
    ensures
        v@ == node_name(),
{
    let mut v: Vec<u8> = Vec::new();
    v.push(110);
    v.push(111);
    v.push(100);
    v.push(101);
    proof {
        assert(v@ =~= node_name());
    }
    v
}

fn lit_edge() -> (v: Vec<u8>)
    ensures
        v@ == edge_name(),
{
    let mut v: Vec<u8> = Vec::new();
    v.push(101);
    v.push(100);
    v.push(103);
    v.push(101);
    proof {
        assert(v@ =~= edge_name());
    }
    v
}

fn lit_data() -> (v: Vec<u8>)
    ensures
        v@ == data_name(),
{
    let mut v: Vec<u8> = Vec::new();
    v.push(100);
    v.push(97);
    v.push(116);
    v.push(97);
    proof {
        assert(v@ =~= data_name());
    }
    v
}

fn lit_id() -> (v: Vec<u8>)
    ensures
        v@ == id_name(),
{
    let mut v: Vec<u8> = Vec::new();
    v.push(105);
    v.push(100);
    proof {
        assert(v@ =~= id_name());
    }
    v
}

fn lit_key() -> (v: Vec<u8>)
    ensures
        v@ == key_name(),
{
    let mut v: Vec<u8> = Vec::new();
    v.push(107);
    v.push(101);
    v.push(121);
    proof {
        assert(v@ =~= key_name());
    }
    v
}

fn lit_label() -> (v: Vec<u8>)
    ensures
        v@ == label_name(),
{
    let mut v: Vec<u8> = Vec::new();
    v.push(108);
    v.push(97);
    v.push(98);
    v.push(101);
    v.push(108);
    proof {
        assert(v@ =~= label_name());
    }
    v
}

fn lit_source() -> (v: Vec<u8>)
    ensures
        v@ == source_name(),
{
    let mut v: Vec<u8> = Vec::new();
    v.push(115);
    v.push(111);
    v.push(117);
    v.push(114);
    v.push(99);
    v.push(101);
    proof {
        assert(v@ =~= source_name());
    }
    v
}

fn lit_target() -> (v: Vec<u8>)
    ensures
        v@ == target_name(),
{
    let mut v: Vec<u8> = Vec::new();
    v.push(116);
    v.push(97);
    v.push(114);
    v.push(103);
    v.push(101);
    v.push(116);
    proof {
        assert(v@ =~= target_name());
    }
    v
}

/// Relates a suffix with no colon, starting right after a colon (or at the
/// beginning), to `local_name`.
proof fn lemma_local_name_suffix(name: Seq<u8>, start: int)
    requires
        0 <= start <= name.len(),
        start > 0 ==> name[start - 1] == 58,
        forall|j: int| start <= j < name.len() ==> name[j] != 58,
    ensures
        local_name(name) == name.subrange(start, name.len() as int),
    decreases name.len(),
{
    if name.len() == 0 {
        assert(local_name(name) =~= name.subrange(0, 0));
    } else if name[name.len() - 1] == 58 {
        assert(start == name.len());
        assert(local_name(name) =~= name.subrange(start, name.len() as int));
    } else {
        let prefix = name.drop_last();
        assert(start <= prefix.len());
        lemma_local_name_suffix(prefix, start);
        assert(local_name(name) == local_name(prefix).push(name[name.len() - 1]));
        assert(prefix.subrange(start, prefix.len() as int).push(name[name.len() - 1]) =~= name
            .subrange(start, name.len() as int));
    }
}

/// Computes the namespace-stripped local name of an element.
fn local_name_of(name: &Vec<u8>) -> (r: Vec<u8>)
    ensures
        r@ == local_name(name@),
{
    let mut start: usize = 0;
    let mut i: usize = 0;
    while i < name.len()
        invariant
            start <= i <= name@.len(),
            start > 0 ==> name@[start as int - 1] == 58,
            forall|j: int| start as int <= j < i as int ==> name@[j] != 58,
        decreases name@.len() - i,
    {
        if name[i] == 58 {
            start = i + 1;
        }
        i = i + 1;
    }
    let mut out: Vec<u8> = Vec::new();
    let mut p = start;
    while p < name.len()
        invariant
            start <= p <= name@.len(),
            out@ == name@.subrange(start as int, p as int),
        decreases name@.len() - p,
    {
        out.push(name[p]);
        proof {
            assert(out@ =~= name@.subrange(start as int, p as int + 1));
        }
        p = p + 1;
    }
    proof {
        lemma_local_name_suffix(name@, start as int);
    }
    out
}

/// Looks up the last attribute with the given name.
fn attr_get(attrs: &Vec<(Vec<u8>, Vec<u8>)>, key: &Vec<u8>) -> (r: Option<Vec<u8>>)
    ensures
        match r {
            Some(v) => attr_lookup(crate::xml::attrs_deep(attrs@), key@) == Some(v@),
            None => attr_lookup(crate::xml::attrs_deep(attrs@), key@) is None,
        },
{
    let ghost full = crate::xml::attrs_deep(attrs@);
    let mut i: usize = attrs.len();
    proof {
        assert(full.take(i as int) =~= full);
    }
    while i > 0
        invariant
            i <= attrs@.len(),
            full == crate::xml::attrs_deep(attrs@),
            attr_lookup(full.take(i as int), key@) == attr_lookup(full, key@),
        decreases i,
    {
        i = i - 1;
        if bytes_is(&attrs[i].0, key) {
            let v = copy_bytes(&attrs[i].1);
            proof {
                assert(full.take(i as int + 1).last() == full[i as int]);
                assert(full[i as int].0 == key@);
                assert(attr_lookup(full.take(i as int + 1), key@) == Some(full[i as int].1));
            }
            return Some(v);
        }
        proof {
            assert(full.take(i as int + 1).last() == full[i as int]);
            assert(full[i as int].0 != key@);
            assert(full.take(i as int + 1).drop_last() =~= full.take(i as int));
        }
    }
    proof {
        assert(full.take(0) =~= Seq::<(Seq<u8>, Seq<u8>)>::empty());
    }
    None
}

/// Deep view of the identifier map.
pub open spec fn ids_deep(ids: Seq<(Vec<u8>, usize)>) -> Seq<(Seq<u8>, int)> {
    Seq::new(ids.len(), |i: int| (ids[i].0@, ids[i].1 as int))
}

/// Looks up the node index registered last under an identifier.
fn lookup_idx(ids: &Vec<(Vec<u8>, usize)>, id: &Vec<u8>) -> (r: Option<usize>)
    ensures
        match r {
            Some(ix) => lookup_id(ids_deep(ids@), id@) == Some(ix as int),
            None => lookup_id(ids_deep(ids@), id@) is None,
        },
{
    let ghost full = ids_deep(ids@);
    let mut i: usize = ids.len();
    proof {
        assert(full.take(i as int) =~= full);
    }
    while i > 0
        invariant
            i <= ids@.len(),
            full == ids_deep(ids@),
            lookup_id(full.take(i as int), id@) == lookup_id(full, id@),
        decreases i,
    {
        i = i - 1;
        if bytes_is(&ids[i].0, id) {
            proof {
                assert(full.take(i as int + 1).last() == full[i as int]);
                assert(full[i as int].0 == id@);
                assert(lookup_id(full.take(i as int + 1), id@) == Some(full[i as int].1));
            }
            return Some(ids[i].1);
        }
        proof {
            assert(full.take(i as int + 1).last() == full[i as int]);
            assert(full[i as int].0 != id@);
            assert(full.take(i as int + 1).drop_last() =~= full.take(i as int));
        }
    }
    proof {
        assert(full.take(0) =~= Seq::<(Seq<u8>, int)>::empty());
    }
    None
}

/// Relies on String::from_utf8_lossy: its result is a function of the bytes
/// alone (invalid UTF-8 runs become replacement characters), and on ASCII
/// input it decodes one identical character per byte.
#[verifier::external_body]
fn bytes_to_string(bytes: &Vec<u8>) -> (r: String)
    ensures
        r@ == lossy_chars(bytes@),
        ascii_wf(bytes@) ==> r@ == ascii_chars(bytes@),
{
    String::from_utf8_lossy(bytes.as_slice()).into_owned()
}



/// Applies one event to the builder, mutating the graph and identifier map
/// and returning the next machine state; exactly the `build_step` transition.
fn apply_event(
    state: ParserState,
    ev: &XmlEvent,
    graph: &mut Graph,
    ids: &mut Vec<(Vec<u8>, usize)>,
) -> (st2: ParserState)
    requires
        build_wf((BuildView { state: state@, graph: old(graph)@, ids: ids_deep(old(ids)@) })),
        old(graph)@.nodes.len() < usize::MAX,
        old(graph)@.edges.len() < usize::MAX,
    ensures
        (BuildView { state: st2@, graph: final(graph)@, ids: ids_deep(final(ids)@) }) == (build_step(
            (BuildView { state: state@, graph: old(graph)@, ids: ids_deep(old(ids)@) }),
            ev@,
        )),
{
    let ghost b0 = BuildView { state: state@, graph: graph@, ids: ids_deep(ids@) };
    match ev {
        XmlEvent::Open { name, attrs } => {
            let ln = local_name_of(name);
            if bytes_is(&ln, &lit_graph()) {
                match state {
                    ParserState::Outside => ParserState::InsideGraph,
                    other => other,
                }
            } else {
                match state {
                    ParserState::Outside => ParserState::Outside,
                    state => {
                        if bytes_is(&ln, &lit_node()) {
                            match attr_get(attrs, &lit_id()) {
                                Some(idv) => ParserState::InsideNode { id: idv, label: None },
                                None => ParserState::InsideGraph,
                            }
                        } else if bytes_is(&ln, &lit_data()) {
                            match state {
                                ParserState::InsideNode { id, label } => {
                                    let armed = match attr_get(attrs, &lit_key()) {
                                        Some(kv) => bytes_is(&kv, &lit_label()),
                                        None => false,
                                    };
                                    if armed {
                                        ParserState::ExpectingLabelText { id, label }
                                    } else {
                                        ParserState::InsideNode { id, label }
                                    }
                                },
                                other => other,
                            }
                        } else if bytes_is(&ln, &lit_edge()) {
                            apply_edge(attrs, graph, ids);
                            state
                        } else {
                            state
                        }
                    },
                }
            }
        },
        XmlEvent::Empty { name, attrs } => {
            let ln = local_name_of(name);
            match state {
                ParserState::Outside => ParserState::Outside,
                state => {
                    if bytes_is(&ln, &lit_node()) {
                        match attr_get(attrs, &lit_id()) {
                            Some(idv) => {
                                register_exec(graph, ids, idv, None);
                                state
                            },
                            None => state,
                        }
                    } else if bytes_is(&ln, &lit_edge()) {
                        apply_edge(attrs, graph, ids);
                        state
                    } else {
                        state
                    }
                },
            }
        },
        XmlEvent::Close { name } => {
            let ln = local_name_of(name);
            if bytes_is(&ln, &lit_graph()) {
                ParserState::Outside
            } else if bytes_is(&ln, &lit_node()) {
                match state {
                    ParserState::InsideNode { id, label } => {
                        register_exec(graph, ids, id, label);
                        ParserState::InsideGraph
                    },
                    ParserState::ExpectingLabelText { id, label } => {
                        register_exec(graph, ids, id, label);
                        ParserState::InsideGraph
                    },
                    other => other,
                }
            } else {
                state
            }
        },
        XmlEvent::Text { text } => {
            match state {
                ParserState::ExpectingLabelText { id, label: _ } => ParserState::InsideNode {
                    id,
                    label: Some(copy_bytes(text)),
                },
                other => other,
            }
        },
    }
}

/// Registers a pending node: converts its identifier and captured (or
/// defaulted) label to strings, appends the node, and maps the identifier to
/// the fresh index.
fn register_exec(
    graph: &mut Graph,
    ids: &mut Vec<(Vec<u8>, usize)>,
    id: Vec<u8>,
    label: Option<Vec<u8>>,
)
    requires
        old(graph)@.nodes.len() < usize::MAX,
    ensures
        final(graph)@ == (register_node(
            (BuildView { state: StateView::Outside, graph: old(graph)@, ids: ids_deep(old(ids)@) }),
            id@,
            (match label {
                Some(l) => l@,
                None => id@,
            }),
        ).graph),
        ids_deep(final(ids)@) == (register_node(
            (BuildView { state: StateView::Outside, graph: old(graph)@, ids: ids_deep(old(ids)@) }),
            id@,
            (match label {
                Some(l) => l@,
                None => id@,
            }),
        ).ids),
{
    let id_string = bytes_to_string(&id);
    let label_string = match &label {
        Some(l) => bytes_to_string(l),
        None => bytes_to_string(&id),
    };
    let idx = graph.add_node(id_string, label_string);
    let ghost ids_before = ids_deep(ids@);
    ids.push((id, idx));
    proof {
        assert(ids_deep(ids@) =~= ids_before.push(
            (ids@[ids@.len() - 1].0@, ids@[ids@.len() - 1].1 as int),
        ));
    }
}

/// Processes an edge element's attributes: adds the edge when both endpoint
/// identifiers resolve, and silently drops the dangling reference otherwise.
fn apply_edge(attrs: &Vec<(Vec<u8>, Vec<u8>)>, graph: &mut Graph, ids: &mut Vec<(Vec<u8>, usize)>)
    requires
        forall|i: int|
            0 <= i < ids_deep(old(ids)@).len() ==> 0 <= (#[trigger] ids_deep(old(ids)@)[i]).1
                < old(graph)@.nodes.len(),
        old(graph)@.edges.len() < usize::MAX,
    ensures
        final(graph)@ == (add_edge_step(
            (BuildView { state: StateView::Outside, graph: old(graph)@, ids: ids_deep(old(ids)@) }),
            crate::xml::attrs_deep(attrs@),
        ).graph),
        final(ids)@ == old(ids)@,
{
    let sv = attr_get(attrs, &lit_source());
    let tv = attr_get(attrs, &lit_target());
    match (sv, tv) {
        (Some(s), Some(t)) => {
            let si = lookup_idx(ids, &s);
            let ti = lookup_idx(ids, &t);
            match (si, ti) {
                (Some(si), Some(ti)) => {
                    proof {
                        lemma_lookup_in_range(ids_deep(ids@), s@, graph@.nodes.len() as int);
                        lemma_lookup_in_range(ids_deep(ids@), t@, graph@.nodes.len() as int);
                    }
                    graph.add_edge(si, ti, EdgeData { id: None });
                },
                _ => {},
            }
        },
        _ => {},
    }
}

/// Reconstructs the graph from an event stream by folding the state machine
/// over it, starting outside the graph element with an empty graph.
pub fn build_graph(events: &Vec<XmlEvent>) -> (g: Graph)
    ensures
        g@ == build_result(events_deep(events@)),
        g@.wf(),
{
    let ghost evs = events_deep(events@);
    let mut state = ParserState::Outside;
    let mut graph = Graph::new();
    let mut ids: Vec<(Vec<u8>, usize)> = Vec::new();
    let mut i: usize = 0;
    proof {
        assert(ids_deep(ids@) =~= Seq::<(Seq<u8>, int)>::empty());
        assert(graph@ =~= init_build().graph);
        assert(BuildView { state: state@, graph: graph@, ids: ids_deep(ids@) } =~= init_build());
    }
    while i < events.len()
        invariant
            i <= events@.len(),
            evs == events_deep(events@),
            (BuildView { state: state@, graph: graph@, ids: ids_deep(ids@) }) == (build_events(
                evs,
                i as int,
            )),
        decreases events@.len() - i,
    {
        proof {
            lemma_build_wf(evs, i as int);
            assert(evs[i as int] == events@[i as int]@);
        }
        let ghost b_before = BuildView { state: state@, graph: graph@, ids: ids_deep(ids@) };
        state = apply_event(state, &events[i], &mut graph, &mut ids);
        proof {
            assert(build_events(evs, i as int + 1) == build_step(b_before, evs[i as int]));
        }
        i = i + 1;
    }
    proof {
        lemma_build_wf(evs, evs.len() as int);
        assert(graph@ == build_result(evs));
    }
    graph
}

/// Parses a whole byte stream: tokenizes it and folds the state machine over
/// the events. Parsing succeeds exactly when the tokenization does, and then
/// yields exactly the state machine's result on the stream's event sequence;
/// a malformed stream yields `Malformed`.
pub fn load_graphml(input: &[u8]) -> (r: Result<Graph, LoadError>)
    ensures
        r is Ok <==> tokenize_spec(input@) is Some,
        r matches Ok(g) ==> g@ == (build_result(tokenize_spec(input@)->Some_0)) && g@.wf(),
        r matches Err(e) ==> e == LoadError::Malformed,
{
    match tokenize(input) {
        Ok(events) => {
            let g = build_graph(&events);
            Ok(g)
        },
        Err(e) => Err(e),
    }
}



/// An edge element never changes the node list: whether or not its endpoint
/// references resolve, the registered nodes (and so the node count) are
/// exactly what they were.
pub proof fn lemma_edge_event_preserves_nodes(
    b: BuildView,
    name: Seq<u8>,
    attrs: Seq<(Seq<u8>, Seq<u8>)>,
)
    requires
        local_name(name) == edge_name(),
    ensures
        build_step(b, EventView::Open { name, attrs }).graph.nodes == b.graph.nodes,
        build_step(b, EventView::Empty { name, attrs }).graph.nodes == b.graph.nodes,
{
}

/// An edge element whose source or target attribute is missing, or names an
/// identifier that has not been registered, leaves the whole builder state
/// unchanged: the dangling edge is excluded and nothing else happens.
pub proof fn lemma_dangling_edge_dropped(
    b: BuildView,
    name: Seq<u8>,
    attrs: Seq<(Seq<u8>, Seq<u8>)>,
)
    requires
        local_name(name) == edge_name(),
        attr_lookup(attrs, source_name()) is None || attr_lookup(attrs, target_name()) is None
            || (attr_lookup(attrs, source_name()) matches Some(s) && lookup_id(b.ids, s)
            is None) || (attr_lookup(attrs, target_name()) matches Some(t) && lookup_id(
            b.ids,
            t,
        ) is None),
    ensures
        build_step(b, EventView::Open { name, attrs }) == b,
        build_step(b, EventView::Empty { name, attrs }) == b,
{
}

/// A self-closing node element with an identifier and no label payload
/// registers the node with its label equal to its identifier, verbatim.
pub proof fn lemma_label_defaults_self_closing(
    b: BuildView,
    name: Seq<u8>,
    attrs: Seq<(Seq<u8>, Seq<u8>)>,
    id: Seq<u8>,
)
    requires
        local_name(name) == node_name(),
        attr_lookup(attrs, id_name()) == Some(id),
        !(b.state is Outside),
    ensures
        build_step(b, EventView::Empty { name, attrs }).graph.nodes == b.graph.nodes.push(
            (NodeView { id: lossy_chars(id), label: lossy_chars(id), x: 0, y: 0 }),
        ),
{
}

/// Closing a pending node that captured no label text registers it with its
/// label equal to its identifier, verbatim.
pub proof fn lemma_label_defaults_on_close(b: BuildView, name: Seq<u8>, id: Seq<u8>)
    requires
        local_name(name) == node_name(),
        b.state == (StateView::InsideNode { id, label: None::<Seq<u8>> }) || b.state == (
        StateView::ExpectingLabelText { id, label: None::<Seq<u8>> }),
    ensures
        build_step(b, EventView::Close { name }).graph.nodes == b.graph.nodes.push(
            (NodeView { id: lossy_chars(id), label: lossy_chars(id), x: 0, y: 0 }),
        ),
{
}



/// One declaration of a document body: a node (self-closing or open/close,
/// optionally labelled) or an edge between two identifiers.
pub ghost enum Decl {
    Node { id: Seq<u8>, label: Option<Seq<u8>>, self_closing: bool },
    Edge { source: Seq<u8>, target: Seq<u8> },
}

/// The markup events a single declaration produces.
pub open spec fn decl_events(d: Decl) -> Seq<EventView> {
    match d {
        Decl::Node { id, label, self_closing } => {
            if self_closing {
                seq![
                    EventView::Empty { name: node_name(), attrs: seq![(id_name(), id)] },
                ]
            } else {
                match label {
                    None => seq![
                        EventView::Open { name: node_name(), attrs: seq![(id_name(), id)] },
                        EventView::Close { name: node_name() },
                    ],
                    Some(l) => seq![
                        EventView::Open { name: node_name(), attrs: seq![(id_name(), id)] },
                        EventView::Open {
                            name: data_name(),
                            attrs: seq![(key_name(), label_name())],
                        },
                        EventView::Text { text: l },
                        EventView::Close { name: data_name() },
                        EventView::Close { name: node_name() },
                    ],
                }
            }
        },
        Decl::Edge { source, target } => seq![
            EventView::Empty {
                name: edge_name(),
                attrs: seq![(source_name(), source), (target_name(), target)],
            },
        ],
    }
}

/// The events of a whole declaration list, in order.
pub open spec fn decls_events(decls: Seq<Decl>) -> Seq<EventView>
    decreases decls.len(),
{
    if decls.len() == 0 {
        Seq::empty()
    } else {
        decls_events(decls.drop_last()) + decl_events(decls.last())
    }
}

/// A whole document: the graph element around the declarations.
pub open spec fn doc_events(decls: Seq<Decl>) -> Seq<EventView> {
    seq![EventView::Open { name: graph_name(), attrs: Seq::empty() }] + decls_events(decls)
        + seq![EventView::Close { name: graph_name() }]
}

/// The nodes a declaration list registers, with declared-or-defaulted labels.
pub open spec fn nodes_of(decls: Seq<Decl>) -> Seq<NodeView>
    decreases decls.len(),
{
    if decls.len() == 0 {
        Seq::empty()
    } else {
        nodes_of(decls.drop_last()) + (match decls.last() {
            Decl::Node { id, label, self_closing } => seq![
                NodeView {
                    id: lossy_chars(id),
                    label: lossy_chars(
                        match label {
                            Some(l) => l,
                            None => id,
                        },
                    ),
                    x: 0,
                    y: 0,
                },
            ],
            Decl::Edge { .. } => Seq::empty(),
        })
    }
}

/// How many nodes a declaration list declares.
pub open spec fn node_count(decls: Seq<Decl>) -> int
    decreases decls.len(),
{
    if decls.len() == 0 {
        0
    } else {
        node_count(decls.drop_last()) + (match decls.last() {
            Decl::Node { .. } => 1int,
            _ => 0int,
        })
    }
}

/// The registered node list has exactly one entry per node declaration.
pub proof fn lemma_nodes_of_count(decls: Seq<Decl>)
    ensures
        nodes_of(decls).len() == node_count(decls),
    decreases decls.len(),
{
    if decls.len() == 0 {
    } else {
        lemma_nodes_of_count(decls.drop_last());
    }
}

/// How many edges a declaration list declares.
pub open spec fn edge_count(decls: Seq<Decl>) -> int
    decreases decls.len(),
{
    if decls.len() == 0 {
        0
    } else {
        edge_count(decls.drop_last()) + (match decls.last() {
            Decl::Edge { .. } => 1int,
            _ => 0int,
        })
    }
}

/// Whether an identifier is declared by some node declaration.
pub open spec fn declares(decls: Seq<Decl>, id: Seq<u8>) -> bool {
    exists|i: int|
        0 <= i < decls.len() && ((#[trigger] decls[i]) matches Decl::Node { id: d, .. } && d
            == id)
}

/// A well-formed declaration list: every edge references identifiers
/// declared by earlier node declarations, and a self-closing node form
/// carries no label payload.
pub open spec fn wf_decls(decls: Seq<Decl>) -> bool {
    forall|i: int|
        0 <= i < decls.len() ==> match #[trigger] decls[i] {
            Decl::Edge { source, target } => declares(decls.take(i), source) && declares(
                decls.take(i),
                target,
            ),
            Decl::Node { label, self_closing, .. } => self_closing ==> label is None,
        }
}

/// Folding the state machine over an event list from a given start state.
pub open spec fn fold_from(b: BuildView, evs: Seq<EventView>) -> BuildView
    decreases evs.len(),
{
    if evs.len() == 0 {
        b
    } else {
        build_step(fold_from(b, evs.drop_last()), evs.last())
    }
}

proof fn lemma_fold_append(b: BuildView, evs1: Seq<EventView>, evs2: Seq<EventView>)
    ensures
        fold_from(b, evs1 + evs2) == fold_from(fold_from(b, evs1), evs2),
    decreases evs2.len(),
{
    if evs2.len() == 0 {
        assert(evs1 + evs2 =~= evs1);
    } else {
        lemma_fold_append(b, evs1, evs2.drop_last());
        assert((evs1 + evs2).drop_last() =~= evs1 + evs2.drop_last());
        assert((evs1 + evs2).last() == evs2.last());
    }
}

proof fn lemma_fold_one(b: BuildView, ev: EventView)
    ensures
        fold_from(b, seq![ev]) == build_step(b, ev),
{
    let evs1: Seq<EventView> = seq![ev];
    assert(evs1.len() == 1);
    assert(evs1.drop_last() =~= Seq::<EventView>::empty());
    assert(evs1.last() == ev);
    assert(fold_from(b, evs1.drop_last()) == b);
}

proof fn lemma_build_is_fold(evs: Seq<EventView>, k: int)
    requires
        0 <= k <= evs.len(),
    ensures
        build_events(evs, k) == fold_from(init_build(), evs.take(k)),
    decreases k,
{
    if k == 0 {
        assert(evs.take(0) =~= Seq::<EventView>::empty());
    } else {
        lemma_build_is_fold(evs, k - 1);
        assert(evs.take(k).drop_last() =~= evs.take(k - 1));
        assert(evs.take(k).last() == evs[k - 1]);
    }
}

proof fn lemma_local_name_whole(name: Seq<u8>)
    requires
        forall|j: int| 0 <= j < name.len() ==> #[trigger] name[j] != 58,
    ensures
        local_name(name) == name,
{
    lemma_local_name_suffix(name, 0);
    assert(name.subrange(0, name.len() as int) =~= name);
}

proof fn lemma_tag_names_local()
    ensures
        local_name(graph_name()) == graph_name(),
        local_name(node_name()) == node_name(),
        local_name(edge_name()) == edge_name(),
        local_name(data_name()) == data_name(),
        graph_name() != node_name(),
        graph_name() != edge_name(),
        graph_name() != data_name(),
        node_name() != edge_name(),
        node_name() != data_name(),
        edge_name() != data_name(),
        source_name() != target_name(),
{
    assert forall|j: int| 0 <= j < graph_name().len() implies #[trigger] graph_name()[j]
        != 58 by {
        if j == 0 {
        } else if j == 1 {
        } else if j == 2 {
        } else if j == 3 {
        } else {
            assert(j == 4);
        }
    }
    assert forall|j: int| 0 <= j < node_name().len() implies #[trigger] node_name()[j] != 58 by {
        if j == 0 {
        } else if j == 1 {
        } else if j == 2 {
        } else {
            assert(j == 3);
        }
    }
    assert forall|j: int| 0 <= j < edge_name().len() implies #[trigger] edge_name()[j] != 58 by {
        if j == 0 {
        } else if j == 1 {
        } else if j == 2 {
        } else {
            assert(j == 3);
        }
    }
    assert forall|j: int| 0 <= j < data_name().len() implies #[trigger] data_name()[j] != 58 by {
        if j == 0 {
        } else if j == 1 {
        } else if j == 2 {
        } else {
            assert(j == 3);
        }
    }
    lemma_local_name_whole(graph_name());
    lemma_local_name_whole(node_name());
    lemma_local_name_whole(edge_name());
    lemma_local_name_whole(data_name());
    assert(graph_name()[0] == 103 && node_name()[0] == 110 && edge_name()[0] == 101
        && data_name()[0] == 100 && source_name()[0] == 115 && target_name()[0] == 116);
    assert(graph_name().len() == 5 && node_name().len() == 4);
}

proof fn lemma_lookup_push(ids: Seq<(Seq<u8>, int)>, a: Seq<u8>, x: int, q: Seq<u8>)
    ensures
        lookup_id(ids.push((a, x)), q) == if q == a {
            Some(x)
        } else {
            lookup_id(ids, q)
        },
{
    assert(ids.push((a, x)).last() == (a, x));
    assert(ids.push((a, x)).drop_last() =~= ids);
}

/// The identifier map resolves everything the prefix declares.
pub open spec fn ids_cover(ids: Seq<(Seq<u8>, int)>, decls: Seq<Decl>) -> bool {
    forall|id: Seq<u8>| declares(decls, id) ==> #[trigger] lookup_id(ids, id) is Some
}

proof fn lemma_declares_snoc(decls: Seq<Decl>, d: Decl, id: Seq<u8>)
    ensures
        declares(decls.push(d), id) <==> (declares(decls, id) || (d matches Decl::Node {
            id: nid,
            ..
        } && nid == id)),
{
    if declares(decls.push(d), id) {
        let i = choose|i: int|
            0 <= i < decls.push(d).len() && ((#[trigger] decls.push(d)[i]) matches Decl::Node {
                id: dd,
                ..
            } && dd == id);
        if i < decls.len() {
            assert(decls[i] == decls.push(d)[i]);
        }
    }
    if declares(decls, id) {
        let i = choose|i: int|
            0 <= i < decls.len() && ((#[trigger] decls[i]) matches Decl::Node { id: dd, .. } && dd
                == id);
        assert(decls.push(d)[i] == decls[i]);
    }
    if (d matches Decl::Node { id: nid, .. } && nid == id) {
        assert(decls.push(d)[decls.len() as int] == d);
    }
}

/// Processing one well-formed declaration's events from a mid-document state
/// appends exactly its nodes and edges.
proof fn lemma_decl_fold(b: BuildView, d: Decl, decls: Seq<Decl>)
    requires
        b.state == StateView::InsideGraph,
        ids_cover(b.ids, decls),
        match d {
            Decl::Edge { source, target } => declares(decls, source) && declares(decls, target),
            Decl::Node { label, self_closing, .. } => self_closing ==> label is None,
        },
    ensures
        fold_from(b, decl_events(d)).state == StateView::InsideGraph,
        fold_from(b, decl_events(d)).graph.nodes == (b.graph.nodes + (match d {
            Decl::Node { id, label, .. } => seq![
                NodeView {
                    id: lossy_chars(id),
                    label: lossy_chars(
                        match label {
                            Some(l) => l,
                            None => id,
                        },
                    ),
                    x: 0,
                    y: 0,
                },
            ],
            Decl::Edge { .. } => Seq::<NodeView>::empty(),
        })),
        fold_from(b, decl_events(d)).graph.edges.len() == b.graph.edges.len() + (match d {
            Decl::Edge { .. } => 1int,
            _ => 0int,
        }),
        ids_cover(fold_from(b, decl_events(d)).ids, decls.push(d)),
{
    lemma_tag_names_local();
    let out = fold_from(b, decl_events(d));
    match d {
        Decl::Node { id, label, self_closing } => {
            let reg = NodeView {
                id: lossy_chars(id),
                label: lossy_chars(
                    match label {
                        Some(l) => l,
                        None => id,
                    },
                ),
                x: 0,
                y: 0,
            };
            if self_closing {
                let ev = EventView::Empty { name: node_name(), attrs: seq![(id_name(), id)] };
                assert(decl_events(d) =~= seq![ev]);
                lemma_fold_one(b, ev);
                let at: Seq<(Seq<u8>, Seq<u8>)> = seq![(id_name(), id)];
                assert(at.last() == (id_name(), id));
                assert(attr_lookup(at, id_name()) == Some(id));
                assert(out == register_node(b, id, id));
            } else {
                let e1 = EventView::Open { name: node_name(), attrs: seq![(id_name(), id)] };
                let at: Seq<(Seq<u8>, Seq<u8>)> = seq![(id_name(), id)];
                assert(at.last() == (id_name(), id));
                assert(attr_lookup(at, id_name()) == Some(id));
                let b1 = build_step(b, e1);
                assert(b1.state == (StateView::InsideNode { id, label: None::<Seq<u8>> }));
                match label {
                    None => {
                        let evs = decl_events(d);
                        assert(evs.len() == 2);
                        assert(evs.drop_last() =~= seq![e1]);
                        lemma_fold_one(b, e1);
                        assert(fold_from(b, evs.drop_last()) == b1);
                        assert(out == build_step(b1, EventView::Close { name: node_name() }));
                    },
                    Some(l) => {
                        let evs = decl_events(d);
                        assert(evs.len() == 5);
                        let e2 = EventView::Open {
                            name: data_name(),
                            attrs: seq![(key_name(), label_name())],
                        };
                        let kat: Seq<(Seq<u8>, Seq<u8>)> = seq![(key_name(), label_name())];
                        assert(kat.last() == (key_name(), label_name()));
                        assert(attr_lookup(kat, key_name()) == Some(label_name()));
                        let b2 = build_step(b1, e2);
                        assert(b2.state == (StateView::ExpectingLabelText {
                            id,
                            label: None::<Seq<u8>>,
                        }));
                        let b3 = build_step(b2, EventView::Text { text: l });
                        assert(b3.state == (StateView::InsideNode { id, label: Some(l) }));
                        let b4 = build_step(b3, EventView::Close { name: data_name() });
                        assert(b4 == b3);
                        let e3 = EventView::Text { text: l };
                        let e4 = EventView::Close { name: data_name() };
                        lemma_fold_one(b, e1);
                        assert(seq![e1, e2].drop_last() =~= seq![e1]);
                        assert(seq![e1, e2].last() == e2);
                        assert(fold_from(b, seq![e1, e2]) == b2);
                        assert(seq![e1, e2, e3].drop_last() =~= seq![e1, e2]);
                        assert(seq![e1, e2, e3].last() == e3);
                        assert(fold_from(b, seq![e1, e2, e3]) == b3);
                        assert(seq![e1, e2, e3, e4].drop_last() =~= seq![e1, e2, e3]);
                        assert(seq![e1, e2, e3, e4].last() == e4);
                        assert(fold_from(b, seq![e1, e2, e3, e4]) == b4);
                        assert(evs.drop_last() =~= seq![e1, e2, e3, e4]);
                        assert(evs.last() == EventView::Close { name: node_name() });
                        assert(fold_from(b, evs.drop_last()) == b4);
                        assert(out == build_step(b4, EventView::Close { name: node_name() }));
                    },
                }
            }
            assert(out.graph.nodes =~= b.graph.nodes + seq![reg]);
            assert forall|q: Seq<u8>| declares(decls.push(d), q) implies #[trigger] lookup_id(
                out.ids,
                q,
            ) is Some by {
                lemma_declares_snoc(decls, d, q);
                lemma_lookup_push(b.ids, id, b.graph.nodes.len() as int, q);
            }
        },
        Decl::Edge { source, target } => {
            let ev = EventView::Empty {
                name: edge_name(),
                attrs: seq![(source_name(), source), (target_name(), target)],
            };
            assert(decl_events(d) =~= seq![ev]);
            lemma_fold_one(b, ev);
            let at: Seq<(Seq<u8>, Seq<u8>)> = seq![
                (source_name(), source),
                (target_name(), target),
            ];
            assert(at.last() == (target_name(), target));
            assert(at.drop_last() =~= seq![(source_name(), source)]);
            let at1: Seq<(Seq<u8>, Seq<u8>)> = seq![(source_name(), source)];
            assert(at1.last() == (source_name(), source));
            assert(attr_lookup(at1, source_name()) == Some(source));
            assert(attr_lookup(at, target_name()) == Some(target));
            assert(attr_lookup(at, source_name()) == Some(source));
            assert(lookup_id(b.ids, source) is Some && lookup_id(b.ids, target) is Some);
            assert(out == add_edge_step(b, at));
            assert forall|q: Seq<u8>| declares(decls.push(d), q) implies #[trigger] lookup_id(
                out.ids,
                q,
            ) is Some by {
                lemma_declares_snoc(decls, d, q);
            }
        },
    }
}

proof fn lemma_decls_fold(b0: BuildView, decls: Seq<Decl>)
    requires
        b0.state == StateView::InsideGraph,
        ids_cover(b0.ids, Seq::<Decl>::empty()),
        wf_decls(decls),
    ensures
        fold_from(b0, decls_events(decls)).state == StateView::InsideGraph,
        fold_from(b0, decls_events(decls)).graph.nodes == b0.graph.nodes + nodes_of(decls),
        fold_from(b0, decls_events(decls)).graph.edges.len() == b0.graph.edges.len() + edge_count(
            decls,
        ),
        ids_cover(fold_from(b0, decls_events(decls)).ids, decls),
    decreases decls.len(),
{
    if decls.len() == 0 {
        assert(b0.graph.nodes + nodes_of(decls) =~= b0.graph.nodes);
        assert forall|id: Seq<u8>| declares(decls, id) implies #[trigger] lookup_id(
            b0.ids,
            id,
        ) is Some by {
            assert(!declares(decls, id));
        }
    } else {
        let prefix = decls.drop_last();
        let d = decls.last();
        assert(wf_decls(prefix)) by {
            assert forall|i: int| 0 <= i < prefix.len() implies match #[trigger] prefix[i] {
                Decl::Edge { source, target } => declares(prefix.take(i), source) && declares(
                    prefix.take(i),
                    target,
                ),
                Decl::Node { label, self_closing, .. } => self_closing ==> label is None,
            } by {
                assert(prefix[i] == decls[i]);
                assert(prefix.take(i) =~= decls.take(i));
            }
        }
        lemma_decls_fold(b0, prefix);
        let mid = fold_from(b0, decls_events(prefix));
        assert(decls[decls.len() - 1] == d);
        assert(match d {
            Decl::Edge { source, target } => declares(prefix, source) && declares(prefix, target),
            Decl::Node { label, self_closing, .. } => self_closing ==> label is None,
        }) by {
            assert(decls.take(decls.len() - 1) =~= prefix);
        }
        lemma_decl_fold(mid, d, prefix);
        lemma_fold_append(b0, decls_events(prefix), decl_events(d));
        assert(prefix.push(d) =~= decls);
        assert(fold_from(b0, decls_events(decls)).graph.nodes =~= b0.graph.nodes + nodes_of(
            decls,
        ));
    }
}

/// Parser round trip: a document declaring nodes (in any mix of self-closing
/// and open/close forms, labelled or not) and edges that reference only
/// already-declared identifiers parses to a graph with exactly those nodes,
/// in order, labels declared or defaulted to the identifier, and exactly
/// that many edges.
pub proof fn lemma_parser_round_trip(decls: Seq<Decl>)
    requires
        wf_decls(decls),
    ensures
        build_result(doc_events(decls)).nodes == nodes_of(decls),
        build_result(doc_events(decls)).edges.len() == edge_count(decls),
{
    lemma_tag_names_local();
    let og = EventView::Open { name: graph_name(), attrs: Seq::<(Seq<u8>, Seq<u8>)>::empty() };
    let cg = EventView::Close { name: graph_name() };
    let evs = doc_events(decls);
    lemma_build_is_fold(evs, evs.len() as int);
    assert(evs.take(evs.len() as int) =~= evs);
    let b1 = build_step(init_build(), og);
    assert(b1.state == StateView::InsideGraph);
    lemma_fold_one(init_build(), og);
    assert(fold_from(init_build(), seq![og]) == b1);
    assert forall|id: Seq<u8>| declares(Seq::<Decl>::empty(), id) implies #[trigger] lookup_id(
        b1.ids,
        id,
    ) is Some by {
        assert(!declares(Seq::<Decl>::empty(), id));
    }
    lemma_decls_fold(b1, decls);
    let mid = fold_from(b1, decls_events(decls));
    lemma_fold_append(init_build(), seq![og], decls_events(decls));
    assert(seq![og] + decls_events(decls) =~= (seq![og] + decls_events(decls)));
    lemma_fold_append(init_build(), seq![og] + decls_events(decls), seq![cg]);
    assert((seq![og] + decls_events(decls)) + seq![cg] =~= evs);
    lemma_fold_one(mid, cg);
    assert(fold_from(mid, seq![cg]) == build_step(mid, cg));
    let fin = build_step(mid, cg);
    assert(fin.graph.nodes =~= nodes_of(decls));
    assert(build_result(evs) == fin.graph);
}

} // verus!
