//! Builder for constructing a [`RouteGraph`].
//!
//! The builder uses a stack-based approach: [`push_node`](RouteGraphBuilder::push_node)
//! creates a child of the current context, [`pop_node`](RouteGraphBuilder::pop_node)
//! returns to the previous level.
use vstd::prelude::*;

use crate::model::{
    client_count, edges_problems, empty_metadata, first_client, in_edges, lemma_first_client,
    lemma_in_edges_none, lemma_in_edges_same, out_edges,
    opt_condition, ConditionView, EdgeCondition, EdgeView, GraphView, MetadataView, NodeId,
    NodeKind, NodeView, Protocol, RouteGraph, TlsConfig, auto_tls,
};
use crate::text::string_of;

verus! {

/// The mathematical content of a [`RouteGraphBuilder`]: the graph so far,
/// the stack of context nodes, and the edge made by the last push.
pub struct BuilderView {
    pub graph: GraphView,
    pub stack: Seq<u32>,
    pub last_edge: Option<usize>,
}

impl BuilderView {
    /// A builder with nothing in it.
    pub open spec fn empty() -> BuilderView {
        BuilderView { graph: GraphView::empty(), stack: Seq::empty(), last_edge: None }
    }

    /// The current context node: the top of the stack.
    pub open spec fn current(self) -> Option<u32> {
        if self.stack.len() > 0 {
            Some(self.stack.last())
        } else {
            None
        }
    }

    /// Room for one more node and one more edge.
    pub open spec fn has_room(self) -> bool {
        self.graph.nodes.len() < u32::MAX && self.graph.edges.len() < usize::MAX
    }

    /// A new node, child of the current context, becomes the context.
    pub open spec fn push(self, kind: NodeKind, label: Seq<char>) -> BuilderView {
        let id = self.graph.nodes.len() as u32;
        let g = self.graph.add_node(kind, label, empty_metadata());
        match self.current() {
            Some(parent) => BuilderView {
                graph: g.add_edge(parent, id, None),
                stack: self.stack.push(id),
                last_edge: Some(self.graph.edges.len() as usize),
            },
            None => BuilderView { graph: g, stack: self.stack.push(id), last_edge: None },
        }
    }

    /// Returns to the parent context (there is none to leave on an empty stack).
    pub open spec fn pop(self) -> BuilderView {
        BuilderView {
            stack: if self.stack.len() > 0 {
                self.stack.drop_last()
            } else {
                self.stack
            },
            last_edge: None,
            ..self
        }
    }

    /// Replaces the metadata of the current context node (no effect without one).
    pub open spec fn with_current_metadata(self, f: spec_fn(MetadataView) -> MetadataView) -> BuilderView {
        match self.current() {
            Some(id) => BuilderView {
                graph: self.graph.set_metadata(id as int, f(self.graph.nodes[id as int].metadata)),
                ..self
            },
            None => self,
        }
    }

    pub open spec fn set_port(self, port: u16) -> BuilderView {
        self.with_current_metadata(|m: MetadataView| MetadataView { port: Some(port), ..m })
    }

    pub open spec fn set_protocol(self, protocol: Protocol) -> BuilderView {
        self.with_current_metadata(|m: MetadataView| MetadataView { protocol: Some(protocol), ..m })
    }

    pub open spec fn set_tls_auto(self) -> BuilderView {
        self.with_current_metadata(|m: MetadataView| MetadataView { tls: Some(auto_tls()), ..m })
    }

    pub open spec fn add_custom(self, key: Seq<char>, value: Seq<char>) -> BuilderView {
        self.with_current_metadata(
            |m: MetadataView| MetadataView { custom: m.custom.push((key, value)), ..m },
        )
    }

    /// Sets the condition of the edge made by the last push (no effect without one).
    pub open spec fn set_condition(self, c: ConditionView) -> BuilderView {
        match self.last_edge {
            Some(i) => BuilderView { graph: self.graph.set_condition(i as int, c), ..self },
            None => self,
        }
    }

    /// Adds an edge between two existing nodes; the context is unchanged.
    pub open spec fn connect(self, source: u32, target: u32, c: Option<ConditionView>) -> BuilderView {
        BuilderView { graph: self.graph.add_edge(source, target, c), ..self }
    }

    /// The shape that pushing and popping alone produce from one `Client`
    /// root: edges go from earlier to later nodes, never into a `Client`,
    /// and there is at most one `Client`.
    pub open spec fn rooted_tree(self) -> bool {
        &&& self.graph.inv()
        &&& forall|k: int| 0 <= k < self.stack.len() ==> #[trigger] self.stack[k] < self.graph.nodes.len()
        &&& forall|e: int|
            0 <= e < self.graph.edges.len() ==> (#[trigger] self.graph.edges[e]).source
                < self.graph.edges[e].target
        &&& forall|e: int|
            0 <= e < self.graph.edges.len() ==> self.graph.nodes[(
            #[trigger] self.graph.edges[e]).target as int].kind != NodeKind::Client
        &&& client_count(self.graph.nodes) <= 1
    }
}

// ---------------------------------------------------------------------------
// Laws of the builder
// ---------------------------------------------------------------------------

/// Pushing a node and popping it again returns to the same context, with the
/// new node kept in the graph.
pub proof fn lemma_push_pop_restores_context(b: BuilderView, kind: NodeKind, label: Seq<char>)
    ensures
        b.push(kind, label).pop().stack == b.stack,
        b.push(kind, label).pop().current() == b.current(),
        b.push(kind, label).pop().graph.nodes.len() == b.graph.nodes.len() + 1,
        b.push(kind, label).pop().graph == b.push(kind, label).graph,
        b.push(kind, label).pop().last_edge is None,
{
    assert(b.push(kind, label).pop().stack =~= b.stack);
}

/// A push adds exactly one node, with the next identifier, the kind and label
/// asked for and empty metadata, and makes it the context; it adds one edge,
/// from the context to the new node and without a condition, exactly when
/// there is a context; the earlier nodes and edges stay as they were.
pub proof fn lemma_push_counts(b: BuilderView, kind: NodeKind, label: Seq<char>)
    ensures
        b.push(kind, label).graph.nodes.len() == b.graph.nodes.len() + 1,
        b.push(kind, label).graph.nodes.last() == (NodeView {
            id: b.graph.nodes.len() as u32,
            kind,
            label,
            metadata: empty_metadata(),
        }),
        b.push(kind, label).graph.nodes.drop_last() == b.graph.nodes,
        b.push(kind, label).graph.edges == match b.current() {
            Some(q) => b.graph.edges.push(
                EdgeView { source: q, target: b.graph.nodes.len() as u32, condition: None },
            ),
            None => b.graph.edges,
        },
        b.push(kind, label).current() == Some(b.graph.nodes.len() as u32),
        b.push(kind, label).last_edge == match b.current() {
            Some(_) => Some(b.graph.edges.len() as usize),
            None => None,
        },
{
    assert(b.push(kind, label).graph.nodes.drop_last() =~= b.graph.nodes);
}

/// A node just pushed below a context, in a graph whose edges join existing
/// nodes, has that context as its only parent.
pub proof fn lemma_push_parent(b: BuilderView, kind: NodeKind, label: Seq<char>)
    requires
        b.graph.inv(),
        b.graph.nodes.len() < u32::MAX,
        b.current() is Some,
    ensures
        in_edges(b.push(kind, label).graph.edges, b.graph.nodes.len() as u32) == seq![
            b.graph.edges.len() as usize,
        ],
        b.push(kind, label).graph.edges[b.graph.edges.len() as int].source == b.current()->0,
{
    let n = b.graph.nodes.len() as u32;
    let r = b.push(kind, label);
    lemma_in_edges_none(b.graph.edges, n);
    assert(r.graph.edges.drop_last() =~= b.graph.edges);
    assert(in_edges(r.graph.edges, n) =~= seq![b.graph.edges.len() as usize]);
}

/// One call on a builder: a push, a pop, a condition on the last pushed edge,
/// or a step that leaves the context alone.
pub enum BuildOp {
    Push(NodeKind, Seq<char>),
    Pop,
    Condition(ConditionView),
    Step(ContextOp),
}

/// The builder after one call.
pub open spec fn apply_build_op(b: BuilderView, op: BuildOp) -> BuilderView {
    match op {
        BuildOp::Push(k, l) => b.push(k, l),
        BuildOp::Pop => b.pop(),
        BuildOp::Condition(c) => b.set_condition(c),
        BuildOp::Step(o) => apply_op(b, o),
    }
}

/// The builder after a run of calls, in order.
pub open spec fn apply_build_ops(b: BuilderView, ops: Seq<BuildOp>) -> BuilderView
    decreases ops.len(),
{
    if ops.len() == 0 {
        b
    } else {
        apply_build_op(apply_build_ops(b, ops.drop_last()), ops.last())
    }
}

/// Whether a call connects an edge into node `n`.
pub open spec fn connects_into(op: BuildOp, n: u32) -> bool {
    match op {
        BuildOp::Step(ContextOp::Connect(_, t, _)) => t == n,
        _ => false,
    }
}

/// The shape that [`lemma_build_ops_keep_parent`] keeps: edge `k`, from
/// `p`, is the only edge into `n`, and the context nodes exist.
pub open spec fn only_parent_at(r: BuilderView, n: u32, k: int, p: u32) -> bool {
    &&& in_edges(r.graph.edges, n) == seq![k as usize]
    &&& 0 <= k < r.graph.edges.len()
    &&& r.graph.edges[k].source == p
    &&& n < r.graph.nodes.len()
    &&& forall|i: int| 0 <= i < r.stack.len() ==> #[trigger] r.stack[i] < r.graph.nodes.len()
}

/// Calls that connect nothing into `n` keep its only parent.
pub proof fn lemma_build_ops_keep_parent(r0: BuilderView, ops: Seq<BuildOp>, n: u32, k: int, p: u32)
    requires
        only_parent_at(r0, n, k, p),
        r0.graph.nodes.len() + ops.len() < u32::MAX,
        forall|i: int| 0 <= i < ops.len() ==> !connects_into(#[trigger] ops[i], n),
    ensures
        only_parent_at(apply_build_ops(r0, ops), n, k, p),
        apply_build_ops(r0, ops).graph.nodes.len() <= r0.graph.nodes.len() + ops.len(),
    decreases ops.len(),
{
    if ops.len() > 0 {
        let init = ops.drop_last();
        assert forall|i: int| 0 <= i < init.len() implies !connects_into(#[trigger] init[i], n) by {
            assert(init[i] == ops[i]);
        }
        lemma_build_ops_keep_parent(r0, init, n, k, p);
        let r = apply_build_ops(r0, init);
        let op = ops.last();
        assert(!connects_into(ops[ops.len() - 1], n));
        let r2 = apply_build_op(r, op);
        match op {
            BuildOp::Push(kind, label) => {
                let m = r.graph.nodes.len();
                assert(r2.graph.nodes.len() == m + 1);
                if r.current() is Some {
                    assert(r2.graph.edges.drop_last() =~= r.graph.edges);
                    assert(r2.graph.edges.last().target == m as u32);
                }
                assert forall|i: int| 0 <= i < r2.stack.len() implies #[trigger] r2.stack[i] < r2.graph.nodes.len() by {
                    if i < r.stack.len() {
                        assert(r2.stack[i] == r.stack[i]);
                    }
                }
            },
            BuildOp::Pop => {
                if r.stack.len() > 0 {
                    assert forall|i: int| 0 <= i < r2.stack.len() implies #[trigger] r2.stack[i]
                        < r2.graph.nodes.len() by {
                        assert(r2.stack[i] == r.stack[i]);
                    }
                }
            },
            BuildOp::Condition(c) => {
                assert forall|e: int| 0 <= e < r.graph.edges.len() implies (#[trigger] r.graph.edges[e]).target
                    == r2.graph.edges[e].target by {}
                lemma_in_edges_same(r.graph.edges, r2.graph.edges, n);
            },
            BuildOp::Step(o) => {
                match o {
                    ContextOp::Connect(s0, t0, c0) => {
                        assert(r2.graph.edges.drop_last() =~= r.graph.edges);
                    },
                    _ => {
                        if r.current() is Some {
                            assert(r.stack.last() == r.stack[r.stack.len() - 1]);
                        }
                    },
                }
            },
        }
    }
}

/// A node pushed below context `p` has `p` as its only parent for as long as
/// no connection is made into it, whatever other calls follow.
pub proof fn lemma_pushed_node_parent(b: BuilderView, kind: NodeKind, label: Seq<char>, ops: Seq<BuildOp>)
    requires
        b.graph.inv(),
        b.current() is Some,
        forall|i: int| 0 <= i < b.stack.len() ==> #[trigger] b.stack[i] < b.graph.nodes.len(),
        b.graph.nodes.len() + 1 + ops.len() < u32::MAX,
        forall|i: int| 0 <= i < ops.len() ==> !connects_into(#[trigger] ops[i], b.graph.nodes.len() as u32),
    ensures
        in_edges(apply_build_ops(b.push(kind, label), ops).graph.edges, b.graph.nodes.len() as u32)
            == seq![b.graph.edges.len() as usize],
        apply_build_ops(b.push(kind, label), ops).graph.edges[b.graph.edges.len() as int].source
            == b.current()->0,
{
    lemma_push_parent(b, kind, label);
    let r0 = b.push(kind, label);
    let n = b.graph.nodes.len() as u32;
    assert forall|i: int| 0 <= i < r0.stack.len() implies #[trigger] r0.stack[i] < r0.graph.nodes.len() by {
        if i < b.stack.len() {
            assert(r0.stack[i] == b.stack[i]);
        }
    }
    assert((b.graph.edges.len() as usize) as int == b.graph.edges.len());
    lemma_build_ops_keep_parent(r0, ops, n, b.graph.edges.len() as int, b.current()->0);
}

/// A new edge between existing nodes is listed last among the edges leaving
/// its source and last among those entering its target; the nodes, the
/// context and the edge that a later condition goes to stay as they were.
pub proof fn lemma_connect(b: BuilderView, source: u32, target: u32, c: Option<ConditionView>)
    ensures
        b.connect(source, target, c).graph.edges == b.graph.edges.push(
            EdgeView { source, target, condition: c },
        ),
        b.connect(source, target, c).graph.nodes == b.graph.nodes,
        b.connect(source, target, c).stack == b.stack,
        b.connect(source, target, c).last_edge == b.last_edge,
        out_edges(b.connect(source, target, c).graph.edges, source) == out_edges(b.graph.edges, source).push(
            b.graph.edges.len() as usize,
        ),
        in_edges(b.connect(source, target, c).graph.edges, target) == in_edges(b.graph.edges, target).push(
            b.graph.edges.len() as usize,
        ),
{
    let r = b.connect(source, target, c);
    assert(r.graph.edges.drop_last() =~= b.graph.edges);
}

/// The steps that leave the context and the last pushed edge alone: new
/// connections and changes to the context node's metadata.
pub enum ContextOp {
    Connect(u32, u32, Option<ConditionView>),
    Port(u16),
    Proto(Protocol),
    TlsAuto,
    Custom(Seq<char>, Seq<char>),
}

/// The builder after one such step.
pub open spec fn apply_op(b: BuilderView, op: ContextOp) -> BuilderView {
    match op {
        ContextOp::Connect(s, t, c) => b.connect(s, t, c),
        ContextOp::Port(p) => b.set_port(p),
        ContextOp::Proto(p) => b.set_protocol(p),
        ContextOp::TlsAuto => b.set_tls_auto(),
        ContextOp::Custom(k, v) => b.add_custom(k, v),
    }
}

/// The builder after a run of such steps, in order.
pub open spec fn apply_ops(b: BuilderView, ops: Seq<ContextOp>) -> BuilderView
    decreases ops.len(),
{
    if ops.len() == 0 {
        b
    } else {
        apply_op(apply_ops(b, ops.drop_last()), ops.last())
    }
}

/// Connections and metadata changes keep the context, the last pushed edge
/// and the edges made so far (they only add edges after them).
pub proof fn lemma_apply_ops(b: BuilderView, ops: Seq<ContextOp>)
    ensures
        apply_ops(b, ops).stack == b.stack,
        apply_ops(b, ops).last_edge == b.last_edge,
        apply_ops(b, ops).graph.edges.len() >= b.graph.edges.len(),
        forall|e: int| 0 <= e < b.graph.edges.len() ==> #[trigger] apply_ops(b, ops).graph.edges[e] == b.graph.edges[e],
    decreases ops.len(),
{
    if ops.len() > 0 {
        lemma_apply_ops(b, ops.drop_last());
    }
}

/// A condition set after a push goes to the edge that the push made, however
/// many connections and metadata changes came between, and changes nothing
/// else; after a pop, or a push without a context, it changes nothing.
pub proof fn lemma_condition_goes_to_last_push(
    b: BuilderView,
    kind: NodeKind,
    label: Seq<char>,
    ops: Seq<ContextOp>,
    c: ConditionView,
)
    requires
        b.graph.edges.len() < usize::MAX,
    ensures
        b.current() is Some ==> {
            let r = apply_ops(b.push(kind, label), ops);
            let i = b.graph.edges.len() as int;
            &&& r.set_condition(c).graph.edges == r.graph.edges.update(
                i,
                EdgeView { condition: Some(c), ..r.graph.edges[i] },
            )
            &&& r.set_condition(c).graph.nodes == r.graph.nodes
            &&& r.set_condition(c).stack == r.stack
        },
        b.current() is None ==> apply_ops(b.push(kind, label), ops).set_condition(c) == apply_ops(
            b.push(kind, label),
            ops,
        ),
        apply_ops(b.pop(), ops).set_condition(c) == apply_ops(b.pop(), ops),
{
    lemma_push_counts(b, kind, label);
    lemma_apply_ops(b.push(kind, label), ops);
    lemma_apply_ops(b.pop(), ops);
    if b.current() is Some {
        let r = apply_ops(b.push(kind, label), ops);
        assert(r.last_edge == Some(b.graph.edges.len() as usize));
        assert(r.graph.edges.len() > b.graph.edges.len());
    }
}

proof fn lemma_client_count_push(nodes: Seq<NodeView>, n: NodeView)
    ensures
        client_count(nodes.push(n)) == client_count(nodes) + if n.kind == NodeKind::Client {
            1nat
        } else {
            0nat
        },
{
    assert(nodes.push(n).drop_last() =~= nodes);
}

proof fn lemma_client_count_update(nodes: Seq<NodeView>, i: int, n: NodeView)
    requires
        0 <= i < nodes.len(),
        n.kind == nodes[i].kind,
    ensures
        client_count(nodes.update(i, n)) == client_count(nodes),
        first_client(nodes.update(i, n)) == first_client(nodes),
    decreases nodes.len(),
{
    let u = nodes.update(i, n);
    if i < nodes.len() - 1 {
        assert(u.drop_last() =~= nodes.drop_last().update(i, n));
        lemma_client_count_update(nodes.drop_last(), i, n);
    } else {
        assert(u.drop_last() =~= nodes.drop_last());
    }
}

/// Pushing keeps the rooted-tree shape, provided a `Client` is only ever
/// pushed first, onto an empty stack.
pub proof fn lemma_push_keeps_rooted_tree(b: BuilderView, kind: NodeKind, label: Seq<char>)
    requires
        b.rooted_tree(),
        b.has_room(),
        kind == NodeKind::Client ==> b.stack.len() == 0 && client_count(b.graph.nodes) == 0,
    ensures
        b.push(kind, label).rooted_tree(),
{
    let r = b.push(kind, label);
    let id = b.graph.nodes.len() as u32;
    let nv = NodeView { id, kind, label, metadata: empty_metadata() };
    lemma_client_count_push(b.graph.nodes, nv);
    assert(r.graph.nodes == b.graph.nodes.push(nv));
    assert forall|i: int| 0 <= i < r.graph.nodes.len() implies (#[trigger] r.graph.nodes[i]).id == i by {
        if i < b.graph.nodes.len() {
            assert(r.graph.nodes[i] == b.graph.nodes[i]);
        }
    }
    assert forall|e: int| 0 <= e < r.graph.edges.len() implies (#[trigger] r.graph.edges[e]).source
        < r.graph.nodes.len() && r.graph.edges[e].target < r.graph.nodes.len()
        && r.graph.edges[e].source < r.graph.edges[e].target
        && r.graph.nodes[r.graph.edges[e].target as int].kind != NodeKind::Client by {
        if e < b.graph.edges.len() {
            assert(r.graph.edges[e] == b.graph.edges[e]);
            assert(r.graph.nodes[b.graph.edges[e].target as int] == b.graph.nodes[b.graph.edges[e].target as int]);
        } else {
            assert(b.stack.len() > 0);
            assert(b.stack[b.stack.len() - 1] < b.graph.nodes.len());
        }
    }
    assert forall|k: int| 0 <= k < r.stack.len() implies #[trigger] r.stack[k] < r.graph.nodes.len() by {
        if k < b.stack.len() {
            assert(r.stack[k] == b.stack[k]);
        }
    }
}

/// Popping, setting metadata and setting a condition keep the rooted-tree shape.
pub proof fn lemma_context_changes_keep_rooted_tree(b: BuilderView, c: ConditionView, port: u16, p: Protocol, key: Seq<char>, value: Seq<char>)
    requires
        b.rooted_tree(),
    ensures
        b.stack.len() > 0 ==> b.pop().rooted_tree(),
        b.set_port(port).rooted_tree(),
        b.set_protocol(p).rooted_tree(),
        b.set_tls_auto().rooted_tree(),
        b.add_custom(key, value).rooted_tree(),
        b.set_condition(c).rooted_tree(),
{
    if b.stack.len() > 0 {
        let r = b.pop();
        assert forall|k: int| 0 <= k < r.stack.len() implies #[trigger] r.stack[k] < r.graph.nodes.len() by {
            assert(r.stack[k] == b.stack[k]);
        }
    }
    lemma_metadata_change_keeps_rooted_tree(b, |m: MetadataView| MetadataView { port: Some(port), ..m });
    lemma_metadata_change_keeps_rooted_tree(b, |m: MetadataView| MetadataView { protocol: Some(p), ..m });
    lemma_metadata_change_keeps_rooted_tree(b, |m: MetadataView| MetadataView { tls: Some(auto_tls()), ..m });
    lemma_metadata_change_keeps_rooted_tree(
        b,
        |m: MetadataView| MetadataView { custom: m.custom.push((key, value)), ..m },
    );
    match b.last_edge {
        Some(i) => {
            let r = b.set_condition(c);
            if 0 <= i < b.graph.edges.len() {
                assert forall|e: int| 0 <= e < r.graph.edges.len() implies (#[trigger] r.graph.edges[e]).source
                    == b.graph.edges[e].source && r.graph.edges[e].target == b.graph.edges[e].target by {}
            }
        },
        None => {},
    }
}

proof fn lemma_metadata_change_keeps_rooted_tree(b: BuilderView, f: spec_fn(MetadataView) -> MetadataView)
    requires
        b.rooted_tree(),
    ensures
        b.with_current_metadata(f).rooted_tree(),
{
    match b.current() {
        Some(id) => {
            let r = b.with_current_metadata(f);
            assert(b.stack[b.stack.len() - 1] < b.graph.nodes.len());
            let i = id as int;
            let n = NodeView { metadata: f(b.graph.nodes[i].metadata), ..b.graph.nodes[i] };
            assert(r.graph.nodes == b.graph.nodes.update(i, n));
            lemma_client_count_update(b.graph.nodes, i, n);
            assert forall|j: int| 0 <= j < r.graph.nodes.len() implies (#[trigger] r.graph.nodes[j]).id == j
                && r.graph.nodes[j].kind == b.graph.nodes[j].kind by {
                if j != i {
                    assert(r.graph.nodes[j] == b.graph.nodes[j]);
                }
            }
            assert forall|e: int| 0 <= e < r.graph.edges.len() implies r.graph.nodes[(
            #[trigger] r.graph.edges[e]).target as int].kind != NodeKind::Client by {
                assert(r.graph.edges[e] == b.graph.edges[e]);
                assert(r.graph.nodes[b.graph.edges[e].target as int].kind == b.graph.nodes[b.graph.edges[e].target as int].kind);
            }
        },
        None => {},
    }
}

proof fn lemma_edges_problems_none(edges: Seq<EdgeView>, n: nat)
    requires
        forall|e: int|
            0 <= e < edges.len() ==> (#[trigger] edges[e]).source < n && edges[e].target < n
                && edges[e].source != edges[e].target,
    ensures
        edges_problems(edges, n) == Seq::<Seq<char>>::empty(),
    decreases edges.len(),
{
    if edges.len() > 0 {
        lemma_edges_problems_none(edges.drop_last(), n);
        assert(edges.last() == edges[edges.len() - 1]);
    }
}

/// A graph of the rooted-tree shape passes validation: no problem is reported.
pub proof fn lemma_rooted_tree_is_valid(b: BuilderView)
    requires
        b.rooted_tree(),
    ensures
        b.graph.problems() == Seq::<Seq<char>>::empty(),
{
    let g = b.graph;
    lemma_edges_problems_none(g.edges, g.nodes.len());
    lemma_first_client(g.nodes);
    match first_client(g.nodes) {
        Some(c) => {
            crate::model::lemma_in_edges(g.edges, c as u32);
            if in_edges(g.edges, c as u32).len() > 0 {
                let e = in_edges(g.edges, c as u32)[0] as int;
                assert(g.edges[e].target == c as u32);
                assert(g.nodes[g.edges[e].target as int].kind != NodeKind::Client);
            }
        },
        None => {},
    }
    assert(g.problems() =~= Seq::<Seq<char>>::empty());
}

// ---------------------------------------------------------------------------
// The builder
// ---------------------------------------------------------------------------

/// Stack-based builder for [`RouteGraph`].
///
/// Each call to [`push_node`](Self::push_node) creates a new node as a child
/// of the current context node and makes it the new context.
/// Call [`pop_node`](Self::pop_node) to return to the parent context.
pub struct RouteGraphBuilder {
    graph: RouteGraph,
    stack: Vec<NodeId>,
    /// Index of the last edge created by `push_node`. Used for O(1) condition setting.
    last_edge_idx: Option<usize>,
}

impl View for RouteGraphBuilder {
    type V = BuilderView;

    closed spec fn view(&self) -> BuilderView {
        BuilderView {
            graph: self.graph@,
            stack: self.stack@.map_values(|id: NodeId| id@),
            last_edge: self.last_edge_idx,
        }
    }
}

impl RouteGraphBuilder {
    /// Well-formedness: a well-formed graph and a stack of existing nodes.
    pub closed spec fn wf(&self) -> bool {
        &&& self.graph.wf()
        &&& forall|k: int| 0 <= k < self@.stack.len() ==> #[trigger] self@.stack[k] < self@.graph.nodes.len()
    }

    /// A well-formed builder holds a graph with its basic integrity.
    pub proof fn lemma_wf(&self)
        requires
            self.wf(),
        ensures
            self@.graph.inv(),
            forall|k: int| 0 <= k < self@.stack.len() ==> #[trigger] self@.stack[k] < self@.graph.nodes.len(),
    {
        self.graph.lemma_wf_inv();
    }

    /// Creates a new empty builder.
    pub fn new() -> (r: Self)
        ensures
            r.wf(),
            r@ == BuilderView::empty(),
    {
        let r = RouteGraphBuilder { graph: RouteGraph::new(), stack: Vec::new(), last_edge_idx: None };
        assert(r@.stack =~= Seq::empty());
        r
    }

    /// Returns the [`NodeId`] of the current context (top of the stack).
    pub fn current(&self) -> (r: Option<NodeId>)
        ensures
            r matches Some(id) ==> self@.current() == Some(id@),
            r is None ==> self@.current() is None,
    {
        let n = self.stack.len();
        if n > 0 {
            Some(self.stack[n - 1])
        } else {
            None
        }
    }

    // -----------------------------------------------------------------------
    // &mut API — primary interface (parsers and imperative code)
    // -----------------------------------------------------------------------
    /// Pushes a new node as a child of the current context.
    ///
    /// Returns the [`NodeId`] of the newly created node.
    pub fn push_node(&mut self, kind: NodeKind, label: &str) -> (r: NodeId)
        requires
            old(self).wf(),
            old(self)@.has_room(),
        ensures
            final(self).wf(),
            final(self)@ == old(self)@.push(kind, label@),
            r@ == old(self)@.graph.nodes.len(),
    {
        proof {
            self.graph.lemma_wf_inv();
        }
        let ghost old_stack = self@.stack;
        let parent = self.current();
        let id = self.graph.add_node(kind, string_of(label), crate::model::Metadata::new());
        match parent {
            Some(p) => {
                let edge_idx = self.graph.add_edge(p, id, None);
                self.last_edge_idx = Some(edge_idx);
            },
            None => {
                self.last_edge_idx = None;
            },
        }
        self.stack.push(id);
        proof {
            assert(self@.stack =~= old_stack.push(id@));
            assert(opt_condition(None) == None::<ConditionView>);
        }
        id
    }

    /// Pops the current context, returning to the parent level.
    ///
    /// The stack must not be empty.
    pub fn pop_node(&mut self)
        requires
            old(self).wf(),
            old(self)@.stack.len() > 0,
        ensures
            final(self).wf(),
            final(self)@ == old(self)@.pop(),
    {
        let ghost old_stack = self@.stack;
        self.stack.pop();
        self.last_edge_idx = None;
        assert(self@.stack =~= old_stack.drop_last());
    }

    /// Sets the port on the current context node.
    pub fn set_port(&mut self, port: u16)
        requires
            old(self).wf(),
        ensures
            final(self).wf(),
            final(self)@ == old(self)@.set_port(port),
    {
        if let Some(id) = self.current() {
            self.graph.set_node_port(id, port);
        }
    }

    /// Sets the protocol on the current context node.
    pub fn set_protocol(&mut self, protocol: Protocol)
        requires
            old(self).wf(),
        ensures
            final(self).wf(),
            final(self)@ == old(self)@.set_protocol(protocol),
    {
        if let Some(id) = self.current() {
            self.graph.set_node_protocol(id, protocol);
        }
    }

    /// Sets TLS auto mode on the current context node.
    pub fn set_tls_auto(&mut self)
        requires
            old(self).wf(),
        ensures
            final(self).wf(),
            final(self)@ == old(self)@.set_tls_auto(),
    {
        if let Some(id) = self.current() {
            self.graph.set_node_tls(id, TlsConfig::automatic());
        }
    }

    /// Adds a custom metadata key-value pair to the current context node.
    pub fn add_custom(&mut self, key: &str, value: &str)
        requires
            old(self).wf(),
        ensures
            final(self).wf(),
            final(self)@ == old(self)@.add_custom(key@, value@),
    {
        if let Some(id) = self.current() {
            self.graph.push_node_custom(id, string_of(key), string_of(value));
        }
    }

    /// Sets the edge condition on the edge created by the last `push_node`. O(1).
    pub fn set_condition(&mut self, condition: EdgeCondition)
        requires
            old(self).wf(),
        ensures
            final(self).wf(),
            final(self)@ == old(self)@.set_condition(condition@),
    {
        if let Some(idx) = self.last_edge_idx {
            self.graph.set_edge_condition_by_idx(idx, condition);
        }
    }

    /// Connects two existing nodes with a new edge.
    pub fn add_connection(&mut self, source: NodeId, target: NodeId, condition: Option<EdgeCondition>)
        requires
            old(self).wf(),
            source@ < old(self)@.graph.nodes.len(),
            target@ < old(self)@.graph.nodes.len(),
            old(self)@.graph.edges.len() < usize::MAX,
        ensures
            final(self).wf(),
            final(self)@ == old(self)@.connect(source@, target@, opt_condition(condition)),
    {
        self.graph.add_edge(source, target, condition);
    }

    /// Consumes the builder and returns the completed [`RouteGraph`].
    pub fn build(self) -> (r: RouteGraph)
        requires
            self.wf(),
        ensures
            r.wf(),
            r@ == self@.graph,
    {
        self.graph
    }

    // -----------------------------------------------------------------------
    // Consuming API — thin wrappers for chaining convenience
    // -----------------------------------------------------------------------
    /// Consuming variant of [`push_node`](Self::push_node).
    pub fn push(self, kind: NodeKind, label: &str) -> (r: Self)
        requires
            self.wf(),
            self@.has_room(),
        ensures
            r.wf(),
            r@ == self@.push(kind, label@),
    {
        let mut b = self;
        b.push_node(kind, label);
        b
    }

    /// Consuming variant of [`pop_node`](Self::pop_node).
    pub fn pop(self) -> (r: Self)
        requires
            self.wf(),
            self@.stack.len() > 0,
        ensures
            r.wf(),
            r@ == self@.pop(),
    {
        let mut b = self;
        b.pop_node();
        b
    }

    /// Consuming variant of [`set_port`](Self::set_port).
    pub fn with_port(self, port: u16) -> (r: Self)
        requires
            self.wf(),
        ensures
            r.wf(),
            r@ == self@.set_port(port),
    {
        let mut b = self;
        b.set_port(port);
        b
    }

    /// Consuming variant of [`set_protocol`](Self::set_protocol).
    pub fn with_protocol(self, protocol: Protocol) -> (r: Self)
        requires
            self.wf(),
        ensures
            r.wf(),
            r@ == self@.set_protocol(protocol),
    {
        let mut b = self;
        b.set_protocol(protocol);
        b
    }

    /// Consuming variant of [`set_tls_auto`](Self::set_tls_auto).
    pub fn with_tls_auto(self) -> (r: Self)
        requires
            self.wf(),
        ensures
            r.wf(),
            r@ == self@.set_tls_auto(),
    {
        let mut b = self;
        b.set_tls_auto();
        b
    }

    /// Consuming variant of [`add_custom`](Self::add_custom).
    pub fn with_custom(self, key: &str, value: &str) -> (r: Self)
        requires
            self.wf(),
        ensures
            r.wf(),
            r@ == self@.add_custom(key@, value@),
    {
        let mut b = self;
        b.add_custom(key, value);
        b
    }

    /// Consuming variant of [`set_condition`](Self::set_condition).
    pub fn with_condition(self, condition: EdgeCondition) -> (r: Self)
        requires
            self.wf(),
        ensures
            r.wf(),
            r@ == self@.set_condition(condition@),
    {
        let mut b = self;
        b.set_condition(condition);
        b
    }

    /// Consuming variant of [`add_connection`](Self::add_connection).
    pub fn connect(self, source: NodeId, target: NodeId, condition: Option<EdgeCondition>) -> (r: Self)
        requires
            self.wf(),
            source@ < self@.graph.nodes.len(),
            target@ < self@.graph.nodes.len(),
            self@.graph.edges.len() < usize::MAX,
        ensures
            r.wf(),
            r@ == self@.connect(source@, target@, opt_condition(condition)),
    {
        let mut b = self;
        b.add_connection(source, target, condition);
        b
    }

    /// Alias for [`build`](Self::build).
    pub fn into_graph(self) -> (r: RouteGraph)
        requires
            self.wf(),
        ensures
            r.wf(),
            r@ == self@.graph,
    {
        self.build()
    }
}

impl Default for RouteGraphBuilder {
    fn default() -> (r: Self)
        ensures
            r.wf(),
            r@ == BuilderView::empty(),
    {
        Self::new()
    }
}

} // verus!
