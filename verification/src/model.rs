//! Routing graph data model.
//!
//! The model represents the path of an HTTP request through a reverse proxy:
//!
//! ```text
//! Client → Listener → Host → PathMatch → [Middleware]* → Backend
//! ```
use vstd::prelude::*;
use vstd::string::*;

use crate::builder::RouteGraphBuilder;
use crate::text::{decimal, push_decimal, string_of};

verus! {

// ---------------------------------------------------------------------------
// Identifiers and kinds
// ---------------------------------------------------------------------------

/// Unique identifier for a node in the routing graph: the node's position in
/// the graph's node list.
#[derive(Debug, Clone, Copy, PartialEq, Eq, Structural, PartialOrd, Ord, Hash)]
pub struct NodeId(u32);

impl View for NodeId {
    type V = u32;

    closed spec fn view(&self) -> u32 {
        self.0
    }
}

/// How a node identifier is displayed: `n` followed by its number.
pub open spec fn id_text(id: u32) -> Seq<char> {
    "n"@ + decimal(id as nat)
}

impl NodeId {
    pub(crate) fn from_index(i: u32) -> (r: NodeId)
        ensures
            r@ == i,
    {
        NodeId(i)
    }

    /// Returns the raw `u32` value.
    pub fn as_u32(self) -> (r: u32)
        ensures
            r == self@,
    {
        self.0
    }

    /// The displayed form of the identifier, e.g. `n3`.
    pub fn to_string(&self) -> (r: String)
        ensures
            r@ == id_text(self@),
    {
        let mut s = string_of("n");
        push_decimal(&mut s, self.0 as u64);
        s
    }

    /// Two identifiers are equal exactly when their numbers are.
    pub proof fn lemma_view_injective(a: NodeId, b: NodeId)
        ensures
            (a == b) <==> (a@ == b@),
    {
    }
}

/// The kind of a routing node, determining its role in the graph.
#[derive(Debug, Clone, Copy, PartialEq, Eq, Structural, Hash)]
#[non_exhaustive]
pub enum NodeKind {
    /// The originating client (root of the graph).
    Client,
    /// A listening address/port (e.g. `:443`).
    Listener,
    /// A virtual host (e.g. `example.com`).
    Host,
    /// A path matcher (e.g. `/api/*`).
    PathMatch,
    /// A middleware step (e.g. `strip_prefix`, `auth`).
    Middleware,
    /// An upstream backend (e.g. `http://backend:8080`).
    Backend,
}

/// The displayed name of a node kind.
pub open spec fn kind_text(k: NodeKind) -> Seq<char> {
    match k {
        NodeKind::Client => "client"@,
        NodeKind::Listener => "listener"@,
        NodeKind::Host => "host"@,
        NodeKind::PathMatch => "path_match"@,
        NodeKind::Middleware => "middleware"@,
        NodeKind::Backend => "backend"@,
    }
}

impl NodeKind {
    /// The displayed name of the kind, e.g. `path_match`.
    pub fn to_string(&self) -> (r: String)
        ensures
            r@ == kind_text(*self),
    {
        match self {
            NodeKind::Client => string_of("client"),
            NodeKind::Listener => string_of("listener"),
            NodeKind::Host => string_of("host"),
            NodeKind::PathMatch => string_of("path_match"),
            NodeKind::Middleware => string_of("middleware"),
            NodeKind::Backend => string_of("backend"),
        }
    }
}

/// Network protocol.
#[derive(Debug, Clone, Copy, PartialEq, Eq, Structural, Hash)]
#[non_exhaustive]
pub enum Protocol {
    Http,
    Https,
    Grpc,
    Tcp,
    Udp,
}

/// The displayed name of a protocol.
pub open spec fn protocol_text(p: Protocol) -> Seq<char> {
    match p {
        Protocol::Http => "HTTP"@,
        Protocol::Https => "HTTPS"@,
        Protocol::Grpc => "gRPC"@,
        Protocol::Tcp => "TCP"@,
        Protocol::Udp => "UDP"@,
    }
}

impl Protocol {
    /// The displayed name of the protocol, e.g. `HTTPS`.
    pub fn to_string(&self) -> (r: String)
        ensures
            r@ == protocol_text(*self),
    {
        match self {
            Protocol::Http => string_of("HTTP"),
            Protocol::Https => string_of("HTTPS"),
            Protocol::Grpc => string_of("gRPC"),
            Protocol::Tcp => string_of("TCP"),
            Protocol::Udp => string_of("UDP"),
        }
    }
}

// ---------------------------------------------------------------------------
// TLS, conditions, metadata
// ---------------------------------------------------------------------------

/// The characters of an optional string.
pub open spec fn opt_text(o: Option<String>) -> Option<Seq<char>> {
    match o {
        Some(s) => Some(s@),
        None => None,
    }
}

/// TLS configuration for a listener.
#[derive(Debug, Clone, PartialEq, Eq)]
#[non_exhaustive]
pub struct TlsConfig {
    /// Whether TLS is configured automatically (e.g. Caddy's Auto HTTPS).
    pub auto: bool,
    /// Path to the certificate file.
    pub cert_path: Option<String>,
    /// SNI hostname override.
    pub sni: Option<String>,
}

/// The mathematical content of a [`TlsConfig`].
pub struct TlsView {
    pub auto: bool,
    pub cert_path: Option<Seq<char>>,
    pub sni: Option<Seq<char>>,
}

impl View for TlsConfig {
    type V = TlsView;

    open spec fn view(&self) -> TlsView {
        TlsView { auto: self.auto, cert_path: opt_text(self.cert_path), sni: opt_text(self.sni) }
    }
}

/// The TLS setting of automatic HTTPS.
pub open spec fn auto_tls() -> TlsView {
    TlsView { auto: true, cert_path: None, sni: None }
}

impl TlsConfig {
    pub(crate) fn automatic() -> (r: TlsConfig)
        ensures
            r@ == auto_tls(),
    {
        TlsConfig { auto: true, cert_path: None, sni: None }
    }
}

/// Condition on a routing edge.
#[derive(Debug, Clone, PartialEq, Eq)]
#[non_exhaustive]
pub enum EdgeCondition {
    /// Unconditional (default routing).
    Always,
    /// Glob-style path match (e.g. `/api/*`).
    PathGlob(String),
    /// Path prefix match (e.g. `/api/`).
    PathPrefix(String),
    /// Exact path match.
    PathExact(String),
    /// Header name/value match.
    HeaderMatch { name: String, value: String },
    /// HTTP method match.
    Method(String),
}

/// The mathematical content of an [`EdgeCondition`].
pub enum ConditionView {
    Always,
    PathGlob(Seq<char>),
    PathPrefix(Seq<char>),
    PathExact(Seq<char>),
    HeaderMatch { name: Seq<char>, value: Seq<char> },
    Method(Seq<char>),
}

impl View for EdgeCondition {
    type V = ConditionView;

    open spec fn view(&self) -> ConditionView {
        match self {
            EdgeCondition::Always => ConditionView::Always,
            EdgeCondition::PathGlob(p) => ConditionView::PathGlob(p@),
            EdgeCondition::PathPrefix(p) => ConditionView::PathPrefix(p@),
            EdgeCondition::PathExact(p) => ConditionView::PathExact(p@),
            EdgeCondition::HeaderMatch { name, value } => ConditionView::HeaderMatch {
                name: name@,
                value: value@,
            },
            EdgeCondition::Method(m) => ConditionView::Method(m@),
        }
    }
}

/// The mathematical content of an optional condition.
pub open spec fn opt_condition(c: Option<EdgeCondition>) -> Option<ConditionView> {
    match c {
        Some(c) => Some(c@),
        None => None,
    }
}

/// How a condition is displayed (empty for `Always`).
pub open spec fn condition_text(c: ConditionView) -> Seq<char> {
    match c {
        ConditionView::Always => Seq::<char>::empty(),
        ConditionView::PathGlob(p) => p,
        ConditionView::PathPrefix(p) => p + "*"@,
        ConditionView::PathExact(p) => p,
        ConditionView::HeaderMatch { name, value } => name + ": "@ + value,
        ConditionView::Method(m) => m,
    }
}

impl EdgeCondition {
    /// The displayed form of the condition, e.g. `/api/*` for a prefix `/api/`.
    pub fn to_string(&self) -> (r: String)
        ensures
            r@ == condition_text(self@),
    {
        match self {
            EdgeCondition::Always => String::new(),
            EdgeCondition::PathGlob(p) => p.clone(),
            EdgeCondition::PathPrefix(p) => {
                let mut s = p.clone();
                s.append("*");
                s
            },
            EdgeCondition::PathExact(p) => p.clone(),
            EdgeCondition::HeaderMatch { name, value } => {
                let mut s = name.clone();
                s.append(": ");
                s.append(value.as_str());
                s
            },
            EdgeCondition::Method(m) => m.clone(),
        }
    }
}

/// Additional metadata attached to a node.
#[derive(Debug, Clone)]
#[non_exhaustive]
pub struct Metadata {
    /// Listening or backend port.
    pub port: Option<u16>,
    /// Network protocol.
    pub protocol: Option<Protocol>,
    /// TLS configuration (for listeners).
    pub tls: Option<TlsConfig>,
    /// Arbitrary key-value pairs specific to the proxy format.
    pub custom: Vec<(String, String)>,
}

/// The mathematical content of [`Metadata`].
pub struct MetadataView {
    pub port: Option<u16>,
    pub protocol: Option<Protocol>,
    pub tls: Option<TlsView>,
    pub custom: Seq<(Seq<char>, Seq<char>)>,
}

/// The characters of each key-value pair.
pub open spec fn pairs_text(c: Seq<(String, String)>) -> Seq<(Seq<char>, Seq<char>)> {
    c.map_values(|p: (String, String)| (p.0@, p.1@))
}

impl View for Metadata {
    type V = MetadataView;

    open spec fn view(&self) -> MetadataView {
        MetadataView {
            port: self.port,
            protocol: self.protocol,
            tls: match self.tls {
                Some(t) => Some(t@),
                None => None,
            },
            custom: pairs_text(self.custom@),
        }
    }
}

/// Metadata with nothing set.
pub open spec fn empty_metadata() -> MetadataView {
    MetadataView { port: None, protocol: None, tls: None, custom: Seq::empty() }
}

impl Metadata {
    /// Creates empty metadata.
    pub fn new() -> (r: Self)
        ensures
            r@ == empty_metadata(),
    {
        let r = Metadata { port: None, protocol: None, tls: None, custom: Vec::new() };
        assert(pairs_text(r.custom@) =~= Seq::empty());
        r
    }

    /// Sets the port.
    pub fn with_port(self, port: u16) -> (r: Self)
        ensures
            r@ == (MetadataView { port: Some(port), ..self@ }),
    {
        let mut s = self;
        s.port = Some(port);
        s
    }

    /// Sets the protocol.
    pub fn with_protocol(self, protocol: Protocol) -> (r: Self)
        ensures
            r@ == (MetadataView { protocol: Some(protocol), ..self@ }),
    {
        let mut s = self;
        s.protocol = Some(protocol);
        s
    }

    /// Adds a custom key-value pair.
    pub fn with_custom(self, key: &str, value: &str) -> (r: Self)
        ensures
            r@ == (MetadataView { custom: self@.custom.push((key@, value@)), ..self@ }),
    {
        let mut s = self;
        let ghost old_custom = s.custom@;
        s.custom.push((string_of(key), string_of(value)));
        assert(pairs_text(s.custom@) =~= pairs_text(old_custom).push((key@, value@)));
        s
    }
}

impl Default for Metadata {
    fn default() -> (r: Self)
        ensures
            r@ == empty_metadata(),
    {
        Metadata::new()
    }
}

// ---------------------------------------------------------------------------
// Nodes, edges
// ---------------------------------------------------------------------------

/// A node in the routing graph.
#[derive(Debug, Clone)]
pub struct Node {
    /// Unique identifier within this graph.
    pub id: NodeId,
    /// What role this node plays.
    pub kind: NodeKind,
    /// Human-readable label (address, hostname, path, etc.).
    pub label: String,
    /// Additional metadata.
    pub metadata: Metadata,
}

/// The mathematical content of a [`Node`].
pub struct NodeView {
    pub id: u32,
    pub kind: NodeKind,
    pub label: Seq<char>,
    pub metadata: MetadataView,
}

impl View for Node {
    type V = NodeView;

    open spec fn view(&self) -> NodeView {
        NodeView { id: self.id@, kind: self.kind, label: self.label@, metadata: self.metadata@ }
    }
}

/// A directed edge between two nodes.
#[derive(Debug, Clone)]
pub struct Edge {
    /// Source node.
    pub source: NodeId,
    /// Target node.
    pub target: NodeId,
    /// Optional condition for this routing step.
    pub condition: Option<EdgeCondition>,
}

/// The mathematical content of an [`Edge`].
pub struct EdgeView {
    pub source: u32,
    pub target: u32,
    pub condition: Option<ConditionView>,
}

impl View for Edge {
    type V = EdgeView;

    open spec fn view(&self) -> EdgeView {
        EdgeView {
            source: self.source@,
            target: self.target@,
            condition: opt_condition(self.condition),
        }
    }
}

// ---------------------------------------------------------------------------
// The graph, mathematically
// ---------------------------------------------------------------------------

/// The mathematical content of a [`RouteGraph`]: its nodes and edges, in order.
pub struct GraphView {
    pub nodes: Seq<NodeView>,
    pub edges: Seq<EdgeView>,
}

/// The positions, in order, of the edges leaving node `n`.
pub open spec fn out_edges(edges: Seq<EdgeView>, n: u32) -> Seq<usize>
    decreases edges.len(),
{
    if edges.len() == 0 {
        Seq::empty()
    } else if edges.last().source == n {
        out_edges(edges.drop_last(), n).push((edges.len() - 1) as usize)
    } else {
        out_edges(edges.drop_last(), n)
    }
}

/// The positions, in order, of the edges entering node `n`.
pub open spec fn in_edges(edges: Seq<EdgeView>, n: u32) -> Seq<usize>
    decreases edges.len(),
{
    if edges.len() == 0 {
        Seq::empty()
    } else if edges.last().target == n {
        in_edges(edges.drop_last(), n).push((edges.len() - 1) as usize)
    } else {
        in_edges(edges.drop_last(), n)
    }
}

/// The position of the first `Client` node, if any.
pub open spec fn first_client(nodes: Seq<NodeView>) -> Option<int>
    decreases nodes.len(),
{
    if nodes.len() == 0 {
        None
    } else {
        match first_client(nodes.drop_last()) {
            Some(i) => Some(i),
            None => if nodes.last().kind == NodeKind::Client {
                Some(nodes.len() - 1)
            } else {
                None
            },
        }
    }
}

/// The number of `Client` nodes.
pub open spec fn client_count(nodes: Seq<NodeView>) -> nat
    decreases nodes.len(),
{
    if nodes.len() == 0 {
        0
    } else {
        client_count(nodes.drop_last()) + if nodes.last().kind == NodeKind::Client {
            1nat
        } else {
            0nat
        }
    }
}

/// The problems that validation reports for one edge, in a graph of `n` nodes.
pub open spec fn edge_problems(e: EdgeView, n: nat) -> Seq<Seq<char>> {
    (if e.source >= n {
        seq!["edge references invalid source "@ + id_text(e.source)]
    } else {
        Seq::<Seq<char>>::empty()
    }) + (if e.target >= n {
        seq!["edge references invalid target "@ + id_text(e.target)]
    } else {
        Seq::<Seq<char>>::empty()
    }) + (if e.source == e.target {
        seq!["self-loop on node "@ + id_text(e.source)]
    } else {
        Seq::<Seq<char>>::empty()
    })
}

/// The problems that validation reports for a list of edges, in order.
pub open spec fn edges_problems(edges: Seq<EdgeView>, n: nat) -> Seq<Seq<char>>
    decreases edges.len(),
{
    if edges.len() == 0 {
        Seq::empty()
    } else {
        edges_problems(edges.drop_last(), n) + edge_problems(edges.last(), n)
    }
}

impl GraphView {
    /// The empty graph.
    pub open spec fn empty() -> GraphView {
        GraphView { nodes: Seq::empty(), edges: Seq::empty() }
    }

    /// Basic integrity: identifiers are positions, edges join existing nodes.
    pub open spec fn inv(self) -> bool {
        &&& self.nodes.len() <= u32::MAX
        &&& self.edges.len() <= usize::MAX
        &&& forall|i: int| 0 <= i < self.nodes.len() ==> (#[trigger] self.nodes[i]).id == i
        &&& forall|e: int|
            0 <= e < self.edges.len() ==> (#[trigger] self.edges[e]).source < self.nodes.len()
                && self.edges[e].target < self.nodes.len()
    }

    /// The identifier of the root: the first `Client` node.
    pub open spec fn root(self) -> Option<u32> {
        match first_client(self.nodes) {
            Some(i) => Some(i as u32),
            None => None,
        }
    }

    /// The graph with a node appended.
    pub open spec fn add_node(self, kind: NodeKind, label: Seq<char>, metadata: MetadataView) -> GraphView {
        GraphView {
            nodes: self.nodes.push(
                NodeView { id: self.nodes.len() as u32, kind, label, metadata },
            ),
            ..self
        }
    }

    /// The graph with an edge appended.
    pub open spec fn add_edge(self, source: u32, target: u32, condition: Option<ConditionView>) -> GraphView {
        GraphView { edges: self.edges.push(EdgeView { source, target, condition }), ..self }
    }

    /// The graph with the condition of edge `i` replaced (unchanged if there is no such edge).
    pub open spec fn set_condition(self, i: int, c: ConditionView) -> GraphView {
        if 0 <= i < self.edges.len() {
            GraphView {
                edges: self.edges.update(i, EdgeView { condition: Some(c), ..self.edges[i] }),
                ..self
            }
        } else {
            self
        }
    }

    /// The graph with the metadata of node `i` replaced.
    pub open spec fn set_metadata(self, i: int, m: MetadataView) -> GraphView {
        GraphView { nodes: self.nodes.update(i, NodeView { metadata: m, ..self.nodes[i] }), ..self }
    }

    /// The messages that [`RouteGraph::validate`] reports, in order.
    pub open spec fn problems(self) -> Seq<Seq<char>> {
        edges_problems(self.edges, self.nodes.len()) + (if client_count(self.nodes) > 1 {
            seq![decimal(client_count(self.nodes)) + " Client nodes found, expected at most 1"@]
        } else {
            Seq::<Seq<char>>::empty()
        }) + (match first_client(self.nodes) {
            Some(i) => if in_edges(self.edges, i as u32).len() > 0 {
                seq!["Client node must have no incoming edges"@]
            } else {
                Seq::<Seq<char>>::empty()
            },
            None => Seq::<Seq<char>>::empty(),
        })
    }
}

// ---------------------------------------------------------------------------
// Facts about the adjacency lists
// ---------------------------------------------------------------------------

/// An edge position is listed among the edges leaving `n` exactly when the
/// edge at that position starts at `n`; the list is strictly increasing.
pub proof fn lemma_out_edges(edges: Seq<EdgeView>, n: u32)
    requires
        edges.len() <= usize::MAX,
    ensures
        forall|k: int|
            0 <= k < out_edges(edges, n).len() ==> #[trigger] out_edges(edges, n)[k] < edges.len()
                && edges[out_edges(edges, n)[k] as int].source == n,
        forall|j: int, k: int|
            0 <= j < k < out_edges(edges, n).len() ==> #[trigger] out_edges(edges, n)[j]
                < #[trigger] out_edges(edges, n)[k],
        forall|i: int|
            0 <= i < edges.len() && (#[trigger] edges[i]).source == n ==> exists|k: int|
                0 <= k < out_edges(edges, n).len() && #[trigger] out_edges(edges, n)[k] == i as usize,
        forall|i: int|
            0 <= i < edges.len() ==> (out_edges(edges, n).contains(i as usize) <==> (
            #[trigger] edges[i]).source == n),
    decreases edges.len(),
{
    if edges.len() > 0 {
        let p = edges.drop_last();
        lemma_out_edges(p, n);
        let o = out_edges(edges, n);
        let q = out_edges(p, n);
        assert(o == if edges.last().source == n {
            q.push((edges.len() - 1) as usize)
        } else {
            q
        });
        assert forall|k: int| 0 <= k < o.len() implies #[trigger] o[k] < edges.len()
            && edges[o[k] as int].source == n by {
            if k < q.len() {
                assert(o[k] == q[k]);
                assert(edges[q[k] as int] == p[q[k] as int]);
            }
        }
        assert forall|j: int, k: int| 0 <= j < k < o.len() implies #[trigger] o[j] < #[trigger] o[k] by {
            assert(o[j] == q[j]);
            if k < q.len() {
                assert(o[k] == q[k]);
            }
        }
        assert forall|i: int| 0 <= i < edges.len() && (#[trigger] edges[i]).source == n implies exists|k: int|
            0 <= k < o.len() && #[trigger] o[k] == i as usize by {
            if i < edges.len() - 1 {
                assert(p[i] == edges[i]);
                let k = choose|k: int| 0 <= k < q.len() && #[trigger] q[k] == i as usize;
                assert(o[k] == q[k]);
            } else {
                assert(o[q.len() as int] == i as usize);
            }
        }
        assert forall|i: int| 0 <= i < edges.len() implies (o.contains(i as usize) <==> (
            #[trigger] edges[i]).source == n) by {
            if o.contains(i as usize) {
                let k = choose|k: int| 0 <= k < o.len() && o[k] == i as usize;
            }
            if edges[i].source == n {
                let k = choose|k: int| 0 <= k < o.len() && #[trigger] o[k] == i as usize;
                assert(o[k] == i as usize);
            }
        }
    }
}

/// An edge position is listed among the edges entering `n` exactly when the
/// edge at that position ends at `n`; the list is strictly increasing.
pub proof fn lemma_in_edges(edges: Seq<EdgeView>, n: u32)
    requires
        edges.len() <= usize::MAX,
    ensures
        forall|k: int|
            0 <= k < in_edges(edges, n).len() ==> #[trigger] in_edges(edges, n)[k] < edges.len()
                && edges[in_edges(edges, n)[k] as int].target == n,
        forall|j: int, k: int|
            0 <= j < k < in_edges(edges, n).len() ==> #[trigger] in_edges(edges, n)[j]
                < #[trigger] in_edges(edges, n)[k],
        forall|i: int|
            0 <= i < edges.len() && (#[trigger] edges[i]).target == n ==> exists|k: int|
                0 <= k < in_edges(edges, n).len() && #[trigger] in_edges(edges, n)[k] == i as usize,
        forall|i: int|
            0 <= i < edges.len() ==> (in_edges(edges, n).contains(i as usize) <==> (
            #[trigger] edges[i]).target == n),
    decreases edges.len(),
{
    if edges.len() > 0 {
        let p = edges.drop_last();
        lemma_in_edges(p, n);
        let o = in_edges(edges, n);
        let q = in_edges(p, n);
        assert(o == if edges.last().target == n {
            q.push((edges.len() - 1) as usize)
        } else {
            q
        });
        assert forall|k: int| 0 <= k < o.len() implies #[trigger] o[k] < edges.len()
            && edges[o[k] as int].target == n by {
            if k < q.len() {
                assert(o[k] == q[k]);
                assert(edges[q[k] as int] == p[q[k] as int]);
            }
        }
        assert forall|j: int, k: int| 0 <= j < k < o.len() implies #[trigger] o[j] < #[trigger] o[k] by {
            assert(o[j] == q[j]);
            if k < q.len() {
                assert(o[k] == q[k]);
            }
        }
        assert forall|i: int| 0 <= i < edges.len() && (#[trigger] edges[i]).target == n implies exists|k: int|
            0 <= k < o.len() && #[trigger] o[k] == i as usize by {
            if i < edges.len() - 1 {
                assert(p[i] == edges[i]);
                let k = choose|k: int| 0 <= k < q.len() && #[trigger] q[k] == i as usize;
                assert(o[k] == q[k]);
            } else {
                assert(o[q.len() as int] == i as usize);
            }
        }
        assert forall|i: int| 0 <= i < edges.len() implies (o.contains(i as usize) <==> (
            #[trigger] edges[i]).target == n) by {
            if o.contains(i as usize) {
                let k = choose|k: int| 0 <= k < o.len() && o[k] == i as usize;
            }
            if edges[i].target == n {
                let k = choose|k: int| 0 <= k < o.len() && #[trigger] o[k] == i as usize;
                assert(o[k] == i as usize);
            }
        }
    }
}

/// Node `b` is among the children of node `a` exactly when `a` is among the
/// parents of `b`: both hold when some edge goes from `a` to `b`.
pub proof fn lemma_child_parent_duality(g: GraphView, a: u32, b: u32)
    requires
        g.inv(),
    ensures
        (exists|k: int|
            0 <= k < out_edges(g.edges, a).len() && #[trigger] g.edges[out_edges(
                g.edges,
                a,
            )[k] as int].target == b) <==> (exists|i: int|
            0 <= i < g.edges.len() && #[trigger] g.edges[i].source == a && g.edges[i].target
                == b),
        (exists|k: int|
            0 <= k < in_edges(g.edges, b).len() && #[trigger] g.edges[in_edges(
                g.edges,
                b,
            )[k] as int].source == a) <==> (exists|i: int|
            0 <= i < g.edges.len() && #[trigger] g.edges[i].source == a && g.edges[i].target
                == b),
{
    lemma_out_edges(g.edges, a);
    lemma_in_edges(g.edges, b);
    if exists|i: int| 0 <= i < g.edges.len() && #[trigger] g.edges[i].source == a && g.edges[i].target == b {
        let i = choose|i: int|
            0 <= i < g.edges.len() && #[trigger] g.edges[i].source == a && g.edges[i].target == b;
        assert(out_edges(g.edges, a).contains(i as usize));
        assert(in_edges(g.edges, b).contains(i as usize));
        let k1 = choose|k: int| 0 <= k < out_edges(g.edges, a).len() && out_edges(g.edges, a)[k] == i as usize;
        let k2 = choose|k: int| 0 <= k < in_edges(g.edges, b).len() && in_edges(g.edges, b)[k] == i as usize;
        assert(g.edges[out_edges(g.edges, a)[k1] as int].target == b);
        assert(g.edges[in_edges(g.edges, b)[k2] as int].source == a);
    }
    if exists|k: int| 0 <= k < out_edges(g.edges, a).len() && #[trigger] g.edges[out_edges(g.edges, a)[k] as int].target == b {
        let k = choose|k: int| 0 <= k < out_edges(g.edges, a).len() && #[trigger] g.edges[out_edges(g.edges, a)[k] as int].target == b;
        let i = out_edges(g.edges, a)[k] as int;
        assert(g.edges[i].source == a && g.edges[i].target == b);
    }
    if exists|k: int| 0 <= k < in_edges(g.edges, b).len() && #[trigger] g.edges[in_edges(g.edges, b)[k] as int].source == a {
        let k = choose|k: int| 0 <= k < in_edges(g.edges, b).len() && #[trigger] g.edges[in_edges(g.edges, b)[k] as int].source == a;
        let i = in_edges(g.edges, b)[k] as int;
        assert(g.edges[i].source == a && g.edges[i].target == b);
    }
}

/// The first client is a client, and it is in range.
pub proof fn lemma_first_client(nodes: Seq<NodeView>)
    ensures
        first_client(nodes) matches Some(i) ==> 0 <= i < nodes.len() && nodes[i].kind
            == NodeKind::Client && forall|j: int| 0 <= j < i ==> (#[trigger] nodes[j]).kind
            != NodeKind::Client,
        first_client(nodes) is None ==> forall|j: int|
            0 <= j < nodes.len() ==> (#[trigger] nodes[j]).kind != NodeKind::Client,
    decreases nodes.len(),
{
    if nodes.len() > 0 {
        let p = nodes.drop_last();
        lemma_first_client(p);
        assert forall|j: int| 0 <= j < p.len() implies #[trigger] nodes[j] == p[j] by {}
        assert(nodes.last() == nodes[nodes.len() - 1]);
    }
}

/// Whether a walk of `k` edges leaves node `v`.
pub open spec fn has_walk(g: GraphView, v: u32, k: nat) -> bool
    decreases k,
{
    if k == 0 {
        true
    } else {
        exists|e: int|
            0 <= e < g.edges.len() && (#[trigger] g.edges[e]).source == v && has_walk(
                g,
                g.edges[e].target,
                (k - 1) as nat,
            )
    }
}

/// Whether the tree below the root is finite: no walk with as many edges as
/// the graph has nodes leaves the root, so no cycle can be reached from it.
#[verifier::opaque]
pub open spec fn tree_is_finite(g: GraphView) -> bool {
    match g.root() {
        Some(r) => !has_walk(g, r, g.nodes.len()),
        None => true,
    }
}

/// Where every edge goes from an earlier node to a later one, the tree below
/// the root is finite.
pub proof fn lemma_forward_edges_tree_is_finite(g: GraphView)
    requires
        g.inv(),
        forall|e: int| 0 <= e < g.edges.len() ==> (#[trigger] g.edges[e]).source < g.edges[e].target,
    ensures
        tree_is_finite(g),
{
    reveal(tree_is_finite);
    if let Some(r) = g.root() {
        if g.nodes.len() > 0 {
            lemma_forward_walk(g, r, g.nodes.len());
        }
    }
}

proof fn lemma_forward_walk(g: GraphView, v: u32, k: nat)
    requires
        g.inv(),
        forall|e: int| 0 <= e < g.edges.len() ==> (#[trigger] g.edges[e]).source < g.edges[e].target,
        k > 0,
    ensures
        has_walk(g, v, k) ==> v + k < g.nodes.len(),
    decreases k,
{
    if has_walk(g, v, k) {
        let e = choose|e: int|
            0 <= e < g.edges.len() && (#[trigger] g.edges[e]).source == v && has_walk(
                g,
                g.edges[e].target,
                (k - 1) as nat,
            );
        if k > 1 {
            lemma_forward_walk(g, g.edges[e].target, (k - 1) as nat);
        }
    }
}

proof fn lemma_out_edges_none(edges: Seq<EdgeView>, n: u32)
    requires
        forall|i: int| 0 <= i < edges.len() ==> (#[trigger] edges[i]).source != n,
    ensures
        out_edges(edges, n) == Seq::<usize>::empty(),
    decreases edges.len(),
{
    if edges.len() > 0 {
        lemma_out_edges_none(edges.drop_last(), n);
    }
}

/// With no edge ending at `n`, no edge enters it.
pub proof fn lemma_in_edges_none(edges: Seq<EdgeView>, n: u32)
    requires
        forall|i: int| 0 <= i < edges.len() ==> (#[trigger] edges[i]).target != n,
    ensures
        in_edges(edges, n) == Seq::<usize>::empty(),
    decreases edges.len(),
{
    if edges.len() > 0 {
        lemma_in_edges_none(edges.drop_last(), n);
    }
}

// ---------------------------------------------------------------------------
// The graph
// ---------------------------------------------------------------------------

/// The routing graph — the central data structure.
///
/// Holds a flat list of nodes and edges with precomputed adjacency indices
/// for O(1) traversal. Parsers produce this via [`RouteGraphBuilder`],
/// renderers consume it.
#[derive(Debug)]
pub struct RouteGraph {
    nodes: Vec<Node>,
    edges: Vec<Edge>,
    root_id: Option<NodeId>,
    /// Adjacency: `children_of[node_id]` → indices into `edges`.
    children_of: Vec<Vec<usize>>,
    /// Reverse adjacency: `parents_of[node_id]` → indices into `edges`.
    parents_of: Vec<Vec<usize>>,
}

impl View for RouteGraph {
    type V = GraphView;

    closed spec fn view(&self) -> GraphView {
        GraphView {
            nodes: self.nodes@.map_values(|n: Node| n@),
            edges: self.edges@.map_values(|e: Edge| e@),
        }
    }
}

/// The fields of a [`RouteGraph`], taken out of it while they are changed.
struct GraphParts {
    nodes: Vec<Node>,
    edges: Vec<Edge>,
    root_id: Option<NodeId>,
    children_of: Vec<Vec<usize>>,
    parents_of: Vec<Vec<usize>>,
}

impl View for GraphParts {
    type V = GraphView;

    closed spec fn view(&self) -> GraphView {
        GraphView {
            nodes: self.nodes@.map_values(|n: Node| n@),
            edges: self.edges@.map_values(|e: Edge| e@),
        }
    }
}

impl GraphParts {
    /// The well-formedness of [`RouteGraph`], over the parts.
    closed spec fn wf(&self) -> bool {
        &&& self@.inv()
        &&& self.children_of@.len() == self.nodes@.len()
        &&& self.parents_of@.len() == self.nodes@.len()
        &&& forall|i: int|
            0 <= i < self.nodes@.len() ==> (#[trigger] self.children_of@[i])@ == out_edges(
                self@.edges,
                i as u32,
            )
        &&& forall|i: int|
            0 <= i < self.nodes@.len() ==> (#[trigger] self.parents_of@[i])@ == in_edges(
                self@.edges,
                i as u32,
            )
        &&& match self.root_id {
            Some(r) => self@.root() == Some(r@),
            None => self@.root() is None,
        }
    }

    proof fn lemma_metadata_update(&self, old_graph: &RouteGraph, i: int, m: MetadataView)
        requires
            old_graph.wf(),
            0 <= i < old_graph.nodes@.len(),
            self.nodes@.len() == old_graph.nodes@.len(),
            self.nodes@[i]@ == (NodeView { metadata: m, ..old_graph.nodes@[i]@ }),
            forall|j: int| 0 <= j < self.nodes@.len() && j != i ==> self.nodes@[j] == old_graph.nodes@[j],
            self.edges == old_graph.edges,
            self.children_of == old_graph.children_of,
            self.parents_of == old_graph.parents_of,
            self.root_id == old_graph.root_id,
        ensures
            self.wf(),
            self@ == old_graph@.set_metadata(i, m),
    {
        assert(self@.nodes =~= old_graph@.set_metadata(i, m).nodes);
        assert(self@.edges =~= old_graph@.edges);
        assert(self@.nodes.len() == old_graph@.nodes.len());
        assert forall|j: int| 0 <= j < self@.nodes.len() implies (#[trigger] self@.nodes[j]).kind
            == old_graph@.nodes[j].kind && self@.nodes[j].id == old_graph@.nodes[j].id by {
            if j != i {
                assert(self.nodes@[j] == old_graph.nodes@[j]);
            }
        }
        lemma_first_client_same_kinds(self@.nodes, old_graph@.nodes);
    }
}

impl RouteGraph {
    /// Well-formedness: basic integrity, adjacency lists that list exactly the
    /// edges leaving and entering each node, and a cached root. Every graph
    /// keeps it (it is the type's invariant).
    #[verifier::type_invariant]
    pub closed spec fn wf(&self) -> bool {
        &&& self@.inv()
        &&& self.children_of@.len() == self.nodes@.len()
        &&& self.parents_of@.len() == self.nodes@.len()
        &&& forall|i: int|
            0 <= i < self.nodes@.len() ==> (#[trigger] self.children_of@[i])@ == out_edges(
                self@.edges,
                i as u32,
            )
        &&& forall|i: int|
            0 <= i < self.nodes@.len() ==> (#[trigger] self.parents_of@[i])@ == in_edges(
                self@.edges,
                i as u32,
            )
        &&& match self.root_id {
            Some(r) => self@.root() == Some(r@),
            None => self@.root() is None,
        }
    }

    /// A well-formed graph satisfies the basic integrity conditions.
    pub proof fn lemma_wf_inv(&self)
        requires
            self.wf(),
        ensures
            self@.inv(),
    {
    }

    /// Takes the fields out, leaving an empty graph behind.
    fn take_parts(&mut self) -> (p: GraphParts)
        ensures
            p.wf(),
            p@ == old(self)@,
            p.nodes == old(self).nodes,
            p.edges == old(self).edges,
            p.root_id == old(self).root_id,
            p.children_of == old(self).children_of,
            p.parents_of == old(self).parents_of,
    {
        proof {
            use_type_invariant(&*self);
        }
        let mut g = RouteGraph::new();
        std::mem::swap(self, &mut g);
        proof {
            use_type_invariant(&g);
        }
        let RouteGraph { nodes, edges, root_id, children_of, parents_of } = g;
        GraphParts { nodes, edges, root_id, children_of, parents_of }
    }

    /// Puts well-formed fields together into a graph.
    fn from_parts(p: GraphParts) -> (r: RouteGraph)
        requires
            p.wf(),
        ensures
            r@ == p@,
            r.nodes == p.nodes,
            r.edges == p.edges,
            r.root_id == p.root_id,
            r.children_of == p.children_of,
            r.parents_of == p.parents_of,
    {
        let GraphParts { nodes, edges, root_id, children_of, parents_of } = p;
        RouteGraph { nodes, edges, root_id, children_of, parents_of }
    }

    /// Creates a new empty graph.
    pub fn new() -> (r: Self)
        ensures
            r.wf(),
            r@ == GraphView::empty(),
    {
        let r = RouteGraph {
            nodes: Vec::new(),
            edges: Vec::new(),
            root_id: None,
            children_of: Vec::new(),
            parents_of: Vec::new(),
        };
        assert(r@.nodes =~= Seq::empty());
        assert(r@.edges =~= Seq::empty());
        r
    }

    /// Returns a new graph builder.
    pub fn builder() -> (r: RouteGraphBuilder)
        ensures
            r.wf(),
            r@ == crate::builder::BuilderView::empty(),
    {
        RouteGraphBuilder::new()
    }

    // -----------------------------------------------------------------------
    // Accessors
    // -----------------------------------------------------------------------
    /// Returns all nodes.
    pub fn nodes(&self) -> (r: &[Node])
        ensures
            r@.map_values(|n: Node| n@) == self@.nodes,
    {
        self.nodes.as_slice()
    }

    /// Returns all edges.
    pub fn edges(&self) -> (r: &[Edge])
        ensures
            r@.map_values(|e: Edge| e@) == self@.edges,
    {
        self.edges.as_slice()
    }

    /// Looks up a node by its ID. O(1).
    pub fn get_node(&self, id: NodeId) -> (r: Option<&Node>)
        ensures
            r matches Some(n) ==> id@ < self@.nodes.len() && n@ == self@.nodes[id@ as int],
            r is None ==> id@ >= self@.nodes.len(),
    {
        let i = id.as_u32() as usize;
        if i < self.nodes.len() {
            Some(&self.nodes[i])
        } else {
            None
        }
    }

    /// Returns the root `Client` node, if any. O(1).
    pub fn root(&self) -> (r: Option<&Node>)
        ensures
            r matches Some(n) ==> self@.root() == Some(n@.id) && n@ == self@.nodes[n@.id as int],
            r is None ==> self@.root() is None,
    {
        proof {
            use_type_invariant(self);
        }
        proof {
            lemma_first_client(self@.nodes);
        }
        match self.root_id {
            Some(id) => self.get_node(id),
            None => None,
        }
    }

    /// Returns the root `NodeId`, if any.
    pub fn root_id(&self) -> (r: Option<NodeId>)
        ensures
            r matches Some(id) ==> self@.root() == Some(id@),
            r is None ==> self@.root() is None,
    {
        proof {
            use_type_invariant(self);
        }
        self.root_id
    }

    /// Returns edges outgoing from the given node, in edge order. O(k) where k = out-degree.
    pub fn edges_from(&self, id: NodeId) -> (r: Vec<&Edge>)
        ensures
            r@.len() == out_edges(self@.edges, id@).len(),
            forall|k: int|
                0 <= k < r@.len() ==> (#[trigger] r@[k])@ == self@.edges[out_edges(
                    self@.edges,
                    id@,
                )[k] as int],
    {
        proof {
            use_type_invariant(self);
        }
        proof {
            lemma_out_edges(self@.edges, id@);
            if id@ >= self@.nodes.len() {
                lemma_out_edges_none(self@.edges, id@);
            }
        }
        let mut r: Vec<&Edge> = Vec::new();
        let i = id.as_u32() as usize;
        if i < self.children_of.len() {
            let list = &self.children_of[i];
            let mut k: usize = 0;
            while k < list.len()
                invariant
                    self.wf(),
                    i == id@,
                    i < self.nodes@.len(),
                    list@ == out_edges(self@.edges, id@),
                    k <= list@.len(),
                    r@.len() == k,
                    forall|m: int|
                        0 <= m < k ==> (#[trigger] r@[m])@ == self@.edges[list@[m] as int],
                    forall|m: int| 0 <= m < list@.len() ==> #[trigger] list@[m] < self@.edges.len(),
                decreases list@.len() - k,
            {
                r.push(&self.edges[list[k]]);
                k = k + 1;
            }
        }
        r
    }

    /// Returns edges incoming to the given node, in edge order. O(k) where k = in-degree.
    pub fn edges_to(&self, id: NodeId) -> (r: Vec<&Edge>)
        ensures
            r@.len() == in_edges(self@.edges, id@).len(),
            forall|k: int|
                0 <= k < r@.len() ==> (#[trigger] r@[k])@ == self@.edges[in_edges(
                    self@.edges,
                    id@,
                )[k] as int],
    {
        proof {
            use_type_invariant(self);
        }
        proof {
            lemma_in_edges(self@.edges, id@);
            if id@ >= self@.nodes.len() {
                lemma_in_edges_none(self@.edges, id@);
            }
        }
        let mut r: Vec<&Edge> = Vec::new();
        let i = id.as_u32() as usize;
        if i < self.parents_of.len() {
            let list = &self.parents_of[i];
            let mut k: usize = 0;
            while k < list.len()
                invariant
                    self.wf(),
                    i == id@,
                    i < self.nodes@.len(),
                    list@ == in_edges(self@.edges, id@),
                    k <= list@.len(),
                    r@.len() == k,
                    forall|m: int|
                        0 <= m < k ==> (#[trigger] r@[m])@ == self@.edges[list@[m] as int],
                    forall|m: int| 0 <= m < list@.len() ==> #[trigger] list@[m] < self@.edges.len(),
                decreases list@.len() - k,
            {
                r.push(&self.edges[list[k]]);
                k = k + 1;
            }
        }
        r
    }

    /// Returns child node IDs of the given node, in edge order.
    pub fn children_ids(&self, id: NodeId) -> (r: Vec<NodeId>)
        ensures
            r@.len() == out_edges(self@.edges, id@).len(),
            forall|k: int|
                0 <= k < r@.len() ==> (#[trigger] r@[k])@ == self@.edges[out_edges(
                    self@.edges,
                    id@,
                )[k] as int].target,
    {
        proof {
            use_type_invariant(self);
        }
        let es = self.edges_from(id);
        let mut r: Vec<NodeId> = Vec::new();
        let mut k: usize = 0;
        while k < es.len()
            invariant
                k <= es@.len(),
                r@.len() == k,
                forall|m: int| 0 <= m < k ==> (#[trigger] r@[m])@ == es@[m]@.target,
            decreases es@.len() - k,
        {
            r.push(es[k].target);
            k = k + 1;
        }
        r
    }

    /// Returns child nodes of the given node, in edge order.
    pub fn children(&self, id: NodeId) -> (r: Vec<&Node>)
        ensures
            r@.len() == out_edges(self@.edges, id@).len(),
            forall|k: int|
                0 <= k < r@.len() ==> (#[trigger] r@[k])@ == self@.nodes[self@.edges[out_edges(
                    self@.edges,
                    id@,
                )[k] as int].target as int],
    {
        proof {
            use_type_invariant(self);
        }
        proof {
            lemma_out_edges(self@.edges, id@);
        }
        let ids = self.children_ids(id);
        let mut r: Vec<&Node> = Vec::new();
        let mut k: usize = 0;
        while k < ids.len()
            invariant
                self.wf(),
                ids@.len() == out_edges(self@.edges, id@).len(),
                forall|m: int|
                    0 <= m < ids@.len() ==> (#[trigger] ids@[m])@ == self@.edges[out_edges(
                        self@.edges,
                        id@,
                    )[m] as int].target,
                forall|m: int|
                    0 <= m < out_edges(self@.edges, id@).len() ==> #[trigger] out_edges(
                        self@.edges,
                        id@,
                    )[m] < self@.edges.len(),
                k <= ids@.len(),
                r@.len() == k,
                forall|m: int|
                    0 <= m < k ==> (#[trigger] r@[m])@ == self@.nodes[ids@[m]@ as int],
            decreases ids@.len() - k,
        {
            let ghost e = out_edges(self@.edges, id@)[k as int] as int;
            assert(self@.edges[e].target < self@.nodes.len());
            match self.get_node(ids[k]) {
                Some(n) => r.push(n),
                None => {},
            }
            k = k + 1;
        }
        r
    }

    /// Returns parent node IDs of the given node, in edge order.
    pub fn parent_ids(&self, id: NodeId) -> (r: Vec<NodeId>)
        ensures
            r@.len() == in_edges(self@.edges, id@).len(),
            forall|k: int|
                0 <= k < r@.len() ==> (#[trigger] r@[k])@ == self@.edges[in_edges(
                    self@.edges,
                    id@,
                )[k] as int].source,
    {
        proof {
            use_type_invariant(self);
        }
        let es = self.edges_to(id);
        let mut r: Vec<NodeId> = Vec::new();
        let mut k: usize = 0;
        while k < es.len()
            invariant
                k <= es@.len(),
                r@.len() == k,
                forall|m: int| 0 <= m < k ==> (#[trigger] r@[m])@ == es@[m]@.source,
            decreases es@.len() - k,
        {
            r.push(es[k].source);
            k = k + 1;
        }
        r
    }

    /// Returns the number of nodes.
    pub fn node_count(&self) -> (r: usize)
        ensures
            r == self@.nodes.len(),
    {
        self.nodes.len()
    }

    /// Returns the number of edges.
    pub fn edge_count(&self) -> (r: usize)
        ensures
            r == self@.edges.len(),
    {
        self.edges.len()
    }

    /// Returns true if the graph has no nodes.
    pub fn is_empty(&self) -> (r: bool)
        ensures
            r == (self@.nodes.len() == 0),
    {
        self.nodes.len() == 0
    }
}


// ---------------------------------------------------------------------------
// Mutation (crate-internal; the builder drives these)
// ---------------------------------------------------------------------------

impl RouteGraph {
    /// Inserts a node, returning its ID. O(1).
    /// Maintains adjacency indices and the cached root.
    pub(crate) fn add_node(&mut self, kind: NodeKind, label: String, metadata: Metadata) -> (r: NodeId)
        requires
            old(self).wf(),
            old(self)@.nodes.len() < u32::MAX,
        ensures
            final(self).wf(),
            final(self)@ == old(self)@.add_node(kind, label@, metadata@),
            r@ == old(self)@.nodes.len(),
    {
        let mut p = self.take_parts();
        let is_client = match kind {
            NodeKind::Client => true,
            _ => false,
        };
        let id = NodeId::from_index(p.nodes.len() as u32);
        let ghost nv = NodeView { id: id@, kind, label: label@, metadata: metadata@ };
        p.nodes.push(Node { id, kind, label, metadata });
        p.children_of.push(Vec::new());
        p.parents_of.push(Vec::new());
        if p.root_id.is_none() && is_client {
            p.root_id = Some(id);
        }
        proof {
            assert(p@.nodes =~= old(self)@.nodes.push(nv));
            assert(p@.edges =~= old(self)@.edges);
            lemma_out_edges_none(p@.edges, id@);
            lemma_in_edges_none(p@.edges, id@);
            assert(p.nodes@.last() == p.nodes@[p.nodes@.len() - 1]);
            assert(p@.nodes.drop_last() =~= old(self)@.nodes);
            assert forall|i: int| 0 <= i < p.nodes@.len() implies (
            #[trigger] p.children_of@[i])@ == out_edges(p@.edges, i as u32) by {
                if i < old(self).nodes@.len() {
                    assert(p.children_of@[i] == old(self).children_of@[i]);
                }
            }
            assert forall|i: int| 0 <= i < p.nodes@.len() implies (
            #[trigger] p.parents_of@[i])@ == in_edges(p@.edges, i as u32) by {
                if i < old(self).nodes@.len() {
                    assert(p.parents_of@[i] == old(self).parents_of@[i]);
                }
            }
        }
        *self = RouteGraph::from_parts(p);
        id
    }

    /// Inserts a directed edge. O(1).
    /// Maintains adjacency indices.
    pub(crate) fn add_edge(
        &mut self,
        source: NodeId,
        target: NodeId,
        condition: Option<EdgeCondition>,
    ) -> (r: usize)
        requires
            old(self).wf(),
            source@ < old(self)@.nodes.len(),
            target@ < old(self)@.nodes.len(),
            old(self)@.edges.len() < usize::MAX,
        ensures
            final(self).wf(),
            final(self)@ == old(self)@.add_edge(source@, target@, opt_condition(condition)),
            r == old(self)@.edges.len(),
    {
        let mut p = self.take_parts();
        let idx = p.edges.len();
        let ghost ev = EdgeView { source: source@, target: target@, condition: opt_condition(condition) };
        p.edges.push(Edge { source, target, condition });
        let s = source.as_u32() as usize;
        let t = target.as_u32() as usize;
        p.children_of[s].push(idx);
        p.parents_of[t].push(idx);
        proof {
            assert(p@.nodes =~= old(self)@.nodes);
            assert(p@.edges =~= old(self)@.edges.push(ev));
            assert(p@.edges.drop_last() =~= old(self)@.edges);
            assert(p@.edges.last() == ev);
            assert forall|i: int| 0 <= i < p.nodes@.len() implies (
            #[trigger] p.children_of@[i])@ == out_edges(p@.edges, i as u32) by {
                if i != s {
                    assert(p.children_of@[i] == old(self).children_of@[i]);
                }
            }
            assert forall|i: int| 0 <= i < p.nodes@.len() implies (
            #[trigger] p.parents_of@[i])@ == in_edges(p@.edges, i as u32) by {
                if i != t {
                    assert(p.parents_of@[i] == old(self).parents_of@[i]);
                }
            }
            assert forall|e: int| 0 <= e < p@.edges.len() implies (
            #[trigger] p@.edges[e]).source < p@.nodes.len() && p@.edges[e].target
                < p@.nodes.len() by {
                if e < old(self)@.edges.len() {
                    assert(p@.edges[e] == old(self)@.edges[e]);
                }
            }
        }
        *self = RouteGraph::from_parts(p);
        idx
    }

    /// Directly sets the condition on an edge by index (no effect when there
    /// is no such edge). O(1).
    pub(crate) fn set_edge_condition_by_idx(&mut self, edge_idx: usize, condition: EdgeCondition)
        requires
            old(self).wf(),
        ensures
            final(self).wf(),
            final(self)@ == old(self)@.set_condition(edge_idx as int, condition@),
    {
        let mut p = self.take_parts();
        if edge_idx < p.edges.len() {
            let ghost cv = condition@;
            p.edges[edge_idx].condition = Some(condition);
            proof {
                let o = old(self)@.edges[edge_idx as int];
                assert(p@.nodes =~= old(self)@.nodes);
                assert(p@.edges =~= old(self)@.edges.update(
                    edge_idx as int,
                    EdgeView { condition: Some(cv), ..o },
                ));
                assert forall|i: int| 0 <= i < p.nodes@.len() implies out_edges(
                    p@.edges,
                    i as u32,
                ) == #[trigger] out_edges(old(self)@.edges, i as u32) by {
                    lemma_out_edges_same(p@.edges, old(self)@.edges, i as u32);
                }
                assert forall|i: int| 0 <= i < p.nodes@.len() implies in_edges(
                    p@.edges,
                    i as u32,
                ) == #[trigger] in_edges(old(self)@.edges, i as u32) by {
                    lemma_in_edges_same(p@.edges, old(self)@.edges, i as u32);
                }
                assert forall|e: int| 0 <= e < p@.edges.len() implies (
                #[trigger] p@.edges[e]).source < p@.nodes.len() && p@.edges[e].target
                    < p@.nodes.len() by {
                    assert(p@.edges[e].source == old(self)@.edges[e].source);
                }
            }
        }
        *self = RouteGraph::from_parts(p);
    }


    /// Sets the port of node `id`.
    pub(crate) fn set_node_port(&mut self, id: NodeId, port: u16)
        requires
            old(self).wf(),
            id@ < old(self)@.nodes.len(),
        ensures
            final(self).wf(),
            final(self)@ == old(self)@.set_metadata(
                id@ as int,
                MetadataView { port: Some(port), ..old(self)@.nodes[id@ as int].metadata },
            ),
    {
        let mut p = self.take_parts();
        let i = id.as_u32() as usize;
        p.nodes[i].metadata.port = Some(port);
        proof {
            p.lemma_metadata_update(
                &*old(self),
                i as int,
                MetadataView { port: Some(port), ..old(self)@.nodes[i as int].metadata },
            );
        }
        *self = RouteGraph::from_parts(p);
    }

    /// Sets the protocol of node `id`.
    pub(crate) fn set_node_protocol(&mut self, id: NodeId, protocol: Protocol)
        requires
            old(self).wf(),
            id@ < old(self)@.nodes.len(),
        ensures
            final(self).wf(),
            final(self)@ == old(self)@.set_metadata(
                id@ as int,
                MetadataView { protocol: Some(protocol), ..old(self)@.nodes[id@ as int].metadata },
            ),
    {
        let mut p = self.take_parts();
        let i = id.as_u32() as usize;
        p.nodes[i].metadata.protocol = Some(protocol);
        proof {
            p.lemma_metadata_update(
                &*old(self),
                i as int,
                MetadataView { protocol: Some(protocol), ..old(self)@.nodes[i as int].metadata },
            );
        }
        *self = RouteGraph::from_parts(p);
    }

    /// Sets the TLS configuration of node `id`.
    pub(crate) fn set_node_tls(&mut self, id: NodeId, tls: TlsConfig)
        requires
            old(self).wf(),
            id@ < old(self)@.nodes.len(),
        ensures
            final(self).wf(),
            final(self)@ == old(self)@.set_metadata(
                id@ as int,
                MetadataView { tls: Some(tls@), ..old(self)@.nodes[id@ as int].metadata },
            ),
    {
        let mut p = self.take_parts();
        let i = id.as_u32() as usize;
        let ghost tv = tls@;
        p.nodes[i].metadata.tls = Some(tls);
        proof {
            p.lemma_metadata_update(
                &*old(self),
                i as int,
                MetadataView { tls: Some(tv), ..old(self)@.nodes[i as int].metadata },
            );
        }
        *self = RouteGraph::from_parts(p);
    }

    /// Appends a custom key-value pair to the metadata of node `id`.
    pub(crate) fn push_node_custom(&mut self, id: NodeId, key: String, value: String)
        requires
            old(self).wf(),
            id@ < old(self)@.nodes.len(),
        ensures
            final(self).wf(),
            final(self)@ == old(self)@.set_metadata(
                id@ as int,
                MetadataView {
                    custom: old(self)@.nodes[id@ as int].metadata.custom.push((key@, value@)),
                    ..old(self)@.nodes[id@ as int].metadata
                },
            ),
    {
        let mut p = self.take_parts();
        let i = id.as_u32() as usize;
        let ghost kv = (key@, value@);
        let ghost old_custom = p.nodes@[i as int].metadata.custom@;
        p.nodes[i].metadata.custom.push((key, value));
        proof {
            assert(pairs_text(p.nodes@[i as int].metadata.custom@) =~= pairs_text(old_custom).push(kv));
            p.lemma_metadata_update(
                &*old(self),
                i as int,
                MetadataView {
                    custom: old(self)@.nodes[i as int].metadata.custom.push(kv),
                    ..old(self)@.nodes[i as int].metadata
                },
            );
        }
        *self = RouteGraph::from_parts(p);
    }
}

proof fn lemma_out_edges_same(a: Seq<EdgeView>, b: Seq<EdgeView>, n: u32)
    requires
        a.len() == b.len(),
        forall|i: int| 0 <= i < a.len() ==> (#[trigger] a[i]).source == b[i].source,
    ensures
        out_edges(a, n) == out_edges(b, n),
    decreases a.len(),
{
    if a.len() > 0 {
        lemma_out_edges_same(a.drop_last(), b.drop_last(), n);
        assert(a.last().source == b.last().source);
    }
}

/// Edge lists with the same targets, in order, list the same edges entering `n`.
pub proof fn lemma_in_edges_same(a: Seq<EdgeView>, b: Seq<EdgeView>, n: u32)
    requires
        a.len() == b.len(),
        forall|i: int| 0 <= i < a.len() ==> (#[trigger] a[i]).target == b[i].target,
    ensures
        in_edges(a, n) == in_edges(b, n),
    decreases a.len(),
{
    if a.len() > 0 {
        lemma_in_edges_same(a.drop_last(), b.drop_last(), n);
        assert(a.last().target == b.last().target);
    }
}

proof fn lemma_first_client_same_kinds(a: Seq<NodeView>, b: Seq<NodeView>)
    requires
        a.len() == b.len(),
        forall|i: int| 0 <= i < a.len() ==> (#[trigger] a[i]).kind == b[i].kind,
    ensures
        first_client(a) == first_client(b),
        client_count(a) == client_count(b),
    decreases a.len(),
{
    if a.len() > 0 {
        lemma_first_client_same_kinds(a.drop_last(), b.drop_last());
        assert(a.last().kind == b.last().kind);
    }
}

// ---------------------------------------------------------------------------
// Validation
// ---------------------------------------------------------------------------

/// A validation error found in a [`RouteGraph`].
#[derive(Debug, Clone, PartialEq, Eq)]
pub struct ValidationError {
    /// Description of the problem.
    pub message: String,
}

impl ValidationError {
    /// The displayed form of the error: its message.
    pub fn to_string(&self) -> (r: String)
        ensures
            r@ == self.message@,
    {
        self.message.clone()
    }
}

/// The messages of a list of validation errors.
pub open spec fn messages(v: Seq<ValidationError>) -> Seq<Seq<char>> {
    v.map_values(|e: ValidationError| e.message@)
}

fn push_error(errors: &mut Vec<ValidationError>, message: String)
    ensures
        messages(final(errors)@) == messages(old(errors)@).push(message@),
{
    let ghost m = message@;
    errors.push(ValidationError { message });
    assert(messages(errors@) =~= messages(old(errors)@).push(m));
}

fn id_message(prefix: &str, id: NodeId) -> (r: String)
    ensures
        r@ == prefix@ + id_text(id@),
{
    let mut s = string_of(prefix);
    let t = id.to_string();
    s.append(t.as_str());
    s
}

impl RouteGraph {
    /// Validates graph integrity. Returns `Ok(())` if valid,
    /// or a list of validation errors.
    ///
    /// The errors are, in order: for each edge, a reference to a missing source
    /// or target and a self-loop; more than one `Client` node; incoming edges
    /// on the first `Client` node.
    pub fn validate(&self) -> (r: Result<(), Vec<ValidationError>>)
        ensures
            r is Ok <==> self@.problems().len() == 0,
            r matches Err(errs) ==> messages(errs@) == self@.problems(),
    {
        proof {
            use_type_invariant(self);
        }
        let mut errors: Vec<ValidationError> = Vec::new();
        let n = self.nodes.len();
        let mut i: usize = 0;
        assert(messages(errors@) =~= Seq::<Seq<char>>::empty());
        assert(self@.edges.take(0) =~= Seq::<EdgeView>::empty());
        while i < self.edges.len()
            invariant
                self.wf(),
                n == self@.nodes.len(),
                i <= self@.edges.len(),
                messages(errors@) == edges_problems(self@.edges.take(i as int), n as nat),
            decreases self@.edges.len() - i,
        {
            let ghost before = messages(errors@);
            let ghost ev = self@.edges[i as int];
            let e = &self.edges[i];
            let src = e.source.as_u32() as usize;
            let tgt = e.target.as_u32() as usize;
            let ghost s1 = if src >= n {
                seq!["edge references invalid source "@ + id_text(ev.source)]
            } else {
                Seq::<Seq<char>>::empty()
            };
            let ghost s2 = if tgt >= n {
                seq!["edge references invalid target "@ + id_text(ev.target)]
            } else {
                Seq::<Seq<char>>::empty()
            };
            let ghost s3 = if ev.source == ev.target {
                seq!["self-loop on node "@ + id_text(ev.source)]
            } else {
                Seq::<Seq<char>>::empty()
            };
            if src >= n {
                push_error(&mut errors, id_message("edge references invalid source ", e.source));
            }
            assert(messages(errors@) =~= before + s1);
            if tgt >= n {
                push_error(&mut errors, id_message("edge references invalid target ", e.target));
            }
            assert(messages(errors@) =~= before + s1 + s2);
            if e.source == e.target {
                push_error(&mut errors, id_message("self-loop on node ", e.source));
            }
            assert(messages(errors@) =~= before + s1 + s2 + s3);
            assert(self@.edges.take(i + 1).drop_last() =~= self@.edges.take(i as int));
            assert(self@.edges.take(i + 1).last() == ev);
            i = i + 1;
        }
        assert(self@.edges.take(i as int) =~= self@.edges);
        let ghost after_edges = messages(errors@);

        // Count the clients and find the first one.
        let mut count: usize = 0;
        let mut first: Option<usize> = None;
        let mut j: usize = 0;
        assert(self@.nodes.take(0) =~= Seq::<NodeView>::empty());
        while j < self.nodes.len()
            invariant
                self.wf(),
                j <= self@.nodes.len(),
                count as nat == client_count(self@.nodes.take(j as int)),
                count <= j,
                match first {
                    Some(c) => first_client(self@.nodes.take(j as int)) == Some(c as int),
                    None => first_client(self@.nodes.take(j as int)) is None,
                },
            decreases self@.nodes.len() - j,
        {
            let ghost t = self@.nodes.take(j + 1);
            assert(t.drop_last() =~= self@.nodes.take(j as int));
            assert(t.last() == self@.nodes[j as int]);
            if let NodeKind::Client = self.nodes[j].kind {
                count = count + 1;
                if first.is_none() {
                    first = Some(j);
                }
            }
            j = j + 1;
        }
        assert(self@.nodes.take(j as int) =~= self@.nodes);
        if count > 1 {
            let mut m = String::new();
            push_decimal(&mut m, count as u64);
            m.append(" Client nodes found, expected at most 1");
            push_error(&mut errors, m);
        }
        let ghost after_count = messages(errors@);
        if let Some(c) = first {
            proof {
                lemma_first_client(self@.nodes);
            }
            if self.parents_of[c].len() > 0 {
                push_error(&mut errors, string_of("Client node must have no incoming edges"));
            }
        }
        assert(messages(errors@) =~= self@.problems());
        if errors.len() == 0 {
            Ok(())
        } else {
            Err(errors)
        }
    }
}

fn copy_opt_string(o: &Option<String>) -> (r: Option<String>)
    ensures
        opt_text(r) == opt_text(*o),
{
    match o {
        Some(s) => Some(s.clone()),
        None => None,
    }
}

fn copy_metadata(m: &Metadata) -> (r: Metadata)
    ensures
        r@ == m@,
{
    let tls = match &m.tls {
        Some(t) => Some(
            TlsConfig { auto: t.auto, cert_path: copy_opt_string(&t.cert_path), sni: copy_opt_string(&t.sni) },
        ),
        None => None,
    };
    let mut custom: Vec<(String, String)> = Vec::new();
    let mut i: usize = 0;
    while i < m.custom.len()
        invariant
            i <= m.custom@.len(),
            pairs_text(custom@) == pairs_text(m.custom@).take(i as int),
        decreases m.custom@.len() - i,
    {
        let ghost before = custom@;
        let (k, v) = &m.custom[i];
        custom.push((k.clone(), v.clone()));
        assert(pairs_text(custom@) =~= pairs_text(before).push((k@, v@)));
        assert(pairs_text(m.custom@).take(i + 1) =~= pairs_text(m.custom@).take(i as int).push(
            pairs_text(m.custom@)[i as int],
        ));
        i = i + 1;
    }
    assert(pairs_text(m.custom@).take(i as int) =~= pairs_text(m.custom@));
    Metadata { port: m.port, protocol: m.protocol, tls, custom }
}

fn copy_condition(c: &Option<EdgeCondition>) -> (r: Option<EdgeCondition>)
    ensures
        opt_condition(r) == opt_condition(*c),
{
    match c {
        Some(EdgeCondition::Always) => Some(EdgeCondition::Always),
        Some(EdgeCondition::PathGlob(p)) => Some(EdgeCondition::PathGlob(p.clone())),
        Some(EdgeCondition::PathPrefix(p)) => Some(EdgeCondition::PathPrefix(p.clone())),
        Some(EdgeCondition::PathExact(p)) => Some(EdgeCondition::PathExact(p.clone())),
        Some(EdgeCondition::HeaderMatch { name, value }) => Some(
            EdgeCondition::HeaderMatch { name: name.clone(), value: value.clone() },
        ),
        Some(EdgeCondition::Method(m)) => Some(EdgeCondition::Method(m.clone())),
        None => None,
    }
}

impl Clone for RouteGraph {
    /// A copy of the graph, node for node and edge for edge.
    fn clone(&self) -> (r: Self)
        ensures
            r@ == self@,
    {
        proof {
            use_type_invariant(self);
        }
        let mut g = RouteGraph::new();
        let mut i: usize = 0;
        assert(self@.nodes.take(0) =~= Seq::<NodeView>::empty());
        while i < self.nodes.len()
            invariant
                self.wf(),
                self@.inv(),
                i <= self.nodes@.len(),
                g@.nodes == self@.nodes.take(i as int),
                g@.edges == Seq::<EdgeView>::empty(),
            decreases self.nodes@.len() - i,
        {
            proof {
                use_type_invariant(&g);
            }
            let n = &self.nodes[i];
            assert(self@.nodes[i as int] == n@);
            g.add_node(n.kind, n.label.clone(), copy_metadata(&n.metadata));
            assert(self@.nodes.take(i + 1) =~= self@.nodes.take(i as int).push(self@.nodes[i as int]));
            i = i + 1;
        }
        assert(self@.nodes.take(i as int) =~= self@.nodes);
        let mut j: usize = 0;
        assert(self@.edges.take(0) =~= Seq::<EdgeView>::empty());
        while j < self.edges.len()
            invariant
                self.wf(),
                self@.inv(),
                j <= self.edges@.len(),
                g@.nodes == self@.nodes,
                g@.edges == self@.edges.take(j as int),
            decreases self.edges@.len() - j,
        {
            proof {
                use_type_invariant(&g);
            }
            let e = &self.edges[j];
            assert(self@.edges[j as int] == e@);
            g.add_edge(e.source, e.target, copy_condition(&e.condition));
            assert(self@.edges.take(j + 1) =~= self@.edges.take(j as int).push(self@.edges[j as int]));
            j = j + 1;
        }
        assert(self@.edges.take(j as int) =~= self@.edges);
        g
    }
}

impl Default for RouteGraph {
    fn default() -> (r: Self)
        ensures
            r.wf(),
            r@ == GraphView::empty(),
    {
        Self::new()
    }
}

} // verus!
