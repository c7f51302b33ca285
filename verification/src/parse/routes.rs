//! From Caddyfile site blocks to a routing graph.
//!
//! Each address of a site block (each comma-separated piece of it) becomes a
//! `Listener` node, with a `Host` node unless the address is a bare port,
//! under the single `Client` root; the site's directives hang below it.
use vstd::prelude::*;
use vstd::string::*;

use crate::builder::{
    lemma_context_changes_keep_rooted_tree, lemma_push_keeps_rooted_tree, BuilderView,
    RouteGraphBuilder,
};
use crate::model::{
    auto_tls, client_count, EdgeView, in_edges, lemma_in_edges_none, lemma_in_edges_same, NodeView, ConditionView, EdgeCondition, GraphView, MetadataView, NodeKind, Protocol,
    RouteGraph,
};
use crate::parse::syntax::{
    directive_view, directives_view, exec_looks_like_path, looks_like_path, site_view,
    sites_view, strings_view, Directive, DirectiveView, SiteBlock, SiteView,
};
use crate::text::{
    chars_of, decimal, exec_parse_u16, exec_rfind, exec_starts_with, parse_u16, push_decimal,
    rfind, split, split_bounds, starts_with, string_from_chars, string_of, str_eq, trim,
    trim_bounds,
};

verus! {

// ---------------------------------------------------------------------------
// Addresses and labels
// ---------------------------------------------------------------------------

/// The listener label, host label and port of a site address: `:port`
/// alone gives a listener only; `host:port` gives `:port` and `host` when
/// the port parses; anything else listens on `:80`.
pub open spec fn address_parts(addr: Seq<char>) -> (Seq<char>, Option<Seq<char>>, Option<u16>) {
    let a = trim(addr);
    if a.len() > 0 && a[0] == ':' {
        (a, None, parse_u16(a.drop_first()))
    } else {
        match rfind(a, ':') {
            Some(c) => match parse_u16(a.subrange(c + 1, a.len() as int)) {
                Some(port) => (":"@ + decimal(port as nat), Some(a.take(c)), Some(port)),
                None => (":80"@, Some(a), Some(80u16)),
            },
            None => (":80"@, Some(a), Some(80u16)),
        }
    }
}

/// Words joined by a separator (`[String]::join`).
pub open spec fn join(v: Seq<Seq<char>>, sep: Seq<char>) -> Seq<char>
    decreases v.len(),
{
    if v.len() == 0 {
        Seq::empty()
    } else if v.len() == 1 {
        v[0]
    } else {
        join(v.drop_last(), sep) + sep + v.last()
    }
}

/// The directives that are shown as middleware.
pub open spec fn is_middleware(name: Seq<char>) -> bool {
    ||| name == "encode"@
    ||| name == "decode"@
    ||| name == "log"@
    ||| name == "header"@
    ||| name == "request_body"@
    ||| name == "templates"@
    ||| name == "cache"@
    ||| name == "rate_limit"@
    ||| name == "authentication"@
    ||| name == "authorize"@
    ||| name == "cors"@
    ||| name == "compress"@
    ||| name == "deflate"@
    ||| name == "gzip"@
}

/// The label of a middleware directive: its name, then its words.
pub open spec fn middleware_label(name: Seq<char>, args: Seq<Seq<char>>) -> Seq<char> {
    if args.len() == 0 {
        name
    } else {
        name + " "@ + join(args, " "@)
    }
}

pub open spec fn rewrite_label(to: Seq<char>) -> Seq<char> {
    "rewrite → "@ + to
}

pub open spec fn redir_label(to: Seq<char>, code: Option<Seq<char>>) -> Seq<char> {
    "redir → "@ + to + " ["@ + (match code {
        Some(c) => c,
        None => "302"@,
    }) + "]"@
}

// ---------------------------------------------------------------------------
// What the graph construction computes
// ---------------------------------------------------------------------------

/// A middleware node, under a path matcher node when the matcher looks like a path.
pub open spec fn guarded_middleware(matcher: Option<Seq<char>>, label: Seq<char>, b: BuilderView) -> BuilderView {
    match matcher {
        Some(m) => if looks_like_path(m) {
            b.push(NodeKind::PathMatch, m).push(NodeKind::Middleware, label).pop().pop()
        } else {
            b.push(NodeKind::Middleware, label).pop()
        },
        None => b.push(NodeKind::Middleware, label).pop(),
    }
}

/// The nodes and edges that one directive adds below the current context.
pub open spec fn process_one(d: DirectiveView, b: BuilderView) -> BuilderView
    decreases d,
{
    match d {
        DirectiveView::ReverseProxy { matcher, upstream } => match matcher {
            Some(m) => if looks_like_path(m) {
                b.push(NodeKind::PathMatch, m).set_condition(ConditionView::PathGlob(m)).push(
                    NodeKind::Backend,
                    upstream,
                ).pop().pop()
            } else {
                b.push(NodeKind::Backend, upstream).pop()
            },
            None => b.push(NodeKind::Backend, upstream).pop(),
        },
        DirectiveView::Handle { matcher, directives } => {
            let b1 = b.push(
                NodeKind::PathMatch,
                match matcher {
                    Some(m) => m,
                    None => "*"@,
                },
            );
            let b2 = match matcher {
                Some(m) => if looks_like_path(m) {
                    b1.set_condition(ConditionView::PathGlob(m))
                } else {
                    b1
                },
                None => b1,
            };
            process(directives, b2).pop()
        },
        DirectiveView::HandlePath { path, directives } => {
            let b1 = b.push(NodeKind::PathMatch, path).set_condition(
                ConditionView::PathPrefix(path),
            ).push(NodeKind::Middleware, "strip_prefix"@).add_custom("prefix"@, path);
            process(directives, b1).pop().pop()
        },
        DirectiveView::Rewrite { matcher, to } => guarded_middleware(matcher, rewrite_label(to), b),
        DirectiveView::Redir { matcher, to, code } => guarded_middleware(
            matcher,
            redir_label(to, code),
            b,
        ),
        DirectiveView::Other { name, args } => if is_middleware(name) {
            b.push(NodeKind::Middleware, middleware_label(name, args)).pop()
        } else {
            b
        },
    }
}

/// Each of the directives `encode`, `decode`, `log`, `header`,
/// `request_body`, `templates`, `cache`, `rate_limit`, `authentication`,
/// `authorize`, `cors`, `compress`, `deflate` and `gzip` adds one
/// `Middleware` node, labelled with its name and then its words separated by
/// spaces, as a child of the current context, which stays current; any other
/// name that reaches this point adds nothing.
pub proof fn lemma_middleware_directive(name: Seq<char>, args: Seq<Seq<char>>, b: BuilderView)
    requires
        b.stack.len() > 0,
    ensures
        ({
            let listed = name == "encode"@ || name == "decode"@ || name == "log"@ || name == "header"@
                || name == "request_body"@ || name == "templates"@ || name == "cache"@ || name
                == "rate_limit"@ || name == "authentication"@ || name == "authorize"@ || name
                == "cors"@ || name == "compress"@ || name == "deflate"@ || name == "gzip"@;
            let r = process_one(DirectiveView::Other { name, args }, b);
            let label = if args.len() == 0 {
                name
            } else {
                name + " "@ + join(args, " "@)
            };
            &&& listed ==> r.graph.nodes == b.graph.nodes.push(
                NodeView {
                    id: b.graph.nodes.len() as u32,
                    kind: NodeKind::Middleware,
                    label,
                    metadata: crate::model::empty_metadata(),
                },
            )
            &&& listed ==> r.graph.edges == b.graph.edges.push(
                EdgeView {
                    source: b.stack.last(),
                    target: b.graph.nodes.len() as u32,
                    condition: None,
                },
            )
            &&& listed ==> r.stack == b.stack
            &&& !listed ==> r == b
        }),
{
    let r = b.push(NodeKind::Middleware, middleware_label(name, args));
    assert(r.pop().stack =~= b.stack);
}

/// The nodes and edges that a list of directives adds, in order.
pub open spec fn process(ds: Seq<DirectiveView>, b: BuilderView) -> BuilderView
    decreases ds,
{
    if ds.len() == 0 {
        b
    } else {
        process_one(ds[ds.len() - 1], process(ds.subrange(0, ds.len() - 1), b))
    }
}

/// The listener (and host) of one address, with the site's directives below.
/// Port 443 or an `https://` address means HTTPS with automatic TLS; otherwise HTTP.
pub open spec fn build_site(addr: Seq<char>, ds: Seq<DirectiveView>, b: BuilderView) -> BuilderView {
    let (listener, host, port) = address_parts(addr);
    let b1 = b.push(NodeKind::Listener, listener);
    let b2 = match port {
        Some(p) => b1.set_port(p),
        None => b1,
    };
    let b3 = if port == Some(443u16) || starts_with(addr, "https://"@) {
        b2.set_protocol(Protocol::Https).set_tls_auto()
    } else {
        b2.set_protocol(Protocol::Http)
    };
    let b4 = match host {
        Some(h) => b3.push(NodeKind::Host, h),
        None => b3,
    };
    let b5 = process(ds, b4);
    let b6 = match host {
        Some(_) => b5.pop(),
        None => b5,
    };
    b6.pop()
}

/// One site per non-blank comma-separated piece of an address.
pub open spec fn build_pieces(pieces: Seq<Seq<char>>, ds: Seq<DirectiveView>, b: BuilderView) -> BuilderView
    decreases pieces.len(),
{
    if pieces.len() == 0 {
        b
    } else {
        let b0 = build_pieces(pieces.drop_last(), ds, b);
        let a = trim(pieces.last());
        if a.len() == 0 {
            b0
        } else {
            build_site(a, ds, b0)
        }
    }
}

/// The sites of all addresses of a block, in order.
pub open spec fn build_addresses(addrs: Seq<Seq<char>>, ds: Seq<DirectiveView>, b: BuilderView) -> BuilderView
    decreases addrs.len(),
{
    if addrs.len() == 0 {
        b
    } else {
        build_pieces(split(addrs.last(), ','), ds, build_addresses(addrs.drop_last(), ds, b))
    }
}

/// The sites of all blocks, in order.
pub open spec fn build_sites(sites: Seq<SiteView>, b: BuilderView) -> BuilderView
    decreases sites.len(),
{
    if sites.len() == 0 {
        b
    } else {
        let s = sites.last();
        build_addresses(s.addresses, s.directives, build_sites(sites.drop_last(), b))
    }
}

/// The builder holding only the `Client` root.
pub open spec fn client_root() -> BuilderView {
    BuilderView::empty().push(NodeKind::Client, "Client"@)
}

/// The routing graph of a list of site blocks.
pub open spec fn graph_of(sites: Seq<SiteView>) -> GraphView {
    build_sites(sites, client_root()).graph
}

// ---------------------------------------------------------------------------
// Node counts
// ---------------------------------------------------------------------------

/// How many nodes a matcher-guarded step adds: a path matcher node when the
/// matcher looks like a path, and the step's own node.
pub open spec fn guarded_nodes(matcher: Option<Seq<char>>) -> nat {
    match matcher {
        Some(m) => if looks_like_path(m) {
            2
        } else {
            1
        },
        None => 1,
    }
}

/// How many nodes one directive adds.
pub open spec fn dir_nodes(d: DirectiveView) -> nat
    decreases d,
{
    match d {
        DirectiveView::ReverseProxy { matcher, .. } => guarded_nodes(matcher),
        DirectiveView::Handle { directives, .. } => 1 + dirs_nodes(directives),
        DirectiveView::HandlePath { directives, .. } => 2 + dirs_nodes(directives),
        DirectiveView::Rewrite { matcher, .. } => guarded_nodes(matcher),
        DirectiveView::Redir { matcher, .. } => guarded_nodes(matcher),
        DirectiveView::Other { name, .. } => if is_middleware(name) {
            1
        } else {
            0
        },
    }
}

/// How many nodes a list of directives adds.
pub open spec fn dirs_nodes(ds: Seq<DirectiveView>) -> nat
    decreases ds,
{
    if ds.len() == 0 {
        0
    } else {
        dirs_nodes(ds.subrange(0, ds.len() - 1)) + dir_nodes(ds[ds.len() - 1])
    }
}

/// How many nodes the site of one address adds: its listener, its host if
/// it has one, and the directives.
pub open spec fn site_nodes(addr: Seq<char>, ds: Seq<DirectiveView>) -> nat {
    (if address_parts(addr).1 is Some {
        2nat
    } else {
        1nat
    }) + dirs_nodes(ds)
}

/// How many nodes one comma-separated piece of an address adds (none when blank).
pub open spec fn piece_nodes(piece: Seq<char>, ds: Seq<DirectiveView>) -> nat {
    if trim(piece).len() == 0 {
        0
    } else {
        site_nodes(trim(piece), ds)
    }
}

/// How many nodes the pieces of an address add.
pub open spec fn pieces_nodes(pieces: Seq<Seq<char>>, ds: Seq<DirectiveView>) -> nat
    decreases pieces.len(),
{
    if pieces.len() == 0 {
        0
    } else {
        pieces_nodes(pieces.drop_last(), ds) + piece_nodes(pieces.last(), ds)
    }
}

/// How many nodes the addresses of a site block add.
pub open spec fn addresses_nodes(addrs: Seq<Seq<char>>, ds: Seq<DirectiveView>) -> nat
    decreases addrs.len(),
{
    if addrs.len() == 0 {
        0
    } else {
        addresses_nodes(addrs.drop_last(), ds) + pieces_nodes(split(addrs.last(), ','), ds)
    }
}

/// How many nodes a list of site blocks adds.
pub open spec fn sites_nodes(sites: Seq<SiteView>) -> nat
    decreases sites.len(),
{
    if sites.len() == 0 {
        0
    } else {
        sites_nodes(sites.drop_last()) + addresses_nodes(sites.last().addresses, sites.last().directives)
    }
}

/// How many nodes the graph of a list of site blocks has: the `Client` and
/// what the sites add.
pub open spec fn graph_nodes(sites: Seq<SiteView>) -> nat {
    1 + sites_nodes(sites)
}


// ---------------------------------------------------------------------------
// Facts about the construction
// ---------------------------------------------------------------------------

/// The state the construction works in: a current node, context nodes that
/// exist, and room for an edge for each node that 32-bit identifiers can
/// still number.
pub open spec fn steady(b: BuilderView) -> bool {
    &&& b.stack.len() >= 1
    &&& b.graph.nodes.len() <= u32::MAX
    &&& b.graph.edges.len() + (u32::MAX - b.graph.nodes.len()) < usize::MAX
    &&& forall|k: int| 0 <= k < b.stack.len() ==> #[trigger] b.stack[k] < b.graph.nodes.len()
}

/// `g` keeps the nodes of `f`, with their kinds and labels, in place.
pub open spec fn keeps_nodes(f: GraphView, g: GraphView) -> bool {
    &&& f.nodes.len() <= g.nodes.len()
    &&& forall|i: int|
        0 <= i < f.nodes.len() ==> (#[trigger] g.nodes[i]).kind == f.nodes[i].kind
            && g.nodes[i].label == f.nodes[i].label
}

/// A listener carries a protocol, and one on port 443 is HTTPS with
/// automatic TLS.
pub open spec fn listener_ok(n: NodeView) -> bool {
    n.kind == NodeKind::Listener ==> {
        &&& n.metadata.protocol is Some
        &&& n.metadata.port == Some(443u16) ==> n.metadata.protocol == Some(Protocol::Https)
            && n.metadata.tls == Some(auto_tls())
    }
}

/// Every listener of the graph is as [`listener_ok`] says.
pub open spec fn listeners_ok(g: GraphView) -> bool {
    forall|i: int| 0 <= i < g.nodes.len() ==> listener_ok(#[trigger] g.nodes[i])
}

/// Whether an edge between nodes of these kinds follows the request flow
/// `Client → Listener → Host → PathMatch → [Middleware]* → Backend`: the
/// client leads to listeners and only it does, hosts sit below listeners,
/// and nothing follows a backend.
pub open spec fn flow_step(from: NodeKind, to: NodeKind) -> bool {
    &&& (from == NodeKind::Client <==> to == NodeKind::Listener)
    &&& to == NodeKind::Host ==> from == NodeKind::Listener
    &&& from != NodeKind::Backend
}

/// Every edge of the graph follows the request flow.
pub open spec fn follows_request_flow(g: GraphView) -> bool {
    forall|e: int|
        0 <= e < g.edges.len() ==> flow_step(
            g.nodes[(#[trigger] g.edges[e]).source as int].kind,
            g.nodes[g.edges[e].target as int].kind,
        )
}

/// The kind of the current context node.
pub open spec fn current_kind(b: BuilderView) -> NodeKind {
    b.graph.nodes[b.stack.last() as int].kind
}

/// The graph follows the request flow, and the context nodes are the
/// `Client` at the bottom of the stack and no backend.
pub open spec fn flow_state(b: BuilderView) -> bool {
    &&& follows_request_flow(b.graph)
    &&& forall|k: int|
        0 <= k < b.stack.len() ==> b.graph.nodes[#[trigger] b.stack[k] as int].kind
            != NodeKind::Backend && (b.graph.nodes[b.stack[k] as int].kind == NodeKind::Client
            <==> k == 0)
}

/// Node 0 has no edge entering it, and every other node exactly one: the
/// graph is a tree below node 0.
pub open spec fn one_parent(g: GraphView) -> bool {
    &&& in_edges(g.edges, 0).len() == 0
    &&& forall|v: int| 0 < v < g.nodes.len() ==> #[trigger] in_edges(g.edges, v as u32).len() == 1
}

/// A change that keeps the edges' targets keeps the edges entering each node.
proof fn lemma_one_parent_kept(f: GraphView, g: GraphView)
    requires
        one_parent(f),
        f.nodes.len() == g.nodes.len(),
        f.edges.len() == g.edges.len(),
        forall|e: int| 0 <= e < f.edges.len() ==> (#[trigger] g.edges[e]).target == f.edges[e].target,
    ensures
        one_parent(g),
{
    lemma_in_edges_same(f.edges, g.edges, 0);
    assert forall|v: int| 0 < v < g.nodes.len() implies #[trigger] in_edges(g.edges, v as u32).len() == 1 by {
        lemma_in_edges_same(f.edges, g.edges, v as u32);
    }
}

proof fn lemma_push_step(b: BuilderView, kind: NodeKind, label: Seq<char>)
    requires
        steady(b),
        b.graph.nodes.len() < u32::MAX,
        kind != NodeKind::Client,
    ensures
        b.push(kind, label).stack == b.stack.push(b.graph.nodes.len() as u32),
        b.push(kind, label).graph.nodes.len() == b.graph.nodes.len() + 1,
        b.push(kind, label).graph.edges.len() == b.graph.edges.len() + 1,
        b.push(kind, label).last_edge == Some(b.graph.edges.len() as usize),
        steady(b.push(kind, label)),
        keeps_nodes(b.graph, b.push(kind, label).graph),
        b.rooted_tree() ==> b.push(kind, label).rooted_tree(),
        kind != NodeKind::Listener && listeners_ok(b.graph) ==> listeners_ok(b.push(kind, label).graph),
        b.rooted_tree() && flow_state(b) && flow_step(current_kind(b), kind) ==> follows_request_flow(
            b.push(kind, label).graph,
        ),
        b.rooted_tree() && flow_state(b) && flow_step(current_kind(b), kind) && kind
            != NodeKind::Backend ==> flow_state(b.push(kind, label)),
        b.rooted_tree() && one_parent(b.graph) ==> one_parent(b.push(kind, label).graph),
{
    let r = b.push(kind, label);
    assert forall|k: int| 0 <= k < r.stack.len() implies #[trigger] r.stack[k] < r.graph.nodes.len() by {
        if k < b.stack.len() {
            assert(r.stack[k] == b.stack[k]);
        }
    }
    assert forall|i: int| 0 <= i < b.graph.nodes.len() implies (#[trigger] r.graph.nodes[i]).kind
        == b.graph.nodes[i].kind && r.graph.nodes[i].label == b.graph.nodes[i].label by {
        assert(r.graph.nodes[i] == b.graph.nodes[i]);
    }
    if b.rooted_tree() {
        lemma_push_keeps_rooted_tree(b, kind, label);
    }
    if kind != NodeKind::Listener && listeners_ok(b.graph) {
        assert forall|i: int| 0 <= i < r.graph.nodes.len() implies listener_ok(#[trigger] r.graph.nodes[i]) by {
            if i < b.graph.nodes.len() {
                assert(r.graph.nodes[i] == b.graph.nodes[i]);
            }
        }
    }
    if b.rooted_tree() && one_parent(b.graph) {
        let n = b.graph.nodes.len();
        assert(r.graph.edges.drop_last() =~= b.graph.edges);
        assert(r.graph.edges.last().target == n as u32);
        assert(b.stack[0] < n);
        lemma_in_edges_none(b.graph.edges, n as u32);
        assert forall|v: int| 0 < v < r.graph.nodes.len() implies #[trigger] in_edges(
            r.graph.edges,
            v as u32,
        ).len() == 1 by {
            if v < n {
                assert(in_edges(b.graph.edges, v as u32).len() == 1);
            }
        }
    }
    if b.rooted_tree() && flow_state(b) && flow_step(current_kind(b), kind) {
        let top = b.stack[b.stack.len() - 1];
        let id = b.graph.nodes.len() as int;
        assert(r.graph.nodes[id].kind == kind);
        assert forall|e: int| 0 <= e < r.graph.edges.len() implies flow_step(
            r.graph.nodes[(#[trigger] r.graph.edges[e]).source as int].kind,
            r.graph.nodes[r.graph.edges[e].target as int].kind,
        ) by {
            if e < b.graph.edges.len() {
                assert(r.graph.edges[e] == b.graph.edges[e]);
                assert(r.graph.nodes[b.graph.edges[e].source as int] == b.graph.nodes[b.graph.edges[
                    e
                ].source as int]);
                assert(r.graph.nodes[b.graph.edges[e].target as int] == b.graph.nodes[b.graph.edges[
                    e
                ].target as int]);
            } else {
                assert(r.graph.edges[e].source == top);
                assert(r.graph.edges[e].target == id);
                assert(r.graph.nodes[top as int] == b.graph.nodes[top as int]);
            }
        }
        if kind != NodeKind::Backend {
            assert forall|k: int| 0 <= k < r.stack.len() implies r.graph.nodes[
            #[trigger] r.stack[k] as int].kind != NodeKind::Backend && (r.graph.nodes[
            r.stack[k] as int].kind == NodeKind::Client <==> k == 0) by {
                if k < b.stack.len() {
                    assert(r.stack[k] == b.stack[k]);
                    assert(r.graph.nodes[b.stack[k] as int] == b.graph.nodes[b.stack[k] as int]);
                }
            }
        }
    }
}

proof fn lemma_pop_step(b: BuilderView)
    requires
        b.stack.len() >= 2,
        steady(b),
    ensures
        b.pop().stack == b.stack.drop_last(),
        b.pop().graph == b.graph,
        steady(b.pop()),
        keeps_nodes(b.graph, b.pop().graph),
        b.rooted_tree() ==> b.pop().rooted_tree(),
        flow_state(b) ==> flow_state(b.pop()),
{
    let r = b.pop();
    assert forall|k: int| 0 <= k < r.stack.len() implies #[trigger] r.stack[k] < r.graph.nodes.len() by {
        assert(r.stack[k] == b.stack[k]);
    }
    if flow_state(b) {
        assert forall|k: int| 0 <= k < r.stack.len() implies r.graph.nodes[#[trigger] r.stack[k] as int].kind
            != NodeKind::Backend && (r.graph.nodes[r.stack[k] as int].kind == NodeKind::Client
            <==> k == 0) by {
            assert(r.stack[k] == b.stack[k]);
        }
    }
    if b.rooted_tree() {
        lemma_context_changes_keep_rooted_tree(b, ConditionView::Always, 0, Protocol::Http, Seq::empty(), Seq::empty());
    }
}

/// A backend pushed and popped again keeps the request flow.
proof fn lemma_backend_step(b: BuilderView, label: Seq<char>)
    requires
        steady(b),
        b.graph.nodes.len() < u32::MAX,
        b.rooted_tree(),
        flow_state(b),
        flow_step(current_kind(b), NodeKind::Backend),
    ensures
        flow_state(b.push(NodeKind::Backend, label).pop()),
{
    lemma_push_step(b, NodeKind::Backend, label);
    let r = b.push(NodeKind::Backend, label);
    assert(r.pop().stack =~= b.stack);
    assert forall|k: int| 0 <= k < b.stack.len() implies r.graph.nodes[#[trigger] b.stack[k] as int]
        == b.graph.nodes[b.stack[k] as int] by {}
}

/// A change that keeps the kinds of the nodes, the ends of the edges and the
/// stack keeps the request flow.
proof fn lemma_flow_kept(b: BuilderView, r: BuilderView)
    requires
        b.graph.inv(),
        flow_state(b),
        steady(b),
        keeps_nodes(b.graph, r.graph),
        r.stack == b.stack,
        r.graph.edges.len() == b.graph.edges.len(),
        forall|e: int|
            0 <= e < b.graph.edges.len() ==> (#[trigger] r.graph.edges[e]).source == b.graph.edges[e].source
                && r.graph.edges[e].target == b.graph.edges[e].target,
    ensures
        flow_state(r),
{
    assert forall|e: int| 0 <= e < r.graph.edges.len() implies flow_step(
        r.graph.nodes[(#[trigger] r.graph.edges[e]).source as int].kind,
        r.graph.nodes[r.graph.edges[e].target as int].kind,
    ) by {
        assert(flow_step(
            b.graph.nodes[b.graph.edges[e].source as int].kind,
            b.graph.nodes[b.graph.edges[e].target as int].kind,
        ));
    }
    assert forall|k: int| 0 <= k < r.stack.len() implies r.graph.nodes[#[trigger] r.stack[k] as int].kind
        != NodeKind::Backend && (r.graph.nodes[r.stack[k] as int].kind == NodeKind::Client
        <==> k == 0) by {
        assert(b.graph.nodes[b.stack[k] as int].kind != NodeKind::Backend);
    }
}

proof fn lemma_set_steps(b: BuilderView, c: ConditionView, port: u16, p: Protocol, key: Seq<char>, value: Seq<char>)
    requires
        steady(b),
    ensures
        steady(b.set_condition(c)),
        steady(b.set_port(port)),
        steady(b.set_protocol(p)),
        steady(b.set_tls_auto()),
        steady(b.add_custom(key, value)),
        keeps_nodes(b.graph, b.set_condition(c).graph),
        keeps_nodes(b.graph, b.set_port(port).graph),
        keeps_nodes(b.graph, b.set_protocol(p).graph),
        keeps_nodes(b.graph, b.set_tls_auto().graph),
        keeps_nodes(b.graph, b.add_custom(key, value).graph),
        b.set_condition(c).stack == b.stack,
        b.set_condition(c).graph.nodes.len() == b.graph.nodes.len(),
        b.set_condition(c).graph.edges.len() == b.graph.edges.len(),
        b.set_port(port).stack == b.stack,
        b.set_port(port).graph.nodes.len() == b.graph.nodes.len(),
        b.set_port(port).graph.edges.len() == b.graph.edges.len(),
        b.set_protocol(p).stack == b.stack,
        b.set_protocol(p).graph.nodes.len() == b.graph.nodes.len(),
        b.set_protocol(p).graph.edges.len() == b.graph.edges.len(),
        b.set_tls_auto().stack == b.stack,
        b.set_tls_auto().graph.nodes.len() == b.graph.nodes.len(),
        b.set_tls_auto().graph.edges.len() == b.graph.edges.len(),
        b.add_custom(key, value).stack == b.stack,
        b.add_custom(key, value).graph.nodes.len() == b.graph.nodes.len(),
        b.add_custom(key, value).graph.edges.len() == b.graph.edges.len(),
        b.rooted_tree() ==> b.set_condition(c).rooted_tree() && b.set_port(port).rooted_tree()
            && b.set_protocol(p).rooted_tree() && b.set_tls_auto().rooted_tree() && b.add_custom(
            key,
            value,
        ).rooted_tree(),
        listeners_ok(b.graph) ==> listeners_ok(b.set_condition(c).graph) && listeners_ok(
            b.add_custom(key, value).graph,
        ),
        one_parent(b.graph) ==> one_parent(b.set_condition(c).graph) && one_parent(
            b.set_port(port).graph,
        ) && one_parent(b.set_protocol(p).graph) && one_parent(b.set_tls_auto().graph) && one_parent(
            b.add_custom(key, value).graph,
        ),
        b.rooted_tree() && flow_state(b) ==> flow_state(b.set_condition(c)) && flow_state(
            b.set_port(port),
        ) && flow_state(b.set_protocol(p)) && flow_state(b.set_tls_auto()) && flow_state(
            b.add_custom(key, value),
        ),
{
    if listeners_ok(b.graph) {
        let r = b.add_custom(key, value);
        let id = b.stack[b.stack.len() - 1] as int;
        assert forall|i: int| 0 <= i < r.graph.nodes.len() implies listener_ok(#[trigger] r.graph.nodes[i]) by {
            assert(listener_ok(b.graph.nodes[i]));
            if i != id {
                assert(r.graph.nodes[i] == b.graph.nodes[i]);
            }
        }
    }
    if b.rooted_tree() {
        lemma_context_changes_keep_rooted_tree(b, c, port, p, key, value);
    }
    lemma_meta_keeps_nodes(b, |m: MetadataView| MetadataView { port: Some(port), ..m });
    lemma_meta_keeps_nodes(b, |m: MetadataView| MetadataView { protocol: Some(p), ..m });
    lemma_meta_keeps_nodes(b, |m: MetadataView| MetadataView { tls: Some(crate::model::auto_tls()), ..m });
    lemma_meta_keeps_nodes(b, |m: MetadataView| MetadataView { custom: m.custom.push((key, value)), ..m });
    if one_parent(b.graph) {
        assert forall|e: int| 0 <= e < b.graph.edges.len() implies (#[trigger] b.set_condition(
            c,
        ).graph.edges[e]).target == b.graph.edges[e].target by {}
        lemma_one_parent_kept(b.graph, b.set_condition(c).graph);
        lemma_one_parent_kept(b.graph, b.set_port(port).graph);
        lemma_one_parent_kept(b.graph, b.set_protocol(p).graph);
        lemma_one_parent_kept(b.graph, b.set_tls_auto().graph);
        lemma_one_parent_kept(b.graph, b.add_custom(key, value).graph);
    }
    if b.rooted_tree() && flow_state(b) {
        assert forall|e: int| 0 <= e < b.graph.edges.len() implies (#[trigger] b.set_condition(
            c,
        ).graph.edges[e]).source == b.graph.edges[e].source && b.set_condition(c).graph.edges[e].target
            == b.graph.edges[e].target by {}
        lemma_flow_kept(b, b.set_condition(c));
        lemma_flow_kept(b, b.set_port(port));
        lemma_flow_kept(b, b.set_protocol(p));
        lemma_flow_kept(b, b.set_tls_auto());
        lemma_flow_kept(b, b.add_custom(key, value));
    }
}

proof fn lemma_meta_keeps_nodes(b: BuilderView, f: spec_fn(MetadataView) -> MetadataView)
    requires
        steady(b),
    ensures
        keeps_nodes(b.graph, b.with_current_metadata(f).graph),
{
    let r = b.with_current_metadata(f);
    assert(b.stack[b.stack.len() - 1] < b.graph.nodes.len());
    assert forall|i: int| 0 <= i < b.graph.nodes.len() implies (#[trigger] r.graph.nodes[i]).kind
        == b.graph.nodes[i].kind && r.graph.nodes[i].label == b.graph.nodes[i].label by {}
}

proof fn lemma_guarded_middleware(matcher: Option<Seq<char>>, label: Seq<char>, b: BuilderView)
    requires
        steady(b),
        b.graph.nodes.len() + guarded_nodes(matcher) < u32::MAX,
    ensures
        guarded_middleware(matcher, label, b).stack == b.stack,
        guarded_middleware(matcher, label, b).graph.nodes.len() == b.graph.nodes.len() + guarded_nodes(
            matcher,
        ),
        guarded_middleware(matcher, label, b).graph.nodes.len() - guarded_middleware(
            matcher,
            label,
            b,
        ).graph.edges.len() == b.graph.nodes.len() - b.graph.edges.len(),
        b.rooted_tree() ==> guarded_middleware(matcher, label, b).rooted_tree(),
        keeps_nodes(b.graph, guarded_middleware(matcher, label, b).graph),
        listeners_ok(b.graph) ==> listeners_ok(guarded_middleware(matcher, label, b).graph),
        b.rooted_tree() && one_parent(b.graph) ==> one_parent(guarded_middleware(matcher, label, b).graph),
        b.rooted_tree() && flow_state(b) && b.stack.len() >= 2 ==> flow_state(
            guarded_middleware(matcher, label, b),
        ),
{
    let b1 = b.push(NodeKind::Middleware, label);
    lemma_push_step(b, NodeKind::Middleware, label);
    lemma_pop_step(b1);
    assert(b1.pop().stack =~= b.stack);
    match matcher {
        Some(m) => if looks_like_path(m) {
            let c1 = b.push(NodeKind::PathMatch, m);
            lemma_push_step(b, NodeKind::PathMatch, m);
            let c2 = c1.push(NodeKind::Middleware, label);
            lemma_push_step(c1, NodeKind::Middleware, label);
            lemma_pop_step(c2);
            lemma_pop_step(c2.pop());
            assert(c2.pop().pop().stack =~= b.stack);
        },
        None => {},
    }
}

/// One directive leaves the context as it found it, adds at most
/// `dir_nodes(d)` nodes, each with an edge, and keeps the rooted-tree shape.
pub proof fn lemma_process_one(d: DirectiveView, b: BuilderView)
    requires
        steady(b),
        b.graph.nodes.len() + dir_nodes(d) < u32::MAX,
    ensures
        process_one(d, b).stack == b.stack,
        process_one(d, b).graph.nodes.len() == b.graph.nodes.len() + dir_nodes(d),
        process_one(d, b).graph.nodes.len() - process_one(d, b).graph.edges.len()
            == b.graph.nodes.len() - b.graph.edges.len(),
        b.rooted_tree() ==> process_one(d, b).rooted_tree(),
        keeps_nodes(b.graph, process_one(d, b).graph),
        listeners_ok(b.graph) ==> listeners_ok(process_one(d, b).graph),
        b.rooted_tree() && one_parent(b.graph) ==> one_parent(process_one(d, b).graph),
        b.rooted_tree() && flow_state(b) && b.stack.len() >= 2 ==> flow_state(process_one(d, b)),
    decreases d,
{
    match d {
        DirectiveView::ReverseProxy { matcher, upstream } => {
            let b1 = b.push(NodeKind::Backend, upstream);
            lemma_push_step(b, NodeKind::Backend, upstream);
            lemma_pop_step(b1);
            assert(b1.pop().stack =~= b.stack);
            if b.rooted_tree() && flow_state(b) && b.stack.len() >= 2 {
                lemma_backend_step(b, upstream);
            }
            match matcher {
                Some(m) => if looks_like_path(m) {
                    let c1 = b.push(NodeKind::PathMatch, m);
                    lemma_push_step(b, NodeKind::PathMatch, m);
                    let c2 = c1.set_condition(ConditionView::PathGlob(m));
                    lemma_set_steps(c1, ConditionView::PathGlob(m), 0, Protocol::Http, Seq::empty(), Seq::empty());
                    let c3 = c2.push(NodeKind::Backend, upstream);
                    lemma_push_step(c2, NodeKind::Backend, upstream);
                    lemma_pop_step(c3);
                    lemma_pop_step(c3.pop());
                    if b.rooted_tree() && flow_state(b) && b.stack.len() >= 2 {
                        lemma_backend_step(c2, upstream);
                    }
                    assert(c3.pop().pop().stack =~= b.stack);
                },
                None => {},
            }
        },
        DirectiveView::Handle { matcher, directives } => {
            let label = match matcher {
                Some(m) => m,
                None => "*"@,
            };
            let b1 = b.push(NodeKind::PathMatch, label);
            lemma_push_step(b, NodeKind::PathMatch, label);
            let b2 = match matcher {
                Some(m) => if looks_like_path(m) {
                    b1.set_condition(ConditionView::PathGlob(m))
                } else {
                    b1
                },
                None => b1,
            };
            match matcher {
                Some(m) => {
                    lemma_set_steps(b1, ConditionView::PathGlob(m), 0, Protocol::Http, Seq::empty(), Seq::empty());
                },
                None => {},
            }
            lemma_process(directives, b2);
            let b3 = process(directives, b2);
            lemma_pop_step(b3);
            assert(b3.pop().stack =~= b.stack);
        },
        DirectiveView::HandlePath { path, directives } => {
            let c1 = b.push(NodeKind::PathMatch, path);
            lemma_push_step(b, NodeKind::PathMatch, path);
            let c2 = c1.set_condition(ConditionView::PathPrefix(path));
            lemma_set_steps(c1, ConditionView::PathPrefix(path), 0, Protocol::Http, Seq::empty(), Seq::empty());
            let c3 = c2.push(NodeKind::Middleware, "strip_prefix"@);
            lemma_push_step(c2, NodeKind::Middleware, "strip_prefix"@);
            let c4 = c3.add_custom("prefix"@, path);
            lemma_set_steps(c3, ConditionView::Always, 0, Protocol::Http, "prefix"@, path);
            lemma_process(directives, c4);
            let c5 = process(directives, c4);
            lemma_pop_step(c5);
            lemma_pop_step(c5.pop());
            assert(c5.pop().pop().stack =~= b.stack);
        },
        DirectiveView::Rewrite { matcher, to } => {
            lemma_guarded_middleware(matcher, rewrite_label(to), b);
        },
        DirectiveView::Redir { matcher, to, code } => {
            lemma_guarded_middleware(matcher, redir_label(to, code), b);
        },
        DirectiveView::Other { name, args } => {
            if is_middleware(name) {
                let label = middleware_label(name, args);
                let b1 = b.push(NodeKind::Middleware, label);
                lemma_push_step(b, NodeKind::Middleware, label);
                lemma_pop_step(b1);
                assert(b1.pop().stack =~= b.stack);
            }
        },
    }
}

/// A list of directives leaves the context as it found it, adds at most
/// `dirs_nodes(ds)` nodes, each with an edge, and keeps the rooted-tree shape.
pub proof fn lemma_process(ds: Seq<DirectiveView>, b: BuilderView)
    requires
        steady(b),
        b.graph.nodes.len() + dirs_nodes(ds) < u32::MAX,
    ensures
        process(ds, b).stack == b.stack,
        process(ds, b).graph.nodes.len() == b.graph.nodes.len() + dirs_nodes(ds),
        process(ds, b).graph.nodes.len() - process(ds, b).graph.edges.len() == b.graph.nodes.len()
            - b.graph.edges.len(),
        b.rooted_tree() ==> process(ds, b).rooted_tree(),
        keeps_nodes(b.graph, process(ds, b).graph),
        listeners_ok(b.graph) ==> listeners_ok(process(ds, b).graph),
        b.rooted_tree() && one_parent(b.graph) ==> one_parent(process(ds, b).graph),
        b.rooted_tree() && flow_state(b) && b.stack.len() >= 2 ==> flow_state(process(ds, b)),
    decreases ds,
{
    if ds.len() > 0 {
        let p = ds.subrange(0, ds.len() - 1);
        lemma_process(p, b);
        lemma_process_one(ds[ds.len() - 1], process(p, b));
    }
}

/// `g` keeps the nodes and the edges of `f`, in place, and may add more.
pub open spec fn keeps_prefix(f: GraphView, g: GraphView) -> bool {
    &&& f.nodes.len() <= g.nodes.len()
    &&& f.edges.len() <= g.edges.len()
    &&& forall|i: int| 0 <= i < f.nodes.len() ==> #[trigger] g.nodes[i] == f.nodes[i]
    &&& forall|e: int| 0 <= e < f.edges.len() ==> #[trigger] g.edges[e] == f.edges[e]
}

proof fn lemma_prefix_trans(f: GraphView, g: GraphView, h: GraphView)
    requires
        keeps_prefix(f, g),
        keeps_prefix(g, h),
    ensures
        keeps_prefix(f, h),
{
    assert forall|i: int| 0 <= i < f.nodes.len() implies #[trigger] h.nodes[i] == f.nodes[i] by {
        assert(h.nodes[i] == g.nodes[i]);
    }
    assert forall|e: int| 0 <= e < f.edges.len() implies #[trigger] h.edges[e] == f.edges[e] by {
        assert(h.edges[e] == g.edges[e]);
    }
}

proof fn lemma_prefix_push(f: GraphView, b: BuilderView, kind: NodeKind, label: Seq<char>)
    requires
        keeps_prefix(f, b.graph),
    ensures
        keeps_prefix(f, b.push(kind, label).graph),
{
    let r = b.push(kind, label);
    assert(keeps_prefix(b.graph, r.graph));
    lemma_prefix_trans(f, b.graph, r.graph);
}

proof fn lemma_prefix_set_condition(f: GraphView, b: BuilderView, c: ConditionView)
    requires
        keeps_prefix(f, b.graph),
        b.last_edge matches Some(i) ==> i >= f.edges.len(),
    ensures
        keeps_prefix(f, b.set_condition(c).graph),
{
}

proof fn lemma_prefix_add_custom(f: GraphView, b: BuilderView, key: Seq<char>, value: Seq<char>)
    requires
        keeps_prefix(f, b.graph),
        steady(b),
        b.stack.last() >= f.nodes.len(),
    ensures
        keeps_prefix(f, b.add_custom(key, value).graph),
{
    assert(b.stack.last() == b.stack[b.stack.len() - 1]);
}

/// A directive keeps the nodes and edges made before it: it only adds.
pub proof fn lemma_process_one_prefix(d: DirectiveView, b: BuilderView)
    requires
        steady(b),
        b.graph.nodes.len() + dir_nodes(d) < u32::MAX,
    ensures
        keeps_prefix(b.graph, process_one(d, b).graph),
    decreases d,
{
    let f = b.graph;
    assert(keeps_prefix(f, f));
    match d {
        DirectiveView::ReverseProxy { matcher, upstream } => {
            lemma_push_step(b, NodeKind::Backend, upstream);
            lemma_prefix_push(f, b, NodeKind::Backend, upstream);
            match matcher {
                Some(m) => if looks_like_path(m) {
                    let c1 = b.push(NodeKind::PathMatch, m);
                    lemma_push_step(b, NodeKind::PathMatch, m);
                    lemma_prefix_push(f, b, NodeKind::PathMatch, m);
                    let c2 = c1.set_condition(ConditionView::PathGlob(m));
                    lemma_prefix_set_condition(f, c1, ConditionView::PathGlob(m));
                    lemma_set_steps(c1, ConditionView::PathGlob(m), 0, Protocol::Http, Seq::empty(), Seq::empty());
                    lemma_prefix_push(f, c2, NodeKind::Backend, upstream);
                },
                None => {},
            }
        },
        DirectiveView::Handle { matcher, directives } => {
            let label = match matcher {
                Some(m) => m,
                None => "*"@,
            };
            let b1 = b.push(NodeKind::PathMatch, label);
            lemma_push_step(b, NodeKind::PathMatch, label);
            lemma_prefix_push(f, b, NodeKind::PathMatch, label);
            let b2 = match matcher {
                Some(m) => if looks_like_path(m) {
                    b1.set_condition(ConditionView::PathGlob(m))
                } else {
                    b1
                },
                None => b1,
            };
            match matcher {
                Some(m) => {
                    lemma_set_steps(b1, ConditionView::PathGlob(m), 0, Protocol::Http, Seq::empty(), Seq::empty());
                    lemma_prefix_set_condition(f, b1, ConditionView::PathGlob(m));
                },
                None => {},
            }
            lemma_process_prefix(directives, b2);
            lemma_prefix_trans(f, b2.graph, process(directives, b2).graph);
        },
        DirectiveView::HandlePath { path, directives } => {
            let c1 = b.push(NodeKind::PathMatch, path);
            lemma_push_step(b, NodeKind::PathMatch, path);
            lemma_prefix_push(f, b, NodeKind::PathMatch, path);
            let c2 = c1.set_condition(ConditionView::PathPrefix(path));
            lemma_set_steps(c1, ConditionView::PathPrefix(path), 0, Protocol::Http, Seq::empty(), Seq::empty());
            lemma_prefix_set_condition(f, c1, ConditionView::PathPrefix(path));
            let c3 = c2.push(NodeKind::Middleware, "strip_prefix"@);
            lemma_push_step(c2, NodeKind::Middleware, "strip_prefix"@);
            lemma_prefix_push(f, c2, NodeKind::Middleware, "strip_prefix"@);
            let c4 = c3.add_custom("prefix"@, path);
            lemma_set_steps(c3, ConditionView::Always, 0, Protocol::Http, "prefix"@, path);
            lemma_prefix_add_custom(f, c3, "prefix"@, path);
            lemma_process_prefix(directives, c4);
            lemma_prefix_trans(f, c4.graph, process(directives, c4).graph);
        },
        DirectiveView::Rewrite { matcher, to } => {
            lemma_prefix_guarded(f, matcher, rewrite_label(to), b);
        },
        DirectiveView::Redir { matcher, to, code } => {
            lemma_prefix_guarded(f, matcher, redir_label(to, code), b);
        },
        DirectiveView::Other { name, args } => {
            if is_middleware(name) {
                lemma_prefix_push(f, b, NodeKind::Middleware, middleware_label(name, args));
            }
        },
    }
}

proof fn lemma_prefix_guarded(f: GraphView, matcher: Option<Seq<char>>, label: Seq<char>, b: BuilderView)
    requires
        keeps_prefix(f, b.graph),
    ensures
        keeps_prefix(f, guarded_middleware(matcher, label, b).graph),
{
    lemma_prefix_push(f, b, NodeKind::Middleware, label);
    match matcher {
        Some(m) => {
            lemma_prefix_push(f, b, NodeKind::PathMatch, m);
            lemma_prefix_push(f, b.push(NodeKind::PathMatch, m), NodeKind::Middleware, label);
        },
        None => {},
    }
}

/// A list of directives keeps the nodes and edges made before it.
pub proof fn lemma_process_prefix(ds: Seq<DirectiveView>, b: BuilderView)
    requires
        steady(b),
        b.graph.nodes.len() + dirs_nodes(ds) < u32::MAX,
    ensures
        keeps_prefix(b.graph, process(ds, b).graph),
    decreases ds,
{
    if ds.len() > 0 {
        let p = ds.subrange(0, ds.len() - 1);
        lemma_process(p, b);
        lemma_process_prefix(p, b);
        lemma_process_one_prefix(ds[ds.len() - 1], process(p, b));
        lemma_prefix_trans(b.graph, process(p, b).graph, process(ds, b).graph);
    } else {
        assert(keeps_prefix(b.graph, b.graph));
    }
}

/// Directive bounds add up along a list.
pub proof fn lemma_dirs_nodes_prefix(ds: Seq<DirectiveView>, i: int)
    requires
        0 <= i < ds.len(),
    ensures
        dirs_nodes(ds.take(i + 1)) == dirs_nodes(ds.take(i)) + dir_nodes(ds[i]),
        dirs_nodes(ds.take(i + 1)) <= dirs_nodes(ds),
    decreases ds.len(),
{
    let t = ds.take(i + 1);
    assert(t.subrange(0, t.len() - 1) =~= ds.take(i));
    if i + 1 < ds.len() {
        let p = ds.subrange(0, ds.len() - 1);
        lemma_dirs_nodes_prefix(p, i);
        assert(p.take(i + 1) =~= t);
    } else {
        assert(t =~= ds);
    }
}

proof fn lemma_build_site(addr: Seq<char>, ds: Seq<DirectiveView>, b: BuilderView)
    requires
        steady(b),
        b.graph.nodes.len() + site_nodes(addr, ds) < u32::MAX,
    ensures
        build_site(addr, ds, b).stack == b.stack,
        build_site(addr, ds, b).graph.nodes.len() == b.graph.nodes.len() + site_nodes(addr, ds),
        build_site(addr, ds, b).graph.nodes.len() - build_site(addr, ds, b).graph.edges.len()
            == b.graph.nodes.len() - b.graph.edges.len(),
        b.rooted_tree() ==> build_site(addr, ds, b).rooted_tree(),
        keeps_nodes(b.graph, build_site(addr, ds, b).graph),
        listeners_ok(b.graph) ==> listeners_ok(build_site(addr, ds, b).graph),
        b.rooted_tree() && one_parent(b.graph) ==> one_parent(build_site(addr, ds, b).graph),
        b.rooted_tree() && flow_state(b) && b.stack.len() == 1 ==> flow_state(build_site(addr, ds, b)),
{
    let (listener, host, port) = address_parts(addr);
    let b1 = b.push(NodeKind::Listener, listener);
    lemma_push_step(b, NodeKind::Listener, listener);
    let b2 = match port {
        Some(p) => b1.set_port(p),
        None => b1,
    };
    lemma_set_steps(b1, ConditionView::Always, match port { Some(p) => p, None => 0 }, Protocol::Http, Seq::empty(), Seq::empty());
    let b3 = if port == Some(443u16) || starts_with(addr, "https://"@) {
        b2.set_protocol(Protocol::Https).set_tls_auto()
    } else {
        b2.set_protocol(Protocol::Http)
    };
    lemma_set_steps(b2, ConditionView::Always, 0, Protocol::Https, Seq::empty(), Seq::empty());
    lemma_set_steps(b2, ConditionView::Always, 0, Protocol::Http, Seq::empty(), Seq::empty());
    lemma_set_steps(b2.set_protocol(Protocol::Https), ConditionView::Always, 0, Protocol::Http, Seq::empty(), Seq::empty());
    if listeners_ok(b.graph) {
        let l = b.graph.nodes.len() as int;
        assert(b1.stack.last() == l as u32);
        assert(b2.stack.last() == l as u32);
        assert forall|i: int| 0 <= i < b3.graph.nodes.len() implies listener_ok(#[trigger] b3.graph.nodes[i]) by {
            if i < l {
                assert(b1.graph.nodes[i] == b.graph.nodes[i]);
                assert(b2.graph.nodes[i] == b1.graph.nodes[i]);
                assert(b3.graph.nodes[i] == b2.graph.nodes[i]);
            } else {
                assert(b1.graph.nodes[l].kind == NodeKind::Listener);
                assert(b2.graph.nodes[l].metadata.port == port);
                assert(b3.graph.nodes[l].kind == NodeKind::Listener);
            }
        }
    }
    let b4 = match host {
        Some(h) => b3.push(NodeKind::Host, h),
        None => b3,
    };
    match host {
        Some(h) => {
            lemma_push_step(b3, NodeKind::Host, h);
        },
        None => {},
    }
    lemma_process(ds, b4);
    let b5 = process(ds, b4);
    let b6 = match host {
        Some(_) => b5.pop(),
        None => b5,
    };
    match host {
        Some(_) => {
            lemma_pop_step(b5);
        },
        None => {},
    }
    lemma_pop_step(b6);
    assert(b6.pop().stack =~= b.stack);
}

/// The site of one address, built from context `b`: its first new node is
/// the listener of the address, a child of the context, with the address's
/// port, and HTTPS with automatic TLS on port 443 or for an `https://`
/// address (HTTP otherwise); a host, when the address names one, is the
/// listener's child; the context is the same afterwards. `steady` asks only
/// for a current node, context nodes that exist, and room for the new nodes
/// and edges (any number of edges may already be there).
pub proof fn lemma_build_site_listener(addr: Seq<char>, ds: Seq<DirectiveView>, b: BuilderView)
    requires
        steady(b),
        b.graph.nodes.len() + site_nodes(addr, ds) < u32::MAX,
    ensures
        ({
            let r = build_site(addr, ds, b);
            let (listener, host, port) = address_parts(addr);
            let n = b.graph.nodes.len() as int;
            let k = b.graph.edges.len() as int;
            let https = port == Some(443u16) || starts_with(addr, "https://"@);
            &&& r.stack == b.stack
            &&& r.graph.nodes[n] == (NodeView {
                id: n as u32,
                kind: NodeKind::Listener,
                label: listener,
                metadata: MetadataView {
                    port,
                    protocol: Some(
                        if https {
                            Protocol::Https
                        } else {
                            Protocol::Http
                        },
                    ),
                    tls: if https {
                        Some(auto_tls())
                    } else {
                        None
                    },
                    custom: Seq::empty(),
                },
            })
            &&& r.graph.edges[k] == (EdgeView {
                source: b.stack.last(),
                target: n as u32,
                condition: None,
            })
            &&& host matches Some(h) ==> {
                &&& r.graph.nodes[n + 1] == (NodeView {
                    id: (n + 1) as u32,
                    kind: NodeKind::Host,
                    label: h,
                    metadata: crate::model::empty_metadata(),
                })
                &&& r.graph.edges[k + 1] == (EdgeView {
                    source: n as u32,
                    target: (n + 1) as u32,
                    condition: None,
                })
            }
        }),
{
    lemma_build_site(addr, ds, b);
    let (listener, host, port) = address_parts(addr);
    let n = b.graph.nodes.len() as int;
    let b1 = b.push(NodeKind::Listener, listener);
    lemma_push_step(b, NodeKind::Listener, listener);
    let b2 = match port {
        Some(p) => b1.set_port(p),
        None => b1,
    };
    lemma_set_steps(b1, ConditionView::Always, match port { Some(p) => p, None => 0 }, Protocol::Http, Seq::empty(), Seq::empty());
    let b3 = if port == Some(443u16) || starts_with(addr, "https://"@) {
        b2.set_protocol(Protocol::Https).set_tls_auto()
    } else {
        b2.set_protocol(Protocol::Http)
    };
    lemma_set_steps(b2, ConditionView::Always, 0, Protocol::Https, Seq::empty(), Seq::empty());
    lemma_set_steps(b2, ConditionView::Always, 0, Protocol::Http, Seq::empty(), Seq::empty());
    assert(b1.stack.last() == n as u32);
    assert(b2.stack.last() == n as u32);
    assert(b2.set_protocol(Protocol::Https).stack.last() == n as u32);
    let b4 = match host {
        Some(h) => b3.push(NodeKind::Host, h),
        None => b3,
    };
    assert(keeps_prefix(b3.graph, b3.graph));
    match host {
        Some(h) => {
            lemma_push_step(b3, NodeKind::Host, h);
            lemma_prefix_push(b3.graph, b3, NodeKind::Host, h);
        },
        None => {},
    }
    lemma_process(ds, b4);
    lemma_process_prefix(ds, b4);
    lemma_prefix_trans(b3.graph, b4.graph, process(ds, b4).graph);
}

proof fn lemma_build_pieces(pieces: Seq<Seq<char>>, ds: Seq<DirectiveView>, b: BuilderView)
    requires
        steady(b),
        b.graph.nodes.len() + pieces_nodes(pieces, ds) < u32::MAX,
    ensures
        build_pieces(pieces, ds, b).stack == b.stack,
        build_pieces(pieces, ds, b).graph.nodes.len() == b.graph.nodes.len() + pieces_nodes(pieces, ds),
        build_pieces(pieces, ds, b).graph.nodes.len() - build_pieces(pieces, ds, b).graph.edges.len()
            == b.graph.nodes.len() - b.graph.edges.len(),
        b.rooted_tree() ==> build_pieces(pieces, ds, b).rooted_tree(),
        keeps_nodes(b.graph, build_pieces(pieces, ds, b).graph),
        listeners_ok(b.graph) ==> listeners_ok(build_pieces(pieces, ds, b).graph),
        b.rooted_tree() && one_parent(b.graph) ==> one_parent(build_pieces(pieces, ds, b).graph),
        b.rooted_tree() && flow_state(b) && b.stack.len() == 1 ==> flow_state(build_pieces(pieces, ds, b)),
    decreases pieces.len(),
{
    if pieces.len() > 0 {
        lemma_build_pieces(pieces.drop_last(), ds, b);
        let b0 = build_pieces(pieces.drop_last(), ds, b);
        let a = trim(pieces.last());
        if a.len() > 0 {
            lemma_build_site(a, ds, b0);
        }
    }
}

proof fn lemma_build_addresses(addrs: Seq<Seq<char>>, ds: Seq<DirectiveView>, b: BuilderView)
    requires
        steady(b),
        b.graph.nodes.len() + addresses_nodes(addrs, ds) < u32::MAX,
    ensures
        build_addresses(addrs, ds, b).stack == b.stack,
        build_addresses(addrs, ds, b).graph.nodes.len() == b.graph.nodes.len() + addresses_nodes(
            addrs,
            ds,
        ),
        build_addresses(addrs, ds, b).graph.nodes.len() - build_addresses(addrs, ds, b).graph.edges.len()
            == b.graph.nodes.len() - b.graph.edges.len(),
        b.rooted_tree() ==> build_addresses(addrs, ds, b).rooted_tree(),
        keeps_nodes(b.graph, build_addresses(addrs, ds, b).graph),
        listeners_ok(b.graph) ==> listeners_ok(build_addresses(addrs, ds, b).graph),
        b.rooted_tree() && one_parent(b.graph) ==> one_parent(build_addresses(addrs, ds, b).graph),
        b.rooted_tree() && flow_state(b) && b.stack.len() == 1 ==> flow_state(build_addresses(addrs, ds, b)),
    decreases addrs.len(),
{
    if addrs.len() > 0 {
        lemma_build_addresses(addrs.drop_last(), ds, b);
        lemma_build_pieces(split(addrs.last(), ','), ds, build_addresses(addrs.drop_last(), ds, b));
    }
}

proof fn lemma_build_sites(sites: Seq<SiteView>, b: BuilderView)
    requires
        steady(b),
        b.graph.nodes.len() + sites_nodes(sites) < u32::MAX,
    ensures
        build_sites(sites, b).stack == b.stack,
        build_sites(sites, b).graph.nodes.len() == b.graph.nodes.len() + sites_nodes(sites),
        build_sites(sites, b).graph.nodes.len() - build_sites(sites, b).graph.edges.len()
            == b.graph.nodes.len() - b.graph.edges.len(),
        b.rooted_tree() ==> build_sites(sites, b).rooted_tree(),
        keeps_nodes(b.graph, build_sites(sites, b).graph),
        listeners_ok(b.graph) ==> listeners_ok(build_sites(sites, b).graph),
        b.rooted_tree() && one_parent(b.graph) ==> one_parent(build_sites(sites, b).graph),
        b.rooted_tree() && flow_state(b) && b.stack.len() == 1 ==> flow_state(build_sites(sites, b)),
    decreases sites.len(),
{
    if sites.len() > 0 {
        lemma_build_sites(sites.drop_last(), b);
        lemma_build_addresses(
            sites.last().addresses,
            sites.last().directives,
            build_sites(sites.drop_last(), b),
        );
    }
}

/// The root alone is a rooted tree: one `Client` node, no edges.
pub proof fn lemma_client_root()
    ensures
        client_root().rooted_tree(),
        steady(client_root()),
        client_root().stack == seq![0u32],
        client_root().graph.nodes.len() == 1,
        client_root().graph.nodes[0].kind == NodeKind::Client,
        client_root().graph.nodes[0].label == "Client"@,
        listeners_ok(client_root().graph),
        flow_state(client_root()),
        one_parent(client_root().graph),
{
    let r = client_root();
    assert(r.graph.nodes.drop_last() =~= Seq::empty());
    assert(r.graph.nodes.last().kind == NodeKind::Client);
    assert(client_count(r.graph.nodes.drop_last()) == 0);
    assert(client_count(r.graph.nodes) == 1);
    assert(r.stack =~= seq![0u32]);
}

/// The graph of any list of site blocks with fewer than `u32::MAX` nodes is a rooted
/// tree, with one edge fewer than nodes, whose root is node 0, the `Client`
/// labelled `Client`; it passes validation; each of its listeners carries a
/// protocol, HTTPS with automatic TLS where the port is 443; and every edge
/// follows the request flow (see [`flow_step`]).
pub proof fn lemma_graph_of_is_rooted_tree(sites: Seq<SiteView>)
    requires
        graph_nodes(sites) < u32::MAX,
    ensures
        build_sites(sites, client_root()).rooted_tree(),
        graph_of(sites).nodes.len() == graph_nodes(sites),
        graph_of(sites).edges.len() + 1 == graph_of(sites).nodes.len(),
        graph_of(sites).nodes[0].kind == NodeKind::Client,
        graph_of(sites).nodes[0].label == "Client"@,
        graph_of(sites).root() == Some(0u32),
        graph_of(sites).problems() == Seq::<Seq<char>>::empty(),
        listeners_ok(graph_of(sites)),
        follows_request_flow(graph_of(sites)),
        one_parent(graph_of(sites)),
        forall|e: int|
            0 <= e < graph_of(sites).edges.len() ==> (#[trigger] graph_of(sites).edges[e]).source
                < graph_of(sites).edges[e].target,
        forall|i: int| 0 < i < graph_of(sites).nodes.len() ==> (#[trigger] graph_of(sites).nodes[i]).kind
            != NodeKind::Client,
{
    lemma_client_root();
    lemma_build_sites(sites, client_root());
    let b = build_sites(sites, client_root());
    crate::builder::lemma_rooted_tree_is_valid(b);
    assert(b.graph.nodes[0].kind == client_root().graph.nodes[0].kind);
    crate::model::lemma_first_client(b.graph.nodes);
    let g = b.graph;
    assert forall|i: int| 0 < i < g.nodes.len() implies (#[trigger] g.nodes[i]).kind
        != NodeKind::Client by {
        crate::model::lemma_in_edges(g.edges, i as u32);
        assert(in_edges(g.edges, i as u32).len() == 1);
        let e = in_edges(g.edges, i as u32)[0] as int;
        assert(g.edges[e].target == i as u32);
    }
}


// ---------------------------------------------------------------------------
// Node counts, capped at u32::MAX
// ---------------------------------------------------------------------------

/// `n`, or `u32::MAX` when `n` is at least that.
pub open spec fn capped(n: nat) -> nat {
    if n >= u32::MAX {
        u32::MAX as nat
    } else {
        n
    }
}

fn add_capped(a: u64, b: u64, Ghost(x): Ghost<nat>, Ghost(y): Ghost<nat>) -> (r: u64)
    requires
        a == capped(x),
        b == capped(y),
    ensures
        r == capped(x + y),
{
    let s = a + b;
    if s >= 0xFFFF_FFFFu64 {
        0xFFFF_FFFFu64
    } else {
        s
    }
}

/// The directives of a list, one for one.
pub proof fn lemma_directives_view(ds: Seq<Directive>)
    ensures
        directives_view(ds).len() == ds.len(),
        forall|i: int| 0 <= i < ds.len() ==> #[trigger] directives_view(ds)[i] == directive_view(ds[i]),
    decreases ds.len(),
{
    if ds.len() > 0 {
        let p = ds.subrange(0, ds.len() - 1);
        lemma_directives_view(p);
        assert forall|i: int| 0 <= i < ds.len() implies #[trigger] directives_view(ds)[i] == directive_view(ds[i]) by {
            if i < ds.len() - 1 {
                assert(p[i] == ds[i]);
            }
        }
    }
}

fn guarded_nodes_exec(matcher: &Option<String>) -> (r: u64)
    ensures
        r == guarded_nodes(crate::model::opt_text(*matcher)),
{
    match matcher {
        Some(m) => if exec_looks_like_path(m.as_str()) {
            2
        } else {
            1
        },
        None => 1,
    }
}

fn dir_nodes_capped(d: &Directive) -> (r: u64)
    ensures
        r == capped(dir_nodes(directive_view(*d))),
    decreases d,
{
    match d {
        Directive::ReverseProxy { matcher, .. } => guarded_nodes_exec(matcher),
        Directive::Handle { directives, .. } => {
            let inner = dirs_nodes_capped(directives);
            add_capped(1, inner, Ghost(1nat), Ghost(dirs_nodes(directives_view(directives@))))
        },
        Directive::HandlePath { directives, .. } => {
            let inner = dirs_nodes_capped(directives);
            add_capped(2, inner, Ghost(2nat), Ghost(dirs_nodes(directives_view(directives@))))
        },
        Directive::Rewrite { matcher, .. } => guarded_nodes_exec(matcher),
        Directive::Redir { matcher, .. } => guarded_nodes_exec(matcher),
        Directive::Other { name, .. } => if exec_is_middleware(name.as_str()) {
            1
        } else {
            0
        },
    }
}

fn dirs_nodes_capped(ds: &Vec<Directive>) -> (r: u64)
    ensures
        r == capped(dirs_nodes(directives_view(ds@))),
    decreases ds@,
{
    let ghost v = directives_view(ds@);
    proof {
        lemma_directives_view(ds@);
    }
    let mut total: u64 = 0;
    let mut i: usize = 0;
    assert(v.take(0) =~= Seq::<DirectiveView>::empty());
    while i < ds.len()
        invariant
            i <= ds@.len(),
            v == directives_view(ds@),
            v.len() == ds@.len(),
            forall|k: int| 0 <= k < ds@.len() ==> #[trigger] v[k] == directive_view(ds@[k]),
            total == capped(dirs_nodes(v.take(i as int))),
        decreases ds@.len() - i,
    {
        let one = dir_nodes_capped(&ds[i]);
        proof {
            let t = v.take(i + 1);
            assert(t.subrange(0, t.len() - 1) =~= v.take(i as int));
            assert(t[t.len() - 1] == v[i as int]);
        }
        total = add_capped(total, one, Ghost(dirs_nodes(v.take(i as int))), Ghost(dir_nodes(v[i as int])));
        i = i + 1;
    }
    assert(v.take(i as int) =~= v);
    total
}

fn address_nodes_capped(addr: &str, d: u64, Ghost(ds): Ghost<Seq<DirectiveView>>) -> (r: u64)
    requires
        d == capped(dirs_nodes(ds)),
    ensures
        r == capped(pieces_nodes(split(addr@, ','), ds)),
{
    let chars = chars_of(addr);
    let bounds = split_bounds(&chars, 0, chars.len(), ',');
    let ghost pieces = split(addr@, ',');
    assert(chars@.subrange(0, chars@.len() as int) =~= chars@);
    let mut total: u64 = 0;
    let mut k: usize = 0;
    assert(pieces.take(0) =~= Seq::<Seq<char>>::empty());
    while k < bounds.len()
        invariant
            k <= bounds@.len(),
            pieces == split(chars@, ','),
            bounds@.len() == pieces.len(),
            forall|m: int|
                0 <= m < bounds@.len() ==> {
                    &&& 0 <= (#[trigger] bounds@[m]).0 <= bounds@[m].1 <= chars@.len()
                    &&& chars@.subrange(bounds@[m].0 as int, bounds@[m].1 as int) == pieces[m]
                },
            d == capped(dirs_nodes(ds)),
            total == capped(pieces_nodes(pieces.take(k as int), ds)),
        decreases bounds@.len() - k,
    {
        let (s, e) = bounds[k];
        let (t0, t1) = trim_bounds(&chars, s, e);
        let ghost t = pieces.take(k + 1);
        assert(t.drop_last() =~= pieces.take(k as int));
        assert(t.last() == pieces[k as int]);
        let one: u64 = if t0 < t1 {
            let (_, host, _) = parse_address(&chars, t0, t1);
            let h: u64 = if host.is_some() {
                2
            } else {
                1
            };
            add_capped(h, d, Ghost(h as nat), Ghost(dirs_nodes(ds)))
        } else {
            0
        };
        total = add_capped(
            total,
            one,
            Ghost(pieces_nodes(pieces.take(k as int), ds)),
            Ghost(piece_nodes(pieces[k as int], ds)),
        );
        k = k + 1;
    }
    assert(pieces.take(k as int) =~= pieces);
    total
}

fn site_nodes_capped(site: &SiteBlock) -> (r: u64)
    ensures
        r == capped(addresses_nodes(site_view(*site).addresses, site_view(*site).directives)),
{
    let ghost sv = site_view(*site);
    let d = dirs_nodes_capped(&site.directives);
    let mut total: u64 = 0;
    let mut j: usize = 0;
    assert(sv.addresses.take(0) =~= Seq::<Seq<char>>::empty());
    while j < site.addresses.len()
        invariant
            j <= site.addresses@.len(),
            sv == site_view(*site),
            sv.addresses.len() == site.addresses@.len(),
            d == capped(dirs_nodes(sv.directives)),
            total == capped(addresses_nodes(sv.addresses.take(j as int), sv.directives)),
        decreases site.addresses@.len() - j,
    {
        let one = address_nodes_capped(site.addresses[j].as_str(), d, Ghost(sv.directives));
        proof {
            let t = sv.addresses.take(j + 1);
            assert(t.drop_last() =~= sv.addresses.take(j as int));
            assert(t.last() == site.addresses@[j as int]@);
        }
        total = add_capped(
            total,
            one,
            Ghost(addresses_nodes(sv.addresses.take(j as int), sv.directives)),
            Ghost(pieces_nodes(split(site.addresses@[j as int]@, ','), sv.directives)),
        );
        j = j + 1;
    }
    assert(sv.addresses.take(j as int) =~= sv.addresses);
    total
}

/// The number of nodes of the graph of `sites`, capped at `u32::MAX`.
pub fn graph_nodes_capped(sites: &Vec<SiteBlock>) -> (r: u64)
    ensures
        r == capped(graph_nodes(sites_view(sites@))),
{
    let ghost sv = sites_view(sites@);
    let mut total: u64 = 1;
    let mut i: usize = 0;
    assert(sv.take(0) =~= Seq::<SiteView>::empty());
    while i < sites.len()
        invariant
            i <= sites@.len(),
            sv == sites_view(sites@),
            total == capped(1 + sites_nodes(sv.take(i as int))),
        decreases sites@.len() - i,
    {
        let one = site_nodes_capped(&sites[i]);
        proof {
            let t = sv.take(i + 1);
            assert(t.drop_last() =~= sv.take(i as int));
            assert(t.last() == site_view(sites@[i as int]));
        }
        total = add_capped(
            total,
            one,
            Ghost(1 + sites_nodes(sv.take(i as int))),
            Ghost(addresses_nodes(sv[i as int].addresses, sv[i as int].directives)),
        );
        i = i + 1;
    }
    assert(sv.take(i as int) =~= sv);
    total
}


// ---------------------------------------------------------------------------
// Building the graph
// ---------------------------------------------------------------------------

/// The listener label, host label and port of the address `chars[from..to]`.
pub fn parse_address(chars: &Vec<char>, from: usize, to: usize) -> (r: (String, Option<String>, Option<u16>))
    requires
        from <= to <= chars@.len(),
    ensures
        ({
            let (l, h, p) = address_parts(chars@.subrange(from as int, to as int));
            r.0@ == l && crate::model::opt_text(r.1) == h && r.2 == p
        }),
{
    let ghost addr = chars@.subrange(from as int, to as int);
    let (a0, a1) = trim_bounds(chars, from, to);
    let ghost a = chars@.subrange(a0 as int, a1 as int);
    assert(a == trim(addr));
    if a0 < a1 && chars[a0] == ':' {
        assert(a[0] == chars@[a0 as int]);
        assert(a.drop_first() =~= chars@.subrange(a0 + 1, a1 as int));
        let port = exec_parse_u16(chars, a0 + 1, a1);
        return (string_from_chars(chars, a0, a1), None, port);
    }
    if a0 < a1 {
        assert(a[0] == chars@[a0 as int]);
    }
    match exec_rfind(chars, a0, a1, ':') {
        Some(c) => {
            proof {
                lemma_rfind(a, ':');
            }
            assert(a.subrange(c + 1, a.len() as int) =~= chars@.subrange(a0 + c + 1, a1 as int));
            match exec_parse_u16(chars, a0 + c + 1, a1) {
                Some(port) => {
                    let mut listener = string_of(":");
                    push_decimal(&mut listener, port as u64);
                    assert(a.take(c as int) =~= chars@.subrange(a0 as int, a0 + c));
                    (listener, Some(string_from_chars(chars, a0, a0 + c)), Some(port))
                },
                None => (string_of(":80"), Some(string_from_chars(chars, a0, a1)), Some(80)),
            }
        },
        None => (string_of(":80"), Some(string_from_chars(chars, a0, a1)), Some(80)),
    }
}

proof fn lemma_rfind(s: Seq<char>, c: char)
    ensures
        rfind(s, c) matches Some(i) ==> 0 <= i < s.len(),
    decreases s.len(),
{
    if s.len() > 0 {
        lemma_rfind(s.drop_last(), c);
    }
}

fn exec_is_middleware(name: &str) -> (r: bool)
    ensures
        r == is_middleware(name@),
{
    str_eq(name, "encode") || str_eq(name, "decode") || str_eq(name, "log") || str_eq(name, "header")
        || str_eq(name, "request_body") || str_eq(name, "templates") || str_eq(name, "cache")
        || str_eq(name, "rate_limit") || str_eq(name, "authentication") || str_eq(name, "authorize")
        || str_eq(name, "cors") || str_eq(name, "compress") || str_eq(name, "deflate") || str_eq(
        name,
        "gzip",
    )
}

/// The words joined by single spaces.
fn join_words(args: &Vec<String>) -> (r: String)
    ensures
        r@ == join(strings_view(args@), " "@),
{
    let ghost v = strings_view(args@);
    let mut out = String::new();
    let mut i: usize = 0;
    assert(v.take(0) =~= Seq::<Seq<char>>::empty());
    while i < args.len()
        invariant
            i <= args@.len(),
            v == strings_view(args@),
            out@ == join(v.take(i as int), " "@),
        decreases args@.len() - i,
    {
        let ghost t = v.take(i + 1);
        assert(t.drop_last() =~= v.take(i as int));
        assert(t.last() == args@[i as int]@);
        if i != 0 {
            out.append(" ");
        } else {
            assert(t.len() == 1);
        }
        out.append(args[i].as_str());
        i = i + 1;
    }
    assert(v.take(i as int) =~= v);
    out
}

/// A middleware node labelled `label`, under a path matcher node when the
/// matcher looks like a path.
fn push_guarded_middleware(b: &mut RouteGraphBuilder, matcher: &Option<String>, label: &str)
    requires
        old(b).wf(),
        steady(old(b)@),
        old(b)@.graph.nodes.len() + guarded_nodes(crate::model::opt_text(*matcher)) < u32::MAX,
    ensures
        final(b).wf(),
        final(b)@ == guarded_middleware(crate::model::opt_text(*matcher), label@, old(b)@),
{
    if let Some(m) = matcher {
        if exec_looks_like_path(m.as_str()) {
            b.push_node(NodeKind::PathMatch, m.as_str());
            b.push_node(NodeKind::Middleware, label);
            b.pop_node();
            b.pop_node();
            return;
        }
    }
    b.push_node(NodeKind::Middleware, label);
    b.pop_node();
}

/// Adds the nodes and edges of one directive below the current context.
fn process_directive(b: &mut RouteGraphBuilder, d: &Directive)
    requires
        old(b).wf(),
        steady(old(b)@),
        old(b)@.graph.nodes.len() + dir_nodes(directive_view(*d)) < u32::MAX,
    ensures
        final(b).wf(),
        final(b)@ == process_one(directive_view(*d), old(b)@),
    decreases d,
{
    let ghost b0 = b@;
    proof {
        lemma_process_one(directive_view(*d), b0);
    }
    match d {
        Directive::ReverseProxy { matcher, upstream } => {
            if let Some(m) = matcher {
                if exec_looks_like_path(m.as_str()) {
                    b.push_node(NodeKind::PathMatch, m.as_str());
                    b.set_condition(EdgeCondition::PathGlob(m.clone()));
                    b.push_node(NodeKind::Backend, upstream.as_str());
                    b.pop_node();
                    b.pop_node();
                    return;
                }
            }
            b.push_node(NodeKind::Backend, upstream.as_str());
            b.pop_node();
        },
        Directive::Handle { matcher, directives } => {
            let path = match matcher {
                Some(m) => m.as_str(),
                None => "*",
            };
            b.push_node(NodeKind::PathMatch, path);
            if let Some(m) = matcher {
                if exec_looks_like_path(m.as_str()) {
                    b.set_condition(EdgeCondition::PathGlob(m.clone()));
                }
            }
            let ghost b2 = b@;
            proof {
                lemma_process(directives_view(directives@), b2);
            }
            process_directives(b, directives);
            b.pop_node();
        },
        Directive::HandlePath { path, directives } => {
            b.push_node(NodeKind::PathMatch, path.as_str());
            b.set_condition(EdgeCondition::PathPrefix(path.clone()));
            b.push_node(NodeKind::Middleware, "strip_prefix");
            b.add_custom("prefix", path.as_str());
            let ghost b4 = b@;
            proof {
                lemma_process(directives_view(directives@), b4);
            }
            process_directives(b, directives);
            b.pop_node();
            b.pop_node();
        },
        Directive::Rewrite { matcher, to } => {
            let mut label = string_of("rewrite → ");
            label.append(to.as_str());
            push_guarded_middleware(b, matcher, label.as_str());
        },
        Directive::Redir { matcher, to, code } => {
            let code_str = match code {
                Some(c) => c.as_str(),
                None => "302",
            };
            let mut label = string_of("redir → ");
            label.append(to.as_str());
            label.append(" [");
            label.append(code_str);
            label.append("]");
            push_guarded_middleware(b, matcher, label.as_str());
        },
        Directive::Other { name, args } => {
            if exec_is_middleware(name.as_str()) {
                let label = if args.len() == 0 {
                    name.clone()
                } else {
                    let mut l = name.clone();
                    l.append(" ");
                    let rest = join_words(args);
                    l.append(rest.as_str());
                    l
                };
                b.push_node(NodeKind::Middleware, label.as_str());
                b.pop_node();
            }
        },
    }
}

/// Adds the nodes and edges of a list of directives, in order.
fn process_directives(b: &mut RouteGraphBuilder, ds: &Vec<Directive>)
    requires
        old(b).wf(),
        steady(old(b)@),
        old(b)@.graph.nodes.len() + dirs_nodes(directives_view(ds@)) < u32::MAX,
    ensures
        final(b).wf(),
        final(b)@ == process(directives_view(ds@), old(b)@),
    decreases ds@,
{
    let ghost v = directives_view(ds@);
    let ghost b0 = b@;
    proof {
        lemma_directives_view(ds@);
    }
    let mut i: usize = 0;
    assert(v.take(0) =~= Seq::<DirectiveView>::empty());
    while i < ds.len()
        invariant
            i <= ds@.len(),
            v == directives_view(ds@),
            v.len() == ds@.len(),
            forall|k: int| 0 <= k < ds@.len() ==> #[trigger] v[k] == directive_view(ds@[k]),
            b.wf(),
            steady(b0),
            b0.graph.nodes.len() + dirs_nodes(v) < u32::MAX,
            b@ == process(v.take(i as int), b0),
        decreases ds@.len() - i,
    {
        proof {
            lemma_dirs_nodes_prefix(v, i as int);
            lemma_process(v.take(i as int), b0);
        }
        process_directive(b, &ds[i]);
        proof {
            let t = v.take(i + 1);
            assert(t.subrange(0, t.len() - 1) =~= v.take(i as int));
            assert(t[t.len() - 1] == v[i as int]);
        }
        i = i + 1;
    }
    assert(v.take(i as int) =~= v);
}

/// Adds the listener (and host) of the address `chars[from..to]`, with the
/// site's directives below.
fn build_one_site(b: &mut RouteGraphBuilder, chars: &Vec<char>, from: usize, to: usize, ds: &Vec<Directive>)
    requires
        old(b).wf(),
        steady(old(b)@),
        from <= to <= chars@.len(),
        old(b)@.graph.nodes.len() + site_nodes(chars@.subrange(from as int, to as int), directives_view(ds@))
            < u32::MAX,
    ensures
        final(b).wf(),
        final(b)@ == build_site(chars@.subrange(from as int, to as int), directives_view(ds@), old(b)@),
{
    let ghost addr = chars@.subrange(from as int, to as int);
    proof {
        lemma_build_site(addr, directives_view(ds@), b@);
    }
    let (listener_label, host_label, port) = parse_address(chars, from, to);
    b.push_node(NodeKind::Listener, listener_label.as_str());
    if let Some(p) = port {
        b.set_port(p);
    }
    let https = string_of("https://");
    let https_chars = chars_of(https.as_str());
    let is_443 = match port {
        Some(p) => p == 443,
        None => false,
    };
    if is_443 || exec_starts_with(chars, from, to, &https_chars) {
        b.set_protocol(Protocol::Https);
        b.set_tls_auto();
    } else {
        b.set_protocol(Protocol::Http);
    }
    if let Some(host) = &host_label {
        b.push_node(NodeKind::Host, host.as_str());
    }
    let ghost b4 = b@;
    proof {
        lemma_process(directives_view(ds@), b4);
    }
    process_directives(b, ds);
    if host_label.is_some() {
        b.pop_node();
    }
    b.pop_node();
}

/// Adds a site for each non-blank comma-separated piece of `addr`.
fn build_address(b: &mut RouteGraphBuilder, addr: &str, ds: &Vec<Directive>)
    requires
        old(b).wf(),
        steady(old(b)@),
        old(b)@.graph.nodes.len() + pieces_nodes(split(addr@, ','), directives_view(ds@)) < u32::MAX,
    ensures
        final(b).wf(),
        final(b)@ == build_pieces(split(addr@, ','), directives_view(ds@), old(b)@),
{
    let ghost dv = directives_view(ds@);
    let ghost b0 = b@;
    let chars = chars_of(addr);
    let bounds = split_bounds(&chars, 0, chars.len(), ',');
    let ghost pieces = split(addr@, ',');
    assert(chars@.subrange(0, chars@.len() as int) =~= chars@);
    let mut k: usize = 0;
    assert(pieces.take(0) =~= Seq::<Seq<char>>::empty());
    while k < bounds.len()
        invariant
            k <= bounds@.len(),
            pieces == split(chars@, ','),
            bounds@.len() == pieces.len(),
            forall|m: int|
                0 <= m < bounds@.len() ==> {
                    &&& 0 <= (#[trigger] bounds@[m]).0 <= bounds@[m].1 <= chars@.len()
                    &&& chars@.subrange(bounds@[m].0 as int, bounds@[m].1 as int) == pieces[m]
                },
            dv == directives_view(ds@),
            b.wf(),
            steady(b0),
            b0.graph.nodes.len() + pieces_nodes(pieces, dv) < u32::MAX,
            b@ == build_pieces(pieces.take(k as int), dv, b0),
        decreases bounds@.len() - k,
    {
        proof {
            lemma_pieces_nodes_prefix(pieces, k as int, dv);
            lemma_build_pieces(pieces.take(k as int), dv, b0);
        }
        let (s, e) = bounds[k];
        let (t0, t1) = trim_bounds(&chars, s, e);
        let ghost t = pieces.take(k + 1);
        assert(t.drop_last() =~= pieces.take(k as int));
        assert(t.last() == pieces[k as int]);
        if t0 < t1 {
            build_one_site(b, &chars, t0, t1, ds);
        }
        k = k + 1;
    }
    assert(pieces.take(k as int) =~= pieces);
}

proof fn lemma_pieces_nodes_prefix(a: Seq<Seq<char>>, j: int, ds: Seq<DirectiveView>)
    requires
        0 <= j < a.len(),
    ensures
        pieces_nodes(a.take(j + 1), ds) == pieces_nodes(a.take(j), ds) + piece_nodes(a[j], ds),
        pieces_nodes(a.take(j + 1), ds) <= pieces_nodes(a, ds),
    decreases a.len(),
{
    let t = a.take(j + 1);
    assert(t.drop_last() =~= a.take(j));
    if j + 1 < a.len() {
        lemma_pieces_nodes_prefix(a.drop_last(), j, ds);
        assert(a.drop_last().take(j + 1) =~= t);
    } else {
        assert(t =~= a);
    }
}

proof fn lemma_addresses_nodes_prefix(a: Seq<Seq<char>>, j: int, ds: Seq<DirectiveView>)
    requires
        0 <= j < a.len(),
    ensures
        addresses_nodes(a.take(j + 1), ds) == addresses_nodes(a.take(j), ds) + pieces_nodes(split(a[j], ','), ds),
        addresses_nodes(a.take(j + 1), ds) <= addresses_nodes(a, ds),
    decreases a.len(),
{
    let t = a.take(j + 1);
    assert(t.drop_last() =~= a.take(j));
    if j + 1 < a.len() {
        lemma_addresses_nodes_prefix(a.drop_last(), j, ds);
        assert(a.drop_last().take(j + 1) =~= t);
    } else {
        assert(t =~= a);
    }
}

proof fn lemma_sites_nodes_prefix(s: Seq<SiteView>, i: int)
    requires
        0 <= i < s.len(),
    ensures
        sites_nodes(s.take(i + 1)) == sites_nodes(s.take(i)) + addresses_nodes(s[i].addresses, s[i].directives),
        sites_nodes(s.take(i + 1)) <= sites_nodes(s),
    decreases s.len(),
{
    let t = s.take(i + 1);
    assert(t.drop_last() =~= s.take(i));
    if i + 1 < s.len() {
        lemma_sites_nodes_prefix(s.drop_last(), i);
        assert(s.drop_last().take(i + 1) =~= t);
    } else {
        assert(t =~= s);
    }
}

/// Adds the sites of all addresses of a block.
fn build_block(b: &mut RouteGraphBuilder, site: &SiteBlock)
    requires
        old(b).wf(),
        steady(old(b)@),
        old(b)@.graph.nodes.len() + addresses_nodes(site_view(*site).addresses, site_view(*site).directives) < u32::MAX,
    ensures
        final(b).wf(),
        final(b)@ == build_addresses(site_view(*site).addresses, site_view(*site).directives, old(b)@),
{
    let ghost sv = site_view(*site);
    let ghost b0 = b@;
    let mut j: usize = 0;
    assert(sv.addresses.take(0) =~= Seq::<Seq<char>>::empty());
    while j < site.addresses.len()
        invariant
            j <= site.addresses@.len(),
            sv == site_view(*site),
            sv.addresses.len() == site.addresses@.len(),
            b.wf(),
            steady(b0),
            b0.graph.nodes.len() + addresses_nodes(sv.addresses, sv.directives) < u32::MAX,
            b@ == build_addresses(sv.addresses.take(j as int), sv.directives, b0),
        decreases site.addresses@.len() - j,
    {
        proof {
            lemma_addresses_nodes_prefix(sv.addresses, j as int, sv.directives);
            lemma_build_addresses(sv.addresses.take(j as int), sv.directives, b0);
        }
        build_address(b, site.addresses[j].as_str(), &site.directives);
        proof {
            let t = sv.addresses.take(j + 1);
            assert(t.drop_last() =~= sv.addresses.take(j as int));
            assert(t.last() == site.addresses@[j as int]@);
        }
        j = j + 1;
    }
    assert(sv.addresses.take(j as int) =~= sv.addresses);
}

/// The routing graph of a list of site blocks whose graph has fewer than
/// `u32::MAX` nodes.
pub fn build_graph(sites: &Vec<SiteBlock>) -> (r: RouteGraph)
    requires
        graph_nodes(sites_view(sites@)) < u32::MAX,
    ensures
        r.wf(),
        r@ == graph_of(sites_view(sites@)),
{
    let ghost sv = sites_view(sites@);
    let mut b = RouteGraphBuilder::new();
    // Single Client root
    b.push_node(NodeKind::Client, "Client");
    let ghost b0 = b@;
    proof {
        lemma_client_root();
    }
    let mut i: usize = 0;
    assert(sv.take(0) =~= Seq::<SiteView>::empty());
    while i < sites.len()
        invariant
            i <= sites@.len(),
            sv == sites_view(sites@),
            b.wf(),
            b0 == client_root(),
            steady(b0),
            b0.graph.nodes.len() == 1,
            1 + sites_nodes(sv) < u32::MAX,
            b@ == build_sites(sv.take(i as int), b0),
        decreases sites@.len() - i,
    {
        proof {
            lemma_sites_nodes_prefix(sv, i as int);
            lemma_build_sites(sv.take(i as int), b0);
        }
        build_block(&mut b, &sites[i]);
        proof {
            let t = sv.take(i + 1);
            assert(t.drop_last() =~= sv.take(i as int));
            assert(t.last() == site_view(sites@[i as int]));
        }
        i = i + 1;
    }
    assert(sv.take(i as int) =~= sv);
    b.build()
}

} // verus!
