//! What the command-line tool decides and prints: the choice of input format
//! and renderer, and the text of a graph summary.
use vstd::prelude::*;
use vstd::string::*;

use crate::error::ParseError;
use crate::model::{
    has_walk, kind_text, lemma_first_client, lemma_out_edges, messages, out_edges, tree_is_finite,
    GraphView, NodeId, NodeKind, NodeView, RouteGraph,
};
use crate::parse::caddy::{caddy_detect, caddy_parse, CaddyParser};
use crate::render::{dot_text, mermaid_text, DotRenderer, MermaidRenderer};
use crate::text::{
    contains, decimal, lemma_contains_each_of_six, lemma_contains_piece, lemma_contains_within,
    newline_count, push_decimal,
    str_eq, string_of,
};
use crate::traits::{DetectionConfidence, FormatDetector, Parser, Renderer};

verus! {

// ---------------------------------------------------------------------------
// Choosing the format and the renderer
// ---------------------------------------------------------------------------

/// Why the tool could not produce a graph or its rendering.
#[derive(Debug)]
pub enum CliError {
    /// `auto` was asked for and no format was recognised.
    UndetectedFormat,
    /// The named input format is not supported.
    UnsupportedFormat(String),
    /// The configuration did not parse.
    Parse(ParseError),
    /// The named renderer does not exist.
    UnknownRenderer(String),
}

/// The input format that auto-detection picks: Caddyfile when the detector
/// is at least fairly sure.
pub open spec fn detected_format(input: Seq<char>) -> Option<Seq<char>> {
    match caddy_detect(input) {
        DetectionConfidence::Likely | DetectionConfidence::Certain => Some("caddy"@),
        _ => None,
    }
}

/// The format to parse with: the one asked for, or the detected one for `auto`.
pub open spec fn resolved_format(input: Seq<char>, format: Seq<char>) -> Option<Seq<char>> {
    if format == "auto"@ {
        detected_format(input)
    } else {
        Some(format)
    }
}

impl CliError {
    /// The message the tool reports (a parse error is reported under the
    /// context `Caddyfile parse error`, see [`ParseError::to_string`]).
    pub fn message(&self) -> (r: String)
        ensures
            match self {
                CliError::UndetectedFormat => r@
                    == "Could not auto-detect config format. Use --format to specify: caddy"@,
                CliError::UnsupportedFormat(f) => r@ == "Unsupported format: "@ + f@
                    + ". Supported: caddy"@,
                CliError::Parse(_) => r@ == "Caddyfile parse error"@,
                CliError::UnknownRenderer(n) => r@ == "Unknown renderer: "@ + n@
                    + ". Supported: dot, mermaid"@,
            },
    {
        match self {
            CliError::UndetectedFormat => string_of(
                "Could not auto-detect config format. Use --format to specify: caddy",
            ),
            CliError::UnsupportedFormat(f) => {
                let mut s = string_of("Unsupported format: ");
                s.append(f.as_str());
                s.append(". Supported: caddy");
                s
            },
            CliError::Parse(_) => string_of("Caddyfile parse error"),
            CliError::UnknownRenderer(n) => {
                let mut s = string_of("Unknown renderer: ");
                s.append(n.as_str());
                s.append(". Supported: dot, mermaid");
                s
            },
        }
    }
}

/// Auto-detects the configuration format.
pub fn detect_format(input: &str) -> (r: Result<String, CliError>)
    ensures
        match detected_format(input@) {
            Some(f) => r matches Ok(s) && s@ == f,
            None => r matches Err(CliError::UndetectedFormat),
        },
{
    let parser = CaddyParser::new();
    let confidence = parser.detect(input);
    match confidence {
        DetectionConfidence::Likely | DetectionConfidence::Certain => Ok(string_of("caddy")),
        _ => Err(CliError::UndetectedFormat),
    }
}

/// Parses a configuration in the given format (`auto` to detect it).
pub fn parse_config(input: &str, format: &str) -> (r: Result<RouteGraph, CliError>)
    requires
        newline_count(input@) < u32::MAX,
    ensures
        match resolved_format(input@, format@) {
            None => r matches Err(CliError::UndetectedFormat),
            Some(f) => if f == "caddy"@ {
                match caddy_parse(input@) {
                    Ok(g) => r matches Ok(rg) && rg@ == g && rg.wf(),
                    Err(e) => r matches Err(CliError::Parse(pe)) && pe@ == e,
                }
            } else {
                r matches Err(CliError::UnsupportedFormat(s)) && s@ == f
            },
        },
{
    let resolved = if str_eq(format, "auto") {
        match detect_format(input) {
            Ok(f) => f,
            Err(e) => {
                return Err(e);
            },
        }
    } else {
        string_of(format)
    };
    if str_eq(resolved.as_str(), "caddy") {
        let parser = CaddyParser::new();
        match parser.parse(input) {
            Ok(g) => Ok(g),
            Err(e) => Err(CliError::Parse(e)),
        }
    } else {
        Err(CliError::UnsupportedFormat(resolved))
    }
}

/// Renders a graph with the named renderer (`dot` or `mermaid`), under the
/// given title or the renderer's default one.
pub fn render_graph(graph: &RouteGraph, renderer: &str, title: Option<&str>) -> (r: Result<String, CliError>)
    ensures
        ({
            let t = match title {
                Some(t) => t@,
                None => "RouteGraph"@,
            };
            if renderer@ == "dot"@ {
                r matches Ok(s) && s@ == dot_text(t, graph@)
            } else if renderer@ == "mermaid"@ {
                r matches Ok(s) && s@ == mermaid_text(t, graph@)
            } else {
                r matches Err(CliError::UnknownRenderer(n)) && n@ == renderer@
            }
        }),
{
    if str_eq(renderer, "dot") {
        let mut r = DotRenderer::new();
        if let Some(t) = title {
            r = r.with_title(t);
        }
        Ok(r.render(graph))
    } else if str_eq(renderer, "mermaid") {
        let mut r = MermaidRenderer::new();
        if let Some(t) = title {
            r = r.with_title(t);
        }
        Ok(r.render(graph))
    } else {
        Err(CliError::UnknownRenderer(string_of(renderer)))
    }
}

// ---------------------------------------------------------------------------
// The summary
// ---------------------------------------------------------------------------

/// The number of nodes of a kind.
pub open spec fn count_kind(nodes: Seq<NodeView>, k: NodeKind) -> nat
    decreases nodes.len(),
{
    if nodes.len() == 0 {
        0
    } else {
        count_kind(nodes.drop_last(), k) + if nodes.last().kind == k {
            1nat
        } else {
            0nat
        }
    }
}

/// The count line of a kind, shown when there is such a node.
pub open spec fn kind_count_line(nodes: Seq<NodeView>, k: NodeKind) -> Seq<char> {
    if count_kind(nodes, k) > 0 {
        "  "@ + kind_text(k) + ": "@ + decimal(count_kind(nodes, k)) + "\n"@
    } else {
        Seq::empty()
    }
}

/// The count lines, kind by kind from client to backend.
pub open spec fn kind_lines(nodes: Seq<NodeView>) -> Seq<char> {
    kind_count_line(nodes, NodeKind::Client) + kind_count_line(nodes, NodeKind::Listener)
        + kind_count_line(nodes, NodeKind::Host) + kind_count_line(nodes, NodeKind::PathMatch)
        + kind_count_line(nodes, NodeKind::Middleware) + kind_count_line(nodes, NodeKind::Backend)
}

/// One line per validation message.
pub open spec fn problem_lines(msgs: Seq<Seq<char>>) -> Seq<char>
    decreases msgs.len(),
{
    if msgs.len() == 0 {
        Seq::empty()
    } else {
        problem_lines(msgs.drop_last()) + "  - "@ + msgs.last() + "\n"@
    }
}

/// `depth` levels of two-space indentation.
pub open spec fn indent(depth: nat) -> Seq<char>
    decreases depth,
{
    if depth == 0 {
        Seq::empty()
    } else {
        indent((depth - 1) as nat) + "  "@
    }
}

/// The tree line of a node at a depth.
pub open spec fn tree_line(n: NodeView, depth: nat) -> Seq<char> {
    indent(depth) + (if depth == 0 {
        Seq::empty()
    } else {
        "└─ "@
    }) + n.label + " ["@ + kind_text(n.kind) + "]\n"@
}

/// The tree below node `id`, shown at `depth`: its line, then the trees of
/// its children in edge order, one level deeper, down to `fuel` more levels
/// (see [`lemma_tree_text_whole`]: where no walk of `fuel` edges leaves `id`,
/// the limit cuts nothing off).
pub open spec fn tree_text(g: GraphView, id: u32, depth: nat, fuel: nat) -> Seq<char>
    decreases fuel, 0int,
{
    if id >= g.nodes.len() {
        Seq::empty()
    } else {
        tree_line(g.nodes[id as int], depth) + if fuel == 0 {
            Seq::empty()
        } else {
            children_text(g, id, 0, depth + 1, (fuel - 1) as nat)
        }
    }
}

/// The trees of the children of `id`, from its `k`-th outgoing edge on.
pub open spec fn children_text(g: GraphView, id: u32, k: int, depth: nat, fuel: nat) -> Seq<char>
    decreases fuel, out_edges(g.edges, id).len() - k,
{
    if k < 0 || k >= out_edges(g.edges, id).len() {
        Seq::empty()
    } else {
        tree_text(g, g.edges[out_edges(g.edges, id)[k] as int].target, depth, fuel)
            + children_text(g, id, k + 1, depth, fuel)
    }
}

/// Where no walk of `f` edges leaves node `v`, showing its tree to `f`
/// levels or to any more levels gives the same text: the tree is whole.
pub proof fn lemma_tree_text_whole(g: GraphView, v: u32, depth: nat, f: nat, f2: nat)
    requires
        g.inv(),
        !has_walk(g, v, f),
        f <= f2,
    ensures
        tree_text(g, v, depth, f) == tree_text(g, v, depth, f2),
    decreases f, 0int,
{
    if v < g.nodes.len() {
        lemma_children_text_whole(g, v, 0, depth + 1, (f - 1) as nat, (f2 - 1) as nat);
    }
}

proof fn lemma_children_text_whole(g: GraphView, v: u32, k: int, depth: nat, f: nat, f2: nat)
    requires
        g.inv(),
        !has_walk(g, v, f + 1),
        f <= f2,
    ensures
        children_text(g, v, k, depth, f) == children_text(g, v, k, depth, f2),
    decreases f, out_edges(g.edges, v).len() - k,
{
    if 0 <= k < out_edges(g.edges, v).len() {
        lemma_out_edges(g.edges, v);
        let e = out_edges(g.edges, v)[k] as int;
        assert(g.edges[e].source == v);
        let c = g.edges[e].target;
        assert(!has_walk(g, c, f));
        lemma_tree_text_whole(g, c, depth, f, f2);
        lemma_children_text_whole(g, v, k + 1, depth, f, f2);
    }
}

/// The number of nodes of each kind adds up to the number of nodes.
pub proof fn lemma_kind_counts_sum(nodes: Seq<NodeView>)
    ensures
        count_kind(nodes, NodeKind::Client) + count_kind(nodes, NodeKind::Listener) + count_kind(
            nodes,
            NodeKind::Host,
        ) + count_kind(nodes, NodeKind::PathMatch) + count_kind(nodes, NodeKind::Middleware)
            + count_kind(nodes, NodeKind::Backend) == nodes.len(),
    decreases nodes.len(),
{
    if nodes.len() > 0 {
        lemma_kind_counts_sum(nodes.drop_last());
    }
}

/// The validation section of the summary: the messages, if there are any.
pub open spec fn problems_section(g: GraphView) -> Seq<char> {
    if g.problems().len() > 0 {
        "\n"@ + "Validation errors:\n"@ + problem_lines(g.problems())
    } else {
        Seq::empty()
    }
}

/// The summary that `routegraph parse` prints.
pub open spec fn summary_text(g: GraphView) -> Seq<char> {
    "RouteGraph Summary\n"@ + "==================\n"@ + "Nodes: "@ + decimal(g.nodes.len())
        + "\n"@ + "Edges: "@ + decimal(g.edges.len()) + "\n"@ + problems_section(g) + "\n"@ + kind_lines(g.nodes) + "\n"@ + (match g.root() {
        Some(r) => tree_text(g, r, 0, g.nodes.len()),
        None => Seq::empty(),
    })
}

/// Whether a walk of `k + 1` edges leaves `v` through one of the first `i` edges.
spec fn walk_through(g: GraphView, v: u32, k: nat, i: int) -> bool {
    exists|e: int|
        0 <= e < i && (#[trigger] g.edges[e]).source == v && has_walk(g, g.edges[e].target, k)
}

/// Whether the tree below the root is finite (see [`tree_is_finite`]).
pub fn exec_tree_is_finite(graph: &RouteGraph) -> (r: bool)
    ensures
        r == tree_is_finite(graph@),
{
    proof {
        use_type_invariant(graph);
    }
    let ghost g = graph@;
    proof {
        graph.lemma_wf_inv();
    }
    let root = match graph.root_id() {
        Some(r) => r,
        None => {
            proof {
                reveal(tree_is_finite);
            }
            return true;
        },
    };
    let n = graph.node_count();
    let edges = graph.edges();
    // `walks[v]`: whether a walk of `k` edges leaves `v`.
    let mut walks: Vec<bool> = Vec::new();
    while walks.len() < n
        invariant
            walks@.len() <= n,
            forall|v: int| 0 <= v < walks@.len() ==> #[trigger] walks@[v],
        decreases n - walks@.len(),
    {
        walks.push(true);
    }
    let mut k: usize = 0;
    while k < n
        invariant
            g == graph@,
            g.inv(),
            n == g.nodes.len(),
            edges@.map_values(|e: crate::model::Edge| e@) == g.edges,
            k <= n,
            walks@.len() == n,
            forall|v: int| 0 <= v < n ==> #[trigger] walks@[v] == has_walk(g, v as u32, k as nat),
        decreases n - k,
    {
        let mut next: Vec<bool> = Vec::new();
        while next.len() < n
            invariant
                next@.len() <= n,
                forall|v: int| 0 <= v < next@.len() ==> !#[trigger] next@[v],
            decreases n - next@.len(),
        {
            next.push(false);
        }
        let mut i: usize = 0;
        while i < edges.len()
            invariant
                g.inv(),
                n == g.nodes.len(),
                edges@.map_values(|e: crate::model::Edge| e@) == g.edges,
                i <= edges@.len(),
                walks@.len() == n,
                next@.len() == n,
                forall|v: int| 0 <= v < n ==> #[trigger] walks@[v] == has_walk(g, v as u32, k as nat),
                forall|v: int|
                    0 <= v < n ==> #[trigger] next@[v] == walk_through(g, v as u32, k as nat, i as int),
            decreases edges@.len() - i,
        {
            assert(g.edges[i as int] == edges@[i as int]@);
            let s = edges[i].source.as_u32() as usize;
            let t = edges[i].target.as_u32() as usize;
            assert(walks@[t as int] == has_walk(g, t as u32, k as nat));
            if walks[t] {
                next.set(s, true);
            }
            proof {
                assert forall|v: int| 0 <= v < n implies #[trigger] next@[v] == walk_through(
                    g,
                    v as u32,
                    k as nat,
                    i + 1,
                ) by {
                    if walk_through(g, v as u32, k as nat, i + 1) && !walk_through(g, v as u32, k as nat, i as int) {
                        let e = choose|e: int|
                            0 <= e < i + 1 && (#[trigger] g.edges[e]).source == v as u32 && has_walk(
                                g,
                                g.edges[e].target,
                                k as nat,
                            );
                        assert(e == i);
                    }
                    if v == s && walks@[t as int] {
                        assert(g.edges[i as int].source == v as u32);
                    }
                }
            }
            i = i + 1;
        }
        proof {
            assert forall|v: int| 0 <= v < n implies #[trigger] next@[v] == has_walk(
                g,
                v as u32,
                (k + 1) as nat,
            ) by {
                assert(walk_through(g, v as u32, k as nat, g.edges.len() as int) == has_walk(
                    g,
                    v as u32,
                    (k + 1) as nat,
                ));
            }
        }
        walks = next;
        k = k + 1;
    }
    proof {
        lemma_first_client(g.nodes);
    }
    assert(walks@[root@ as int] == has_walk(g, root@, n as nat));
    proof {
        reveal(tree_is_finite);
    }
    !walks[root.as_u32() as usize]
}

fn push_tree(out: &mut String, graph: &RouteGraph, id: NodeId, depth: usize, fuel: usize)
    requires
        graph.wf(),
        depth + fuel <= graph@.nodes.len(),
    ensures
        final(out)@ == old(out)@ + tree_text(graph@, id@, depth as nat, fuel as nat),
    decreases fuel,
{
    let node = match graph.get_node(id) {
        Some(n) => n,
        None => {
            assert(final(out)@ =~= old(out)@);
            return;
        },
    };
    let ghost g = graph@;
    let ghost start = out@;
    let mut d: usize = 0;
    while d < depth
        invariant
            d <= depth,
            out@ == start + indent(d as nat),
        decreases depth - d,
    {
        out.append("  ");
        d = d + 1;
    }
    if depth != 0 {
        out.append("└─ ");
    }
    out.append(node.label.as_str());
    out.append(" [");
    let k = node.kind.to_string();
    out.append(k.as_str());
    out.append("]\n");
    assert(out@ =~= start + tree_line(g.nodes[id@ as int], depth as nat));
    if fuel == 0 {
        assert(out@ =~= start + tree_text(g, id@, depth as nat, fuel as nat));
        return;
    }
    proof {
        graph.lemma_wf_inv();
        lemma_out_edges(g.edges, id@);
    }
    let children = graph.children_ids(id);
    let mut j: usize = 0;
    while j < children.len()
        invariant
            graph.wf(),
            g == graph@,
            g.inv(),
            id@ < g.nodes.len(),
            0 < fuel,
            depth + fuel <= g.nodes.len(),
            j <= children@.len(),
            children@.len() == out_edges(g.edges, id@).len(),
            forall|m: int|
                0 <= m < children@.len() ==> (#[trigger] children@[m])@ == g.edges[out_edges(
                    g.edges,
                    id@,
                )[m] as int].target,
            out@ + children_text(g, id@, j as int, depth as nat + 1, (fuel - 1) as nat) == start
                + tree_text(g, id@, depth as nat, fuel as nat),
        decreases children@.len() - j,
    {
        let c = children[j];
        let ghost before = out@;
        push_tree(out, graph, c, depth + 1, fuel - 1);
        assert(children_text(g, id@, j as int, depth as nat + 1, (fuel - 1) as nat) == tree_text(
            g,
            c@,
            depth as nat + 1,
            (fuel - 1) as nat,
        ) + children_text(g, id@, j + 1, depth as nat + 1, (fuel - 1) as nat));
        assert(out@ + children_text(g, id@, j + 1, depth as nat + 1, (fuel - 1) as nat) =~= before
            + children_text(g, id@, j as int, depth as nat + 1, (fuel - 1) as nat));
        j = j + 1;
    }
    assert(children_text(g, id@, j as int, depth as nat + 1, (fuel - 1) as nat) =~= Seq::<
        char,
    >::empty());
}

fn push_kind_line(out: &mut String, kind: NodeKind, count: usize, Ghost(nodes): Ghost<Seq<NodeView>>)
    requires
        count == count_kind(nodes, kind),
    ensures
        final(out)@ == old(out)@ + kind_count_line(nodes, kind),
{
    if count > 0 {
        out.append("  ");
        let k = kind.to_string();
        out.append(k.as_str());
        out.append(": ");
        push_decimal(out, count as u64);
        out.append("\n");
    }
    assert(final(out)@ =~= old(out)@ + kind_count_line(nodes, kind));
}

/// The count line of every kind is among the count lines.
proof fn lemma_kind_lines_contain(n: Seq<NodeView>, k: NodeKind)
    ensures
        contains(kind_lines(n), kind_count_line(n, k)),
{
    lemma_contains_each_of_six(
        kind_count_line(n, NodeKind::Client),
        kind_count_line(n, NodeKind::Listener),
        kind_count_line(n, NodeKind::Host),
        kind_count_line(n, NodeKind::PathMatch),
        kind_count_line(n, NodeKind::Middleware),
        kind_count_line(n, NodeKind::Backend),
    );
}

/// The summary lists every kind that occurs, with its count: for each kind
/// with nodes, it holds the line `  <kind>: <count>`.
pub proof fn lemma_summary_lists_kinds(g: GraphView, k: NodeKind)
    ensures
        count_kind(g.nodes, k) > 0 ==> contains(
            summary_text(g),
            "  "@ + kind_text(k) + ": "@ + decimal(count_kind(g.nodes, k)) + "\n"@,
        ),
{
    if count_kind(g.nodes, k) > 0 {
        lemma_kind_lines_contain(g.nodes, k);
        let kl = kind_lines(g.nodes);
        let pre = "RouteGraph Summary\n"@ + "==================\n"@ + "Nodes: "@ + decimal(g.nodes.len())
            + "\n"@ + "Edges: "@ + decimal(g.edges.len()) + "\n"@ + problems_section(g) + "\n"@;
        let tree = match g.root() {
            Some(r) => tree_text(g, r, 0, g.nodes.len()),
            None => Seq::empty(),
        };
        lemma_contains_within(pre, kl, "\n"@ + tree, kind_count_line(g.nodes, k));
        assert(pre + kl + ("\n"@ + tree) =~= summary_text(g));
    }
}

fn push_problems(out: &mut String, graph: &RouteGraph)
    requires
        graph.wf(),
    ensures
        final(out)@ == old(out)@ + problems_section(graph@),
{
    let ghost start = out@;
    match graph.validate() {
        Ok(_) => {},
        Err(errors) => {
            out.append("\n");
            out.append("Validation errors:\n");
            let ghost mid = out@;
            let mut i: usize = 0;
            assert(messages(errors@).take(0) =~= Seq::<Seq<char>>::empty());
            while i < errors.len()
                invariant
                    i <= errors@.len(),
                    out@ == mid + problem_lines(messages(errors@).take(i as int)),
                decreases errors@.len() - i,
            {
                let ghost t = messages(errors@).take(i + 1);
                assert(t.drop_last() =~= messages(errors@).take(i as int));
                assert(t.last() == errors@[i as int].message@);
                out.append("  - ");
                out.append(errors[i].message.as_str());
                out.append("\n");
                i = i + 1;
            }
            assert(messages(errors@).take(i as int) =~= messages(errors@));
        },
    }
    assert(out@ =~= start + problems_section(graph@));
}

fn push_kind_counts(out: &mut String, graph: &RouteGraph)
    requires
        graph.wf(),
    ensures
        final(out)@ == old(out)@ + kind_lines(graph@.nodes),
{
    let ghost g = graph@;
    let nodes = graph.nodes();
    let mut c_client: usize = 0;
    let mut c_listener: usize = 0;
    let mut c_host: usize = 0;
    let mut c_path: usize = 0;
    let mut c_middleware: usize = 0;
    let mut c_backend: usize = 0;
    let mut i: usize = 0;
    assert(g.nodes.take(0) =~= Seq::<NodeView>::empty());
    while i < nodes.len()
        invariant
            i <= nodes@.len(),
            nodes@.map_values(|n: crate::model::Node| n@) == g.nodes,
            c_client == count_kind(g.nodes.take(i as int), NodeKind::Client),
            c_listener == count_kind(g.nodes.take(i as int), NodeKind::Listener),
            c_host == count_kind(g.nodes.take(i as int), NodeKind::Host),
            c_path == count_kind(g.nodes.take(i as int), NodeKind::PathMatch),
            c_middleware == count_kind(g.nodes.take(i as int), NodeKind::Middleware),
            c_backend == count_kind(g.nodes.take(i as int), NodeKind::Backend),
            c_client <= i && c_listener <= i && c_host <= i && c_path <= i && c_middleware <= i
                && c_backend <= i,
        decreases nodes@.len() - i,
    {
        let ghost t = g.nodes.take(i + 1);
        assert(t.drop_last() =~= g.nodes.take(i as int));
        assert(t.last() == nodes@[i as int]@);
        match nodes[i].kind {
            NodeKind::Client => c_client = c_client + 1,
            NodeKind::Listener => c_listener = c_listener + 1,
            NodeKind::Host => c_host = c_host + 1,
            NodeKind::PathMatch => c_path = c_path + 1,
            NodeKind::Middleware => c_middleware = c_middleware + 1,
            NodeKind::Backend => c_backend = c_backend + 1,
        }
        i = i + 1;
    }
    assert(g.nodes.take(i as int) =~= g.nodes);
    let ghost before_kinds = out@;
    push_kind_line(out, NodeKind::Client, c_client, Ghost(g.nodes));
    push_kind_line(out, NodeKind::Listener, c_listener, Ghost(g.nodes));
    push_kind_line(out, NodeKind::Host, c_host, Ghost(g.nodes));
    push_kind_line(out, NodeKind::PathMatch, c_path, Ghost(g.nodes));
    push_kind_line(out, NodeKind::Middleware, c_middleware, Ghost(g.nodes));
    push_kind_line(out, NodeKind::Backend, c_backend, Ghost(g.nodes));
    assert(out@ =~= before_kinds + kind_lines(g.nodes));
}

/// The summary of a graph: counts, validation errors, counts by kind and the
/// tree below the root.
///
/// The tree below the root must be finite (as in every graph the Caddyfile
/// parser produces): with a cycle reachable from the root it would have no end.
pub fn summary(graph: &RouteGraph) -> (r: String)
    requires
        tree_is_finite(graph@),
    ensures
        r@ == summary_text(graph@),
{
    proof {
        use_type_invariant(graph);
    }
    let ghost g = graph@;
    let mut out = string_of("RouteGraph Summary\n");
    out.append("==================\n");
    out.append("Nodes: ");
    push_decimal(&mut out, graph.node_count() as u64);
    out.append("\n");
    out.append("Edges: ");
    push_decimal(&mut out, graph.edge_count() as u64);
    out.append("\n");
    push_problems(&mut out, graph);
    out.append("\n");
    push_kind_counts(&mut out, graph);
    out.append("\n");
    let ghost before_tree = out@;
    match graph.root_id() {
        Some(root) => {
            proof {
                lemma_first_client(g.nodes);
            }
            push_tree(&mut out, graph, root, 0, graph.node_count());
        },
        None => {},
    }
    assert(out@ =~= summary_text(g));
    out
}

} // verus!
