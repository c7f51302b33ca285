//! Graphviz DOT renderer for RouteGraph.
//!
//! Produces a DOT-format graph that can be rendered with `dot`:
//!
//! ```bash
//! routegraph render -r dot config/Caddyfile | dot -Tpng -o routes.png
//! ```
use vstd::prelude::*;
use vstd::string::*;

use crate::model::{
    condition_text, id_text, Edge, EdgeView, GraphView, Node, NodeKind, NodeView,
    RouteGraph,
};
use crate::text::{decimal, push_char, push_decimal, str_eq, string_of};
use crate::traits::Renderer;

verus! {

/// What a DOT string literal holds for one character of a label.
pub open spec fn dot_escape_char(c: char) -> Seq<char> {
    if c == '\\' {
        "\\\\"@
    } else if c == '"' {
        "\\\""@
    } else if c == '\n' {
        "\\n"@
    } else {
        seq![c]
    }
}

/// A label escaped for a DOT string literal: backslashes, double quotes and
/// newlines are written with a backslash.
pub open spec fn dot_escape(s: Seq<char>) -> Seq<char>
    decreases s.len(),
{
    if s.len() == 0 {
        Seq::empty()
    } else {
        dot_escape(s.drop_last()) + dot_escape_char(s.last())
    }
}

/// Fill and font colour of a node kind.
pub open spec fn dot_colors(kind: NodeKind) -> (Seq<char>, Seq<char>) {
    match kind {
        NodeKind::Client => ("#4A90D9"@, "white"@),
        NodeKind::Listener => ("#7B68EE"@, "white"@),
        NodeKind::Host => ("#5B9BD5"@, "white"@),
        NodeKind::PathMatch => ("#FFA500"@, "black"@),
        NodeKind::Middleware => ("#FFD700"@, "black"@),
        NodeKind::Backend => ("#2ECC71"@, "white"@),
    }
}

/// Shape of a node kind.
pub open spec fn dot_shape(kind: NodeKind) -> Seq<char> {
    match kind {
        NodeKind::Client => "ellipse"@,
        NodeKind::Middleware => "diamond"@,
        NodeKind::Backend => "cylinder"@,
        _ => "box"@,
    }
}

/// The colour and shape attributes of a node kind (font colour and shape
/// only where they differ from black and box).
pub open spec fn dot_style(kind: NodeKind) -> Seq<char> {
    let (fill, font) = dot_colors(kind);
    let shape = dot_shape(kind);
    ", fillcolor=\""@ + fill + "\""@ + (if font != "black"@ {
        ", fontcolor=\""@ + font + "\""@
    } else {
        Seq::empty()
    }) + (if shape != "box"@ {
        ", shape=\""@ + shape + "\""@
    } else {
        Seq::empty()
    })
}

/// The tooltip attribute for a port, if any.
pub open spec fn dot_port(port: Option<u16>) -> Seq<char> {
    match port {
        Some(p) => ", tooltip=\"port: "@ + decimal(p as nat) + "\""@,
        None => Seq::empty(),
    }
}

/// The statement for one node.
pub open spec fn dot_node_line(n: NodeView) -> Seq<char> {
    "    "@ + id_text(n.id) + "["@ + "label=\""@ + dot_escape(n.label) + "\""@ + dot_style(n.kind)
        + dot_port(n.metadata.port) + "];\n"@
}

/// The statement for one edge; the label is the displayed condition, when not empty.
pub open spec fn dot_edge_line(e: EdgeView) -> Seq<char> {
    "    "@ + id_text(e.source) + " -> "@ + id_text(e.target) + (match e.condition {
        Some(c) => if condition_text(c).len() > 0 {
            " [label=\""@ + dot_escape(condition_text(c)) + "\"]"@
        } else {
            Seq::empty()
        },
        None => Seq::empty(),
    }) + ";\n"@
}

pub open spec fn dot_node_lines(nodes: Seq<NodeView>) -> Seq<char>
    decreases nodes.len(),
{
    if nodes.len() == 0 {
        Seq::empty()
    } else {
        dot_node_lines(nodes.drop_last()) + dot_node_line(nodes.last())
    }
}

pub open spec fn dot_edge_lines(edges: Seq<EdgeView>) -> Seq<char>
    decreases edges.len(),
{
    if edges.len() == 0 {
        Seq::empty()
    } else {
        dot_edge_lines(edges.drop_last()) + dot_edge_line(edges.last())
    }
}

/// The opening of the DOT document.
pub open spec fn dot_header(title: Seq<char>) -> Seq<char> {
    "digraph "@ + title + " {\n"@ + "    rankdir=TB;\n"@
        + "    node [shape=box, style=\"rounded,filled\"];\n"@ + "    edge [fontsize=10];\n\n"@
}

/// The whole DOT document for a graph: header, one statement per node in
/// order, a blank line, one statement per edge in order, closing brace.
pub open spec fn dot_text(title: Seq<char>, g: GraphView) -> Seq<char> {
    dot_header(title) + dot_node_lines(g.nodes) + "\n"@ + dot_edge_lines(g.edges) + "}\n"@
}

/// Renders a [`RouteGraph`] as a Graphviz DOT graph.
pub struct DotRenderer {
    title: String,
}

impl View for DotRenderer {
    type V = Seq<char>;

    /// The title.
    closed spec fn view(&self) -> Seq<char> {
        self.title@
    }
}

impl DotRenderer {
    /// Creates a new DOT renderer, titled `RouteGraph`.
    pub fn new() -> (r: Self)
        ensures
            r@ == "RouteGraph"@,
    {
        DotRenderer { title: string_of("RouteGraph") }
    }

    /// Sets the graph title.
    pub fn with_title(self, title: &str) -> (r: Self)
        ensures
            r@ == title@,
    {
        DotRenderer { title: string_of(title) }
    }
}

impl Default for DotRenderer {
    fn default() -> (r: Self)
        ensures
            r@ == "RouteGraph"@,
    {
        Self::new()
    }
}

fn node_colors(kind: &NodeKind) -> (r: (&'static str, &'static str))
    ensures
        (r.0@, r.1@) == dot_colors(*kind),
{
    match kind {
        NodeKind::Client => ("#4A90D9", "white"),
        NodeKind::Listener => ("#7B68EE", "white"),
        NodeKind::Host => ("#5B9BD5", "white"),
        NodeKind::PathMatch => ("#FFA500", "black"),
        NodeKind::Middleware => ("#FFD700", "black"),
        NodeKind::Backend => ("#2ECC71", "white"),
    }
}

fn node_shape(kind: &NodeKind) -> (r: &'static str)
    ensures
        r@ == dot_shape(*kind),
{
    match kind {
        NodeKind::Client => "ellipse",
        NodeKind::Middleware => "diamond",
        NodeKind::Backend => "cylinder",
        NodeKind::Listener | NodeKind::Host | NodeKind::PathMatch => "box",
    }
}

/// Appends `s` escaped for a DOT string literal.
fn push_escaped_dot(out: &mut String, s: &str)
    ensures
        final(out)@ == old(out)@ + dot_escape(s@),
{
    let chars = crate::text::chars_of(s);
    let mut i: usize = 0;
    while i < chars.len()
        invariant
            i <= chars@.len(),
            chars@ == s@,
            out@ == old(out)@ + dot_escape(chars@.take(i as int)),
        decreases chars@.len() - i,
    {
        let c = chars[i];
        if c == '\\' {
            out.append("\\\\");
        } else if c == '"' {
            out.append("\\\"");
        } else if c == '\n' {
            out.append("\\n");
        } else {
            push_char(out, c);
        }
        proof {
            let t = chars@.take(i + 1);
            assert(t.drop_last() =~= chars@.take(i as int));
            assert(t.last() == c);
        }
        i = i + 1;
    }
    assert(chars@.take(i as int) =~= chars@);
}

fn push_style(out: &mut String, kind: &NodeKind)
    ensures
        final(out)@ == old(out)@ + dot_style(*kind),
{
    let (fillcolor, fontcolor) = node_colors(kind);
    out.append(", fillcolor=\"");
    out.append(fillcolor);
    out.append("\"");
    if !str_eq(fontcolor, "black") {
        out.append(", fontcolor=\"");
        out.append(fontcolor);
        out.append("\"");
    }
    let shape = node_shape(kind);
    if !str_eq(shape, "box") {
        out.append(", shape=\"");
        out.append(shape);
        out.append("\"");
    }
    assert(final(out)@ =~= old(out)@ + dot_style(*kind));
}

fn push_port(out: &mut String, port: Option<u16>)
    ensures
        final(out)@ == old(out)@ + dot_port(port),
{
    if let Some(port) = port {
        out.append(", tooltip=\"port: ");
        push_decimal(out, port as u64);
        out.append("\"");
    }
    assert(final(out)@ =~= old(out)@ + dot_port(port));
}

fn push_node_line(out: &mut String, node: &Node)
    ensures
        final(out)@ == old(out)@ + dot_node_line(node@),
{
    out.append("    ");
    let id = node.id.to_string();
    out.append(id.as_str());
    out.append("[");
    out.append("label=\"");
    push_escaped_dot(out, node.label.as_str());
    out.append("\"");
    push_style(out, &node.kind);
    push_port(out, node.metadata.port);
    out.append("];\n");
    assert(final(out)@ =~= old(out)@ + dot_node_line(node@));
}

fn push_edge_line(out: &mut String, edge: &Edge)
    ensures
        final(out)@ == old(out)@ + dot_edge_line(edge@),
{
    out.append("    ");
    let s = edge.source.to_string();
    out.append(s.as_str());
    out.append(" -> ");
    let t = edge.target.to_string();
    out.append(t.as_str());
    if let Some(cond) = &edge.condition {
        let lbl = cond.to_string();
        if lbl.as_str().unicode_len() > 0 {
            out.append(" [label=\"");
            push_escaped_dot(out, lbl.as_str());
            out.append("\"]");
        }
    }
    out.append(";\n");
    assert(final(out)@ =~= old(out)@ + dot_edge_line(edge@));
}

impl Renderer for DotRenderer {
    fn format_name(&self) -> (r: &str)
        ensures
            r@ == "dot"@,
    {
        "dot"
    }

    fn render(&self, graph: &RouteGraph) -> (r: String)
        ensures
            r@ == dot_text(self@, graph@),
    {
        let mut out = String::new();
        out.append("digraph ");
        out.append(self.title.as_str());
        out.append(" {\n");
        out.append("    rankdir=TB;\n");
        out.append("    node [shape=box, style=\"rounded,filled\"];\n");
        out.append("    edge [fontsize=10];\n\n");
        assert(out@ =~= dot_header(self@));

        // Nodes
        let nodes = graph.nodes();
        let ghost head = out@;
        let mut i: usize = 0;
        while i < nodes.len()
            invariant
                i <= nodes@.len(),
                nodes@.map_values(|n: Node| n@) == graph@.nodes,
                out@ == head + dot_node_lines(graph@.nodes.take(i as int)),
            decreases nodes@.len() - i,
        {
            push_node_line(&mut out, &nodes[i]);
            proof {
                let t = graph@.nodes.take(i + 1);
                assert(t.drop_last() =~= graph@.nodes.take(i as int));
                assert(t.last() == nodes@[i as int]@);
            }
            i = i + 1;
        }
        assert(graph@.nodes.take(i as int) =~= graph@.nodes);
        push_char(&mut out, '\n');

        // Edges
        let edges = graph.edges();
        let ghost head2 = out@;
        let mut j: usize = 0;
        while j < edges.len()
            invariant
                j <= edges@.len(),
                edges@.map_values(|e: Edge| e@) == graph@.edges,
                out@ == head2 + dot_edge_lines(graph@.edges.take(j as int)),
            decreases edges@.len() - j,
        {
            push_edge_line(&mut out, &edges[j]);
            proof {
                let t = graph@.edges.take(j + 1);
                assert(t.drop_last() =~= graph@.edges.take(j as int));
                assert(t.last() == edges@[j as int]@);
            }
            j = j + 1;
        }
        assert(graph@.edges.take(j as int) =~= graph@.edges);
        out.append("}\n");
        proof {
            reveal_strlit("\n");
        }
        assert(out@ =~= dot_text(self@, graph@));
        out
    }
}

} // verus!
