//! Mermaid diagram renderer for RouteGraph.
//!
//! Produces a [Mermaid](https://mermaid.js.org/) flowchart that can be
//! embedded in Markdown, GitHub README, or any Mermaid-compatible viewer.
use vstd::prelude::*;
use vstd::string::*;

use crate::model::{condition_text, id_text, Edge, EdgeView, GraphView, Node, NodeKind, NodeView, RouteGraph};
use crate::text::{
    contains, lemma_contains_each_of_six, lemma_contains_piece, lemma_contains_trans,
    lemma_contains_within, occurs_at, push_char, string_of,
};
use crate::traits::Renderer;

verus! {

/// What Mermaid text holds for one character of a label.
pub open spec fn mermaid_escape_char(c: char) -> Seq<char> {
    if c == '"' {
        "&quot;"@
    } else if c == '{' {
        "&#123;"@
    } else if c == '}' {
        "&#125;"@
    } else if c == '<' {
        "&lt;"@
    } else if c == '>' {
        "&gt;"@
    } else {
        seq![c]
    }
}

/// A label escaped for Mermaid: `"`, `{`, `}`, `<`, `>` become HTML entities.
pub open spec fn mermaid_escape(s: Seq<char>) -> Seq<char>
    decreases s.len(),
{
    if s.len() == 0 {
        Seq::empty()
    } else {
        mermaid_escape(s.drop_last()) + mermaid_escape_char(s.last())
    }
}

/// The Mermaid node shapes that the renderer uses.
enum MermaidShape {
    Rounded,
    Stadium,
    Diamond,
    Cylinder,
}

/// A label wrapped in the brackets of the shape for a node kind: stadium
/// for `Client`, diamond for `Middleware`, cylinder for `Backend`, rounded
/// otherwise.
pub open spec fn mermaid_shaped(kind: NodeKind, label: Seq<char>) -> Seq<char> {
    match kind {
        NodeKind::Client => "(\""@ + label + "\")"@,
        NodeKind::Middleware => "{\""@ + label + "\"}"@,
        NodeKind::Backend => "[(\""@ + label + "\")]"@,
        _ => "[\""@ + label + "\"]"@,
    }
}

/// The style class of a node kind.
pub open spec fn mermaid_class(kind: NodeKind) -> Seq<char> {
    match kind {
        NodeKind::Client => "client"@,
        NodeKind::Listener => "listener"@,
        NodeKind::Host => "host"@,
        NodeKind::PathMatch => "path"@,
        NodeKind::Middleware => "middleware"@,
        NodeKind::Backend => "backend"@,
    }
}

/// The declaration of one node.
pub open spec fn mermaid_node_line(n: NodeView) -> Seq<char> {
    "    "@ + id_text(n.id) + mermaid_shaped(n.kind, mermaid_escape(n.label)) + "\n"@
}

/// The line of one edge; the label is the displayed condition, when not empty.
pub open spec fn mermaid_edge_line(e: EdgeView) -> Seq<char> {
    "    "@ + id_text(e.source) + " -->"@ + (match e.condition {
        Some(c) => if condition_text(c).len() > 0 {
            "|"@ + mermaid_escape(condition_text(c)) + "|"@
        } else {
            Seq::empty()
        },
        None => Seq::empty(),
    }) + " "@ + id_text(e.target) + "\n"@
}

/// The class assignment of one node.
pub open spec fn mermaid_class_line(n: NodeView) -> Seq<char> {
    "class "@ + id_text(n.id) + " "@ + mermaid_class(n.kind) + "\n"@
}

pub open spec fn mermaid_node_lines(nodes: Seq<NodeView>) -> Seq<char>
    decreases nodes.len(),
{
    if nodes.len() == 0 {
        Seq::empty()
    } else {
        mermaid_node_lines(nodes.drop_last()) + mermaid_node_line(nodes.last())
    }
}

pub open spec fn mermaid_edge_lines(edges: Seq<EdgeView>) -> Seq<char>
    decreases edges.len(),
{
    if edges.len() == 0 {
        Seq::empty()
    } else {
        mermaid_edge_lines(edges.drop_last()) + mermaid_edge_line(edges.last())
    }
}

pub open spec fn mermaid_class_lines(nodes: Seq<NodeView>) -> Seq<char>
    decreases nodes.len(),
{
    if nodes.len() == 0 {
        Seq::empty()
    } else {
        mermaid_class_lines(nodes.drop_last()) + mermaid_class_line(nodes.last())
    }
}

/// The style class definitions.
pub open spec fn mermaid_class_defs() -> Seq<char> {
    "\nclassDef client fill:#4A90D9,color:#fff\n"@ + "classDef listener fill:#7B68EE,color:#fff\n"@
        + "classDef host fill:#5B9BD5,color:#fff\n"@ + "classDef path fill:#FFA500,color:#000\n"@
        + "classDef middleware fill:#FFD700,color:#000\n"@
        + "classDef backend fill:#2ECC71,color:#fff\n"@
}

/// The whole flowchart: title comment, `graph TD`, one declaration per node,
/// a blank line, one line per edge, the class definitions, one class
/// assignment per node.
pub open spec fn mermaid_text(title: Seq<char>, g: GraphView) -> Seq<char> {
    "%% "@ + title + "\n"@ + "graph TD\n"@ + mermaid_node_lines(g.nodes) + "\n"@
        + mermaid_edge_lines(g.edges) + mermaid_class_defs() + mermaid_class_lines(g.nodes)
}

/// Different node kinds get different style classes.
pub proof fn lemma_mermaid_classes_distinct(k1: NodeKind, k2: NodeKind)
    ensures
        k1 != k2 ==> mermaid_class(k1) != mermaid_class(k2),
{
    reveal_strlit("client");
    reveal_strlit("listener");
    reveal_strlit("host");
    reveal_strlit("path");
    reveal_strlit("middleware");
    reveal_strlit("backend");
    if k1 != k2 {
        let a = mermaid_class(k1);
        let b = mermaid_class(k2);
        if a.len() == b.len() {
            assert(a[0] != b[0] || a[1] != b[1]);
        }
    }
}

proof fn lemma_class_lines_contain(nodes: Seq<NodeView>, i: int)
    requires
        0 <= i < nodes.len(),
    ensures
        contains(mermaid_class_lines(nodes), mermaid_class_line(nodes[i])),
    decreases nodes.len(),
{
    let p = nodes.drop_last();
    if i < nodes.len() - 1 {
        lemma_class_lines_contain(p, i);
        assert(p[i] == nodes[i]);
        lemma_contains_within(Seq::empty(), mermaid_class_lines(p), mermaid_class_line(nodes.last()), mermaid_class_line(nodes[i]));
        assert(Seq::<char>::empty() + mermaid_class_lines(p) + mermaid_class_line(nodes.last()) =~= mermaid_class_lines(nodes));
    } else {
        lemma_contains_piece(mermaid_class_lines(p), mermaid_class_line(nodes.last()), Seq::empty());
        assert(mermaid_class_lines(p) + mermaid_class_line(nodes.last()) + Seq::<char>::empty() =~= mermaid_class_lines(nodes));
    }
}

proof fn lemma_def_client()
    ensures
        contains("\nclassDef client fill:#4A90D9,color:#fff\n"@, "classDef "@ + "client"@ + " fill:"@ + "#4A90D9"@),
{
    reveal_strlit("\nclassDef client fill:#4A90D9,color:#fff\n");
    reveal_strlit("classDef ");
    reveal_strlit("client");
    reveal_strlit(" fill:");
    reveal_strlit("#4A90D9");
    let d = "\nclassDef client fill:#4A90D9,color:#fff\n"@;
    let x = "classDef "@ + "client"@ + " fill:"@ + "#4A90D9"@;
    assert(d.subrange(1, 1 + x.len() as int) =~= x);
    assert(occurs_at(d, x, 1));
}

proof fn lemma_def_listener()
    ensures
        contains("classDef listener fill:#7B68EE,color:#fff\n"@, "classDef "@ + "listener"@ + " fill:"@ + "#7B68EE"@),
{
    reveal_strlit("classDef listener fill:#7B68EE,color:#fff\n");
    reveal_strlit("classDef ");
    reveal_strlit("listener");
    reveal_strlit(" fill:");
    reveal_strlit("#7B68EE");
    let d = "classDef listener fill:#7B68EE,color:#fff\n"@;
    let x = "classDef "@ + "listener"@ + " fill:"@ + "#7B68EE"@;
    assert(d.subrange(0, 0 + x.len() as int) =~= x);
    assert(occurs_at(d, x, 0));
}

proof fn lemma_def_host()
    ensures
        contains("classDef host fill:#5B9BD5,color:#fff\n"@, "classDef "@ + "host"@ + " fill:"@ + "#5B9BD5"@),
{
    reveal_strlit("classDef host fill:#5B9BD5,color:#fff\n");
    reveal_strlit("classDef ");
    reveal_strlit("host");
    reveal_strlit(" fill:");
    reveal_strlit("#5B9BD5");
    let d = "classDef host fill:#5B9BD5,color:#fff\n"@;
    let x = "classDef "@ + "host"@ + " fill:"@ + "#5B9BD5"@;
    assert(d.subrange(0, 0 + x.len() as int) =~= x);
    assert(occurs_at(d, x, 0));
}

proof fn lemma_def_path()
    ensures
        contains("classDef path fill:#FFA500,color:#000\n"@, "classDef "@ + "path"@ + " fill:"@ + "#FFA500"@),
{
    reveal_strlit("classDef path fill:#FFA500,color:#000\n");
    reveal_strlit("classDef ");
    reveal_strlit("path");
    reveal_strlit(" fill:");
    reveal_strlit("#FFA500");
    let d = "classDef path fill:#FFA500,color:#000\n"@;
    let x = "classDef "@ + "path"@ + " fill:"@ + "#FFA500"@;
    assert(d.subrange(0, 0 + x.len() as int) =~= x);
    assert(occurs_at(d, x, 0));
}

proof fn lemma_def_middleware()
    ensures
        contains("classDef middleware fill:#FFD700,color:#000\n"@, "classDef "@ + "middleware"@ + " fill:"@ + "#FFD700"@),
{
    reveal_strlit("classDef middleware fill:#FFD700,color:#000\n");
    reveal_strlit("classDef ");
    reveal_strlit("middleware");
    reveal_strlit(" fill:");
    reveal_strlit("#FFD700");
    let d = "classDef middleware fill:#FFD700,color:#000\n"@;
    let x = "classDef "@ + "middleware"@ + " fill:"@ + "#FFD700"@;
    assert(d.subrange(0, 0 + x.len() as int) =~= x);
    assert(occurs_at(d, x, 0));
}

proof fn lemma_def_backend()
    ensures
        contains("classDef backend fill:#2ECC71,color:#fff\n"@, "classDef "@ + "backend"@ + " fill:"@ + "#2ECC71"@),
{
    reveal_strlit("classDef backend fill:#2ECC71,color:#fff\n");
    reveal_strlit("classDef ");
    reveal_strlit("backend");
    reveal_strlit(" fill:");
    reveal_strlit("#2ECC71");
    let d = "classDef backend fill:#2ECC71,color:#fff\n"@;
    let x = "classDef "@ + "backend"@ + " fill:"@ + "#2ECC71"@;
    assert(d.subrange(0, 0 + x.len() as int) =~= x);
    assert(occurs_at(d, x, 0));
}

/// The style definitions start each class with its fill colour.
proof fn lemma_class_defs(k: NodeKind)
    ensures
        contains(
            mermaid_class_defs(),
            "classDef "@ + mermaid_class(k) + " fill:"@ + match k {
                NodeKind::Client => "#4A90D9"@,
                NodeKind::Listener => "#7B68EE"@,
                NodeKind::Host => "#5B9BD5"@,
                NodeKind::PathMatch => "#FFA500"@,
                NodeKind::Middleware => "#FFD700"@,
                NodeKind::Backend => "#2ECC71"@,
            },
        ),
{
    lemma_contains_each_of_six("\nclassDef client fill:#4A90D9,color:#fff\n"@, "classDef listener fill:#7B68EE,color:#fff\n"@, "classDef host fill:#5B9BD5,color:#fff\n"@, "classDef path fill:#FFA500,color:#000\n"@, "classDef middleware fill:#FFD700,color:#000\n"@, "classDef backend fill:#2ECC71,color:#fff\n"@);
    match k {
        NodeKind::Client => {
            lemma_def_client();
            lemma_contains_trans(mermaid_class_defs(), "\nclassDef client fill:#4A90D9,color:#fff\n"@, "classDef "@ + "client"@ + " fill:"@ + "#4A90D9"@);
        },
        NodeKind::Listener => {
            lemma_def_listener();
            lemma_contains_trans(mermaid_class_defs(), "classDef listener fill:#7B68EE,color:#fff\n"@, "classDef "@ + "listener"@ + " fill:"@ + "#7B68EE"@);
        },
        NodeKind::Host => {
            lemma_def_host();
            lemma_contains_trans(mermaid_class_defs(), "classDef host fill:#5B9BD5,color:#fff\n"@, "classDef "@ + "host"@ + " fill:"@ + "#5B9BD5"@);
        },
        NodeKind::PathMatch => {
            lemma_def_path();
            lemma_contains_trans(mermaid_class_defs(), "classDef path fill:#FFA500,color:#000\n"@, "classDef "@ + "path"@ + " fill:"@ + "#FFA500"@);
        },
        NodeKind::Middleware => {
            lemma_def_middleware();
            lemma_contains_trans(mermaid_class_defs(), "classDef middleware fill:#FFD700,color:#000\n"@, "classDef "@ + "middleware"@ + " fill:"@ + "#FFD700"@);
        },
        NodeKind::Backend => {
            lemma_def_backend();
            lemma_contains_trans(mermaid_class_defs(), "classDef backend fill:#2ECC71,color:#fff\n"@, "classDef "@ + "backend"@ + " fill:"@ + "#2ECC71"@);
        },
    }
}

/// Every node is styled by the class of its own kind: the flowchart assigns
/// node `n<i>` that class, and defines the class with the fill colour of the
/// kind (client `#4A90D9`, listener `#7B68EE`, host `#5B9BD5`, path matcher
/// `#FFA500`, middleware `#FFD700`, backend `#2ECC71`).
pub proof fn lemma_mermaid_node_styles(title: Seq<char>, g: GraphView, i: int)
    requires
        0 <= i < g.nodes.len(),
    ensures
        contains(
            mermaid_text(title, g),
            "class "@ + id_text(g.nodes[i].id) + " "@ + mermaid_class(g.nodes[i].kind) + "\n"@,
        ),
        contains(
            mermaid_text(title, g),
            "classDef "@ + mermaid_class(g.nodes[i].kind) + " fill:"@ + match g.nodes[i].kind {
                NodeKind::Client => "#4A90D9"@,
                NodeKind::Listener => "#7B68EE"@,
                NodeKind::Host => "#5B9BD5"@,
                NodeKind::PathMatch => "#FFA500"@,
                NodeKind::Middleware => "#FFD700"@,
                NodeKind::Backend => "#2ECC71"@,
            },
        ),
{
    let head = "%% "@ + title + "\n"@ + "graph TD\n"@ + mermaid_node_lines(g.nodes) + "\n"@
        + mermaid_edge_lines(g.edges);
    lemma_class_lines_contain(g.nodes, i);
    lemma_contains_within(head + mermaid_class_defs(), mermaid_class_lines(g.nodes), Seq::empty(), mermaid_class_line(g.nodes[i]));
    assert(head + mermaid_class_defs() + mermaid_class_lines(g.nodes) + Seq::<char>::empty() =~= mermaid_text(title, g));
    lemma_class_defs(g.nodes[i].kind);
    lemma_contains_within(head, mermaid_class_defs(), mermaid_class_lines(g.nodes), "classDef "@ + mermaid_class(g.nodes[i].kind) + " fill:"@ + match g.nodes[i].kind {
        NodeKind::Client => "#4A90D9"@,
        NodeKind::Listener => "#7B68EE"@,
        NodeKind::Host => "#5B9BD5"@,
        NodeKind::PathMatch => "#FFA500"@,
        NodeKind::Middleware => "#FFD700"@,
        NodeKind::Backend => "#2ECC71"@,
    });
}

/// Renders a [`RouteGraph`] as a Mermaid flowchart.
pub struct MermaidRenderer {
    title: String,
}

impl View for MermaidRenderer {
    type V = Seq<char>;

    /// The title.
    closed spec fn view(&self) -> Seq<char> {
        self.title@
    }
}

impl MermaidRenderer {
    /// Creates a new Mermaid renderer, titled `RouteGraph`.
    pub fn new() -> (r: Self)
        ensures
            r@ == "RouteGraph"@,
    {
        MermaidRenderer { title: string_of("RouteGraph") }
    }

    /// Sets the graph title.
    pub fn with_title(self, title: &str) -> (r: Self)
        ensures
            r@ == title@,
    {
        MermaidRenderer { title: string_of(title) }
    }
}

impl Default for MermaidRenderer {
    fn default() -> (r: Self)
        ensures
            r@ == "RouteGraph"@,
    {
        Self::new()
    }
}

fn node_shape(kind: &NodeKind) -> (r: MermaidShape)
    ensures
        r == (match *kind {
            NodeKind::Client => MermaidShape::Stadium,
            NodeKind::Middleware => MermaidShape::Diamond,
            NodeKind::Backend => MermaidShape::Cylinder,
            _ => MermaidShape::Rounded,
        }),
{
    match kind {
        NodeKind::Client => MermaidShape::Stadium,
        NodeKind::Middleware => MermaidShape::Diamond,
        NodeKind::Backend => MermaidShape::Cylinder,
        _ => MermaidShape::Rounded,
    }
}

/// Appends `label` in the brackets of `shape`.
fn push_shaped(out: &mut String, shape: &MermaidShape, label: &str)
    ensures
        final(out)@ == old(out)@ + (match *shape {
            MermaidShape::Stadium => "(\""@ + label@ + "\")"@,
            MermaidShape::Diamond => "{\""@ + label@ + "\"}"@,
            MermaidShape::Cylinder => "[(\""@ + label@ + "\")]"@,
            MermaidShape::Rounded => "[\""@ + label@ + "\"]"@,
        }),
{
    match shape {
        MermaidShape::Rounded => {
            out.append("[\"");
            out.append(label);
            out.append("\"]");
        },
        MermaidShape::Stadium => {
            out.append("(\"");
            out.append(label);
            out.append("\")");
        },
        MermaidShape::Diamond => {
            out.append("{\"");
            out.append(label);
            out.append("\"}");
        },
        MermaidShape::Cylinder => {
            out.append("[(\"");
            out.append(label);
            out.append("\")]");
        },
    }
    assert(final(out)@ =~= old(out)@ + (match *shape {
        MermaidShape::Stadium => "(\""@ + label@ + "\")"@,
        MermaidShape::Diamond => "{\""@ + label@ + "\"}"@,
        MermaidShape::Cylinder => "[(\""@ + label@ + "\")]"@,
        MermaidShape::Rounded => "[\""@ + label@ + "\"]"@,
    }));
}

/// `s` escaped for Mermaid.
fn escape_mermaid(s: &str) -> (r: String)
    ensures
        r@ == mermaid_escape(s@),
{
    let mut out = String::new();
    let chars = crate::text::chars_of(s);
    let mut i: usize = 0;
    while i < chars.len()
        invariant
            i <= chars@.len(),
            chars@ == s@,
            out@ == mermaid_escape(chars@.take(i as int)),
        decreases chars@.len() - i,
    {
        let c = chars[i];
        if c == '"' {
            out.append("&quot;");
        } else if c == '{' {
            out.append("&#123;");
        } else if c == '}' {
            out.append("&#125;");
        } else if c == '<' {
            out.append("&lt;");
        } else if c == '>' {
            out.append("&gt;");
        } else {
            push_char(&mut out, c);
        }
        proof {
            let t = chars@.take(i + 1);
            assert(t.drop_last() =~= chars@.take(i as int));
            assert(t.last() == c);
        }
        i = i + 1;
    }
    assert(chars@.take(i as int) =~= chars@);
    out
}

fn class_name(kind: &NodeKind) -> (r: &'static str)
    ensures
        r@ == mermaid_class(*kind),
{
    match kind {
        NodeKind::Client => "client",
        NodeKind::Listener => "listener",
        NodeKind::Host => "host",
        NodeKind::PathMatch => "path",
        NodeKind::Middleware => "middleware",
        NodeKind::Backend => "backend",
    }
}

fn push_node_line(out: &mut String, node: &Node)
    ensures
        final(out)@ == old(out)@ + mermaid_node_line(node@),
{
    out.append("    ");
    let id = node.id.to_string();
    out.append(id.as_str());
    let shape = node_shape(&node.kind);
    let label = escape_mermaid(node.label.as_str());
    push_shaped(out, &shape, label.as_str());
    push_char(out, '\n');
    proof {
        reveal_strlit("\n");
    }
    assert(final(out)@ =~= old(out)@ + mermaid_node_line(node@));
}

fn push_edge_line(out: &mut String, edge: &Edge)
    ensures
        final(out)@ == old(out)@ + mermaid_edge_line(edge@),
{
    out.append("    ");
    let s = edge.source.to_string();
    out.append(s.as_str());
    out.append(" -->");
    if let Some(cond) = &edge.condition {
        let lbl = cond.to_string();
        if lbl.as_str().unicode_len() > 0 {
            push_char(out, '|');
            let esc = escape_mermaid(lbl.as_str());
            out.append(esc.as_str());
            push_char(out, '|');
        }
    }
    push_char(out, ' ');
    let t = edge.target.to_string();
    out.append(t.as_str());
    push_char(out, '\n');
    proof {
        reveal_strlit("\n");
        reveal_strlit(" ");
        reveal_strlit("|");
    }
    assert(final(out)@ =~= old(out)@ + mermaid_edge_line(edge@));
}

fn push_class_line(out: &mut String, node: &Node)
    ensures
        final(out)@ == old(out)@ + mermaid_class_line(node@),
{
    out.append("class ");
    let id = node.id.to_string();
    out.append(id.as_str());
    push_char(out, ' ');
    out.append(class_name(&node.kind));
    push_char(out, '\n');
    proof {
        reveal_strlit("\n");
        reveal_strlit(" ");
    }
    assert(final(out)@ =~= old(out)@ + mermaid_class_line(node@));
}

impl Renderer for MermaidRenderer {
    fn format_name(&self) -> (r: &str)
        ensures
            r@ == "mermaid"@,
    {
        "mermaid"
    }

    fn render(&self, graph: &RouteGraph) -> (r: String)
        ensures
            r@ == mermaid_text(self@, graph@),
    {
        let mut out = String::new();
        out.append("%% ");
        out.append(self.title.as_str());
        push_char(&mut out, '\n');
        out.append("graph TD\n");
        proof {
            reveal_strlit("\n");
        }
        let ghost head = out@;
        assert(head =~= "%% "@ + self@ + "\n"@ + "graph TD\n"@);

        // Nodes
        let nodes = graph.nodes();
        let mut i: usize = 0;
        while i < nodes.len()
            invariant
                i <= nodes@.len(),
                nodes@.map_values(|n: Node| n@) == graph@.nodes,
                out@ == head + mermaid_node_lines(graph@.nodes.take(i as int)),
            decreases nodes@.len() - i,
        {
            push_node_line(&mut out, &nodes[i]);
            proof {
                let t = graph@.nodes.take(i + 1);
                assert(t.drop_last() =~= graph@.nodes.take(i as int));
                assert(t.last() == nodes@[i as int]@);
            }
            i = i + 1;
        }
        assert(graph@.nodes.take(i as int) =~= graph@.nodes);
        push_char(&mut out, '\n');

        // Edges
        let edges = graph.edges();
        let ghost head2 = out@;
        let mut j: usize = 0;
        while j < edges.len()
            invariant
                j <= edges@.len(),
                edges@.map_values(|e: Edge| e@) == graph@.edges,
                out@ == head2 + mermaid_edge_lines(graph@.edges.take(j as int)),
            decreases edges@.len() - j,
        {
            push_edge_line(&mut out, &edges[j]);
            proof {
                let t = graph@.edges.take(j + 1);
                assert(t.drop_last() =~= graph@.edges.take(j as int));
                assert(t.last() == edges@[j as int]@);
            }
            j = j + 1;
        }
        assert(graph@.edges.take(j as int) =~= graph@.edges);

        // Style classes
        out.append("\nclassDef client fill:#4A90D9,color:#fff\n");
        out.append("classDef listener fill:#7B68EE,color:#fff\n");
        out.append("classDef host fill:#5B9BD5,color:#fff\n");
        out.append("classDef path fill:#FFA500,color:#000\n");
        out.append("classDef middleware fill:#FFD700,color:#000\n");
        out.append("classDef backend fill:#2ECC71,color:#fff\n");
        let ghost head3 = out@;
        let mut k: usize = 0;
        while k < nodes.len()
            invariant
                k <= nodes@.len(),
                nodes@.map_values(|n: Node| n@) == graph@.nodes,
                out@ == head3 + mermaid_class_lines(graph@.nodes.take(k as int)),
            decreases nodes@.len() - k,
        {
            push_class_line(&mut out, &nodes[k]);
            proof {
                let t = graph@.nodes.take(k + 1);
                assert(t.drop_last() =~= graph@.nodes.take(k as int));
                assert(t.last() == nodes@[k as int]@);
            }
            k = k + 1;
        }
        assert(graph@.nodes.take(k as int) =~= graph@.nodes);
        assert(out@ =~= mermaid_text(self@, graph@));
        out
    }
}

} // verus!
