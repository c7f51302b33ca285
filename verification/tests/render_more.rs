use routegraph::render::{DotRenderer, MermaidRenderer};
use routegraph::{EdgeCondition, NodeKind, Renderer, RouteGraph};

fn chain() -> RouteGraph {
    let mut b = RouteGraph::builder();
    b.push_node(NodeKind::Client, "Client");
    b.push_node(NodeKind::Listener, ":443");
    b.push_node(NodeKind::Host, "example.com");
    b.push_node(NodeKind::Backend, "http://backend:8080");
    b.build()
}

#[test]
fn dot_exact_output() {
    let dot = DotRenderer::new().render(&chain());
    let expected = "digraph RouteGraph {\n    rankdir=TB;\n    node [shape=box, style=\"rounded,filled\"];\n    edge [fontsize=10];\n\n    n0[label=\"Client\", fillcolor=\"#4A90D9\", fontcolor=\"white\", shape=\"ellipse\"];\n    n1[label=\":443\", fillcolor=\"#7B68EE\", fontcolor=\"white\"];\n    n2[label=\"example.com\", fillcolor=\"#5B9BD5\", fontcolor=\"white\"];\n    n3[label=\"http://backend:8080\", fillcolor=\"#2ECC71\", fontcolor=\"white\", shape=\"cylinder\"];\n\n    n0 -> n1;\n    n1 -> n2;\n    n2 -> n3;\n}\n";
    assert_eq!(dot, expected);
}

#[test]
fn dot_escapes_ports_and_conditions() {
    let mut b = RouteGraph::builder();
    b.push_node(NodeKind::Client, "Client");
    b.push_node(NodeKind::PathMatch, "a\"b\\c\nd");
    b.set_port(8080);
    b.set_condition(EdgeCondition::PathPrefix("/x\"".to_string()));
    b.push_node(NodeKind::Middleware, "m");
    b.set_condition(EdgeCondition::Always);
    let dot = DotRenderer::new().with_title("T").render(&b.build());
    assert!(dot.contains("    n1[label=\"a\\\"b\\\\c\\nd\", fillcolor=\"#FFA500\", tooltip=\"port: 8080\"];\n"));
    assert!(dot.contains("    n2[label=\"m\", fillcolor=\"#FFD700\", shape=\"diamond\"];\n"));
    assert!(dot.contains("    n0 -> n1 [label=\"/x\\\"*\"];\n"));
    assert!(dot.contains("    n1 -> n2;\n"));
    assert!(dot.starts_with("digraph T {\n"));
}

#[test]
fn renderer_names() {
    assert_eq!(DotRenderer::new().format_name(), "dot");
    assert_eq!(MermaidRenderer::default().format_name(), "mermaid");
}

#[test]
fn mermaid_exact_output() {
    let m = MermaidRenderer::new().render(&chain());
    let expected = "%% RouteGraph\ngraph TD\n    n0(\"Client\")\n    n1[\":443\"]\n    n2[\"example.com\"]\n    n3[(\"http://backend:8080\")]\n\n    n0 --> n1\n    n1 --> n2\n    n2 --> n3\n\nclassDef client fill:#4A90D9,color:#fff\nclassDef listener fill:#7B68EE,color:#fff\nclassDef host fill:#5B9BD5,color:#fff\nclassDef path fill:#FFA500,color:#000\nclassDef middleware fill:#FFD700,color:#000\nclassDef backend fill:#2ECC71,color:#fff\nclass n0 client\nclass n1 listener\nclass n2 host\nclass n3 backend\n";
    assert_eq!(m, expected);
}

#[test]
fn mermaid_escapes_labels_and_conditions() {
    let mut b = RouteGraph::builder();
    b.push_node(NodeKind::Client, "Client");
    b.push_node(NodeKind::PathMatch, "<{\"x\"}>");
    b.set_condition(EdgeCondition::HeaderMatch { name: "H".to_string(), value: "<v>".to_string() });
    let m = MermaidRenderer::new().render(&b.build());
    assert!(m.contains("    n1[\"&lt;&#123;&quot;x&quot;&#125;&gt;\"]\n"));
    assert!(m.contains("    n0 -->|H: &lt;v&gt;| n1\n"));
    assert!(m.contains("class n1 path\n"));
}

#[test]
fn empty_graph_renders_frame_only() {
    let g = RouteGraph::new();
    let m = MermaidRenderer::new().render(&g);
    assert!(m.starts_with("%% RouteGraph\ngraph TD\n\n\nclassDef client"));
    let d = DotRenderer::default().render(&g);
    assert!(d.ends_with("edge [fontsize=10];\n\n\n}\n"));
}
