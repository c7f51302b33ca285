use routegraph::render::{DotRenderer, MermaidRenderer};
use routegraph::{NodeKind, Renderer, RouteGraph};

fn build_simple_graph() -> RouteGraph {
    let mut b = RouteGraph::builder();
    b.push_node(NodeKind::Client, "Client");
    b.push_node(NodeKind::Listener, ":443");
    b.push_node(NodeKind::Host, "example.com");
    b.push_node(NodeKind::Backend, "http://backend:8080");
    b.build()
}

#[test]
fn test_empty_graph() {
    let graph = RouteGraph::new();
    let renderer = DotRenderer::new();
    let result = renderer.render(&graph);
    assert!(result.contains("digraph"));
}

#[test]
fn dot_test_basic_graph() {
    let graph = build_simple_graph();
    let renderer = DotRenderer::new();
    let dot = renderer.render(&graph);

    assert!(dot.starts_with("digraph RouteGraph"));
    assert!(dot.contains("n0"));
    assert!(dot.contains("n0 -> n1"));
    assert!(dot.contains("example.com"));
    assert!(dot.contains("http://backend:8080"));
}

#[test]
fn dot_test_custom_title() {
    let mut b = RouteGraph::builder();
    b.push_node(NodeKind::Client, "Client");
    let graph = b.build();

    let renderer = DotRenderer::new().with_title("MyRoutes");
    let dot = renderer.render(&graph);
    assert!(dot.starts_with("digraph MyRoutes"));
}

#[test]
fn mermaid_test_basic_graph() {
    let graph = build_simple_graph();
    let renderer = MermaidRenderer::new();
    let mermaid = renderer.render(&graph);

    assert!(mermaid.contains("graph TD"));
    assert!(mermaid.contains("n0 --> n1"));
    assert!(mermaid.contains("example.com"));
    assert!(mermaid.contains("http://backend:8080"));
    assert!(mermaid.contains("classDef backend"));
}

#[test]
fn mermaid_test_custom_title() {
    let mut b = RouteGraph::builder();
    b.push_node(NodeKind::Client, "Client");
    let graph = b.build();

    let renderer = MermaidRenderer::new().with_title("MyRoutes");
    let mermaid = renderer.render(&graph);
    assert!(mermaid.starts_with("%% MyRoutes"));
}

#[test]
fn test_middleware_diamond_shape() {
    let mut b = RouteGraph::builder();
    b.push_node(NodeKind::Client, "Client");
    b.push_node(NodeKind::Listener, ":80");
    b.push_node(NodeKind::Middleware, "auth");
    b.push_node(NodeKind::Backend, "be:8080");
    let graph = b.build();

    let renderer = MermaidRenderer::new();
    let mermaid = renderer.render(&graph);
    assert!(mermaid.contains("{\"auth\"}"));
}
