use routegraph::cli::{detect_format, exec_tree_is_finite, parse_config, render_graph, summary, CliError};
use routegraph::{NodeKind, RouteGraph};

#[test]
fn summary_of_a_site() {
    let g = parse_config("example.com {\n    reverse_proxy localhost:3000\n}\n", "auto").unwrap();
    assert!(exec_tree_is_finite(&g));
    let s = summary(&g);
    let expected = "RouteGraph Summary\n==================\nNodes: 4\nEdges: 3\n\n  client: 1\n  listener: 1\n  host: 1\n  backend: 1\n\nClient [client]\n  └─ :80 [listener]\n    └─ example.com [host]\n      └─ localhost:3000 [backend]\n";
    assert_eq!(s, expected);
}

#[test]
fn summary_lists_validation_errors() {
    let mut b = RouteGraph::builder();
    b.push_node(NodeKind::Client, "A");
    b.push_node(NodeKind::Client, "B");
    let g = b.build();
    let s = summary(&g);
    assert!(s.contains("\nValidation errors:\n  - 2 Client nodes found, expected at most 1\n"));
    assert!(!s.contains("must have no incoming edges"));
    assert!(s.contains("  client: 2\n"));
    assert!(s.ends_with("A [client]\n  └─ B [client]\n"));
}

#[test]
fn format_selection() {
    assert_eq!(detect_format("x {\n reverse_proxy a\n}").unwrap(), "caddy");
    assert!(matches!(detect_format("hello"), Err(CliError::UndetectedFormat)));
    assert!(matches!(parse_config("hello", "auto"), Err(CliError::UndetectedFormat)));
    match parse_config("x", "nginx") {
        Err(e) => assert_eq!(e.message(), "Unsupported format: nginx. Supported: caddy"),
        Ok(_) => panic!("nginx accepted"),
    }
    match parse_config("\"", "caddy") {
        Err(CliError::Parse(pe)) => assert_eq!(pe.to_string(), "syntax error (line 1): unterminated quoted string"),
        _ => panic!("expected a parse error"),
    }
    assert_eq!(
        CliError::UndetectedFormat.message(),
        "Could not auto-detect config format. Use --format to specify: caddy"
    );
}

#[test]
fn renderer_selection() {
    let g = parse_config(":80 {\n}", "caddy").unwrap();
    assert!(render_graph(&g, "dot", None).unwrap().starts_with("digraph RouteGraph {"));
    assert!(render_graph(&g, "mermaid", Some("X")).unwrap().starts_with("%% X\n"));
    match render_graph(&g, "svg", None) {
        Err(e) => assert_eq!(e.message(), "Unknown renderer: svg. Supported: dot, mermaid"),
        Ok(_) => panic!("svg accepted"),
    }
}

#[test]
fn cycles_are_detected() {
    let mut b = RouteGraph::builder();
    let c = b.push_node(NodeKind::Client, "Client");
    let l = b.push_node(NodeKind::Listener, ":80");
    b.add_connection(l, c, None);
    assert!(!exec_tree_is_finite(&b.build()));
}

#[test]
fn summary_follows_a_backward_edge_without_a_cycle() {
    let mut b = RouteGraph::builder();
    b.push_node(NodeKind::Client, "A");
    let x = b.push_node(NodeKind::Listener, "B");
    b.pop_node();
    let y = b.push_node(NodeKind::Host, "C");
    b.add_connection(y, x, None);
    b.pop_node();
    let g = b.build();
    assert!(exec_tree_is_finite(&g));
    let s = summary(&g);
    assert!(s.ends_with("\n\nA [client]\n  └─ B [listener]\n  └─ C [host]\n    └─ B [listener]\n"));
}
