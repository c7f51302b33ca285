use routegraph::parse::CaddyParser;
use routegraph::{DetectionConfidence, FormatDetector, NodeKind, Parser, Protocol};

#[test]
fn test_empty_input() {
    let parser = CaddyParser::new();
    let graph = parser.parse("").unwrap();
    assert_eq!(graph.node_count(), 1);
}

#[test]
fn test_simple_reverse_proxy() {
    let config = r#"
app.example.com {
    reverse_proxy localhost:3000
}
"#;
    let parser = CaddyParser::new();
    let graph = parser.parse(config).unwrap();

    let kinds: Vec<_> = graph.nodes().iter().map(|n| n.kind.clone()).collect();
    assert!(kinds.contains(&NodeKind::Client));
    assert!(kinds.contains(&NodeKind::Listener));
    assert!(kinds.contains(&NodeKind::Host));
    assert!(kinds.contains(&NodeKind::Backend));
}

#[test]
fn test_handle_path() {
    let config = r#"
example.com {
    handle_path /api/* {
        reverse_proxy localhost:8080
    }
}
"#;
    let parser = CaddyParser::new();
    let graph = parser.parse(config).unwrap();

    let labels: Vec<_> = graph.nodes().iter().map(|n| n.label.as_str()).collect();
    assert!(labels.contains(&"/api/*"));
    assert!(labels.contains(&"strip_prefix"));
    assert!(labels.contains(&"localhost:8080"));
}

#[test]
fn test_multiple_handles() {
    let config = r#"
example.com {
    handle /api/* {
        reverse_proxy localhost:8080
    }
    handle /static/* {
        reverse_proxy localhost:9000
    }
}
"#;
    let parser = CaddyParser::new();
    let graph = parser.parse(config).unwrap();

    let backends: Vec<_> = graph
        .nodes()
        .iter()
        .filter(|n| n.kind == NodeKind::Backend)
        .map(|n| n.label.as_str())
        .collect();
    assert!(backends.contains(&"localhost:8080"));
    assert!(backends.contains(&"localhost:9000"));
}

#[test]
fn test_detect_caddy() {
    let parser = CaddyParser::new();
    assert_eq!(
        parser.detect("example.com {\n    reverse_proxy localhost:8080\n}"),
        DetectionConfidence::Certain
    );
    assert_eq!(parser.detect("hello world"), DetectionConfidence::NotThisFormat);
}

#[test]
fn test_tls_detection() {
    let config = r#"
:443 {
    reverse_proxy localhost:8080
}
"#;
    let parser = CaddyParser::new();
    let graph = parser.parse(config).unwrap();

    let listener = graph
        .nodes()
        .iter()
        .find(|n| n.kind == NodeKind::Listener)
        .unwrap();
    assert_eq!(listener.metadata.protocol, Some(Protocol::Https));
    assert!(listener.metadata.tls.is_some());
}

#[test]
fn test_global_options_skipped() {
    let config = r#"
{
    admin off
    email test@example.com
}

example.com {
    reverse_proxy localhost:3000
}
"#;
    let parser = CaddyParser::new();
    let graph = parser.parse(config).unwrap();
    assert!(graph.nodes().iter().any(|n| n.kind == NodeKind::Backend));
}

#[test]
fn test_validation_passes() {
    let config = r#"
example.com {
    reverse_proxy localhost:3000
}
"#;
    let parser = CaddyParser::new();
    let graph = parser.parse(config).unwrap();
    assert!(graph.validate().is_ok());
}
