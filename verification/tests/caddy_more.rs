use routegraph::parse::routes::parse_address;
use routegraph::cli::exec_tree_is_finite;
use routegraph::parse::CaddyParser;
use routegraph::{
    DetectionConfidence, EdgeCondition, FormatDetector, NodeKind, ParseError, Parser, Protocol,
    RouteGraph,
};

fn parse(s: &str) -> RouteGraph {
    CaddyParser::new().parse(s).unwrap()
}

fn labels(g: &RouteGraph) -> Vec<(NodeKind, String)> {
    g.nodes().iter().map(|n| (n.kind, n.label.clone())).collect()
}

fn edges(g: &RouteGraph) -> Vec<(u32, u32)> {
    g.edges().iter().map(|e| (e.source.as_u32(), e.target.as_u32())).collect()
}

#[test]
fn format_name_is_caddy() {
    assert_eq!(CaddyParser::new().format_name(), "caddy");
}

#[test]
fn simple_site_shape() {
    let g = parse("example.com {\n    reverse_proxy localhost:3000\n}\n");
    assert_eq!(
        labels(&g),
        vec![
            (NodeKind::Client, "Client".to_string()),
            (NodeKind::Listener, ":80".to_string()),
            (NodeKind::Host, "example.com".to_string()),
            (NodeKind::Backend, "localhost:3000".to_string()),
        ]
    );
    assert_eq!(edges(&g), vec![(0, 1), (1, 2), (2, 3)]);
    let l = &g.nodes()[1];
    assert_eq!(l.metadata.port, Some(80));
    assert_eq!(l.metadata.protocol, Some(Protocol::Http));
    assert!(l.metadata.tls.is_none());
    assert_eq!(g.root_id().map(|r| r.as_u32()), Some(0));
}

#[test]
fn bare_port_has_no_host() {
    let g = parse(":8080 {\n reverse_proxy app:1\n}");
    assert_eq!(
        labels(&g),
        vec![
            (NodeKind::Client, "Client".to_string()),
            (NodeKind::Listener, ":8080".to_string()),
            (NodeKind::Backend, "app:1".to_string()),
        ]
    );
    assert_eq!(g.nodes()[1].metadata.port, Some(8080));
}

#[test]
fn host_and_port_split() {
    let g = parse("localhost:8443 {\n}");
    assert_eq!(g.nodes()[1].label, ":8443");
    assert_eq!(g.nodes()[1].metadata.port, Some(8443));
    assert_eq!(g.nodes()[2].label, "localhost");
}

#[test]
fn plus_sign_port_is_normalised() {
    let g = parse("example.com:+080 {\n}");
    assert_eq!(g.nodes()[1].label, ":80");
    assert_eq!(g.nodes()[2].label, "example.com");
}

#[test]
fn port_out_of_range_falls_back_to_80() {
    let g = parse("example.com:70000 {\n}");
    assert_eq!(g.nodes()[1].label, ":80");
    assert_eq!(g.nodes()[2].label, "example.com:70000");
}

#[test]
fn https_scheme_means_tls() {
    let g = parse("https://example.com {\n}");
    let l = &g.nodes()[1];
    assert_eq!(l.label, ":80");
    assert_eq!(l.metadata.protocol, Some(Protocol::Https));
    assert!(l.metadata.tls.as_ref().unwrap().auto);
    assert_eq!(g.nodes()[2].label, "https://example.com");
}

#[test]
fn comma_separated_addresses_make_separate_trees() {
    let g = parse("a.com, b.com {\n    reverse_proxy x:1\n}");
    assert_eq!(
        labels(&g),
        vec![
            (NodeKind::Client, "Client".to_string()),
            (NodeKind::Listener, ":80".to_string()),
            (NodeKind::Host, "a.com".to_string()),
            (NodeKind::Backend, "x:1".to_string()),
            (NodeKind::Listener, ":80".to_string()),
            (NodeKind::Host, "b.com".to_string()),
            (NodeKind::Backend, "x:1".to_string()),
        ]
    );
    assert_eq!(edges(&g), vec![(0, 1), (1, 2), (2, 3), (0, 4), (4, 5), (5, 6)]);
}

#[test]
fn handle_path_strips_prefix() {
    let g = parse("example.com {\n    handle_path /api/* {\n        reverse_proxy localhost:8080\n    }\n}");
    let strip = g.nodes().iter().find(|n| n.label == "strip_prefix").unwrap();
    assert_eq!(strip.kind, NodeKind::Middleware);
    assert_eq!(strip.metadata.custom, vec![("prefix".to_string(), "/api/*".to_string())]);
    assert_eq!(g.edges()[2].condition, Some(EdgeCondition::PathPrefix("/api/*".to_string())));
    assert_eq!(g.nodes()[5].label, "localhost:8080");
    assert_eq!(edges(&g), vec![(0, 1), (1, 2), (2, 3), (3, 4), (4, 5)]);
}

#[test]
fn handle_without_matcher_is_star() {
    let g = parse("example.com {\n    handle {\n        reverse_proxy x:1\n    }\n}");
    assert_eq!(g.nodes()[3].label, "*");
    assert_eq!(g.nodes()[3].kind, NodeKind::PathMatch);
    assert_eq!(g.edges()[2].condition, None);
}

#[test]
fn handle_with_path_sets_glob_condition() {
    let g = parse("example.com {\n    handle /api/* {\n        reverse_proxy x:1\n    }\n}");
    assert_eq!(g.edges()[2].condition, Some(EdgeCondition::PathGlob("/api/*".to_string())));
}

#[test]
fn reverse_proxy_with_path_matcher() {
    let g = parse("example.com {\n    reverse_proxy /api/* api:9000\n}");
    assert_eq!(g.nodes()[3].label, "/api/*");
    assert_eq!(g.nodes()[3].kind, NodeKind::PathMatch);
    assert_eq!(g.nodes()[4].label, "api:9000");
    assert_eq!(g.edges()[2].condition, Some(EdgeCondition::PathGlob("/api/*".to_string())));
    assert_eq!(g.edges()[3].condition, None);
}

#[test]
fn rewrite_and_redir_labels() {
    let g = parse(
        "example.com {\n    rewrite /a /b\n    rewrite /c\n    redir /old /new 301\n    redir https://x.com\n    redir https://y.com 308\n    redir /p /q\n}",
    );
    let l = labels(&g);
    assert_eq!(l[3], (NodeKind::PathMatch, "/a".to_string()));
    assert_eq!(l[4], (NodeKind::Middleware, "rewrite → /b".to_string()));
    assert_eq!(l[5], (NodeKind::Middleware, "rewrite → /c".to_string()));
    assert_eq!(l[6], (NodeKind::PathMatch, "/old".to_string()));
    assert_eq!(l[7], (NodeKind::Middleware, "redir → /new [301]".to_string()));
    assert_eq!(l[8], (NodeKind::Middleware, "redir → https://x.com [302]".to_string()));
    assert_eq!(l[9], (NodeKind::Middleware, "redir → https://y.com [308]".to_string()));
    assert_eq!(l[10], (NodeKind::PathMatch, "/p".to_string()));
    assert_eq!(l[11], (NodeKind::Middleware, "redir → /q [302]".to_string()));
    assert_eq!(l.len(), 12);
}

#[test]
fn middleware_directives_and_others() {
    let g = parse("example.com {\n    encode gzip zstd\n    log\n    file_server\n    reverse_proxy a:1\n}");
    let l = labels(&g);
    assert_eq!(l[3], (NodeKind::Middleware, "encode gzip zstd".to_string()));
    assert_eq!(l[4], (NodeKind::Middleware, "log".to_string()));
    assert_eq!(l[5], (NodeKind::Backend, "a:1".to_string()));
    assert_eq!(l.len(), 6);
}

#[test]
fn comments_quotes_and_placeholders() {
    let g = parse(
        "# global comment\nexample.com { # site\n    reverse_proxy \"local \\\"host\\\":1\" # trailing\n    reverse_proxy http://{host}:8080\n}",
    );
    assert_eq!(g.nodes()[3].label, "local \"host\":1");
    assert_eq!(g.nodes()[4].label, "http://{host}:8080");
}

#[test]
fn unterminated_quote_is_a_syntax_error() {
    let err = CaddyParser::new().parse("a {\n\"bc").unwrap_err();
    match &err {
        ParseError::Syntax { message, line } => {
            assert_eq!(message, "unterminated quoted string");
            assert_eq!(*line, 2);
        }
        other => panic!("unexpected {other:?}"),
    }
    assert_eq!(err.to_string(), "syntax error (line 2): unterminated quoted string");
}

#[test]
fn unterminated_global_block_is_a_syntax_error() {
    let err = CaddyParser::new().parse("{\n    admin off\n").unwrap_err();
    match err {
        ParseError::Syntax { message, line } => {
            assert_eq!(message, "unterminated global options block");
            assert_eq!(line, 1);
        }
        other => panic!("unexpected {other:?}"),
    }
    match CaddyParser::new().parse("\n\n{\n    admin off\n").unwrap_err() {
        ParseError::Syntax { message, line } => {
            assert_eq!(message, "unterminated global options block");
            assert_eq!(line, 3);
        }
        other => panic!("unexpected {other:?}"),
    }
}

#[test]
fn nested_global_block_is_skipped() {
    let g = parse("{\n    servers {\n        protocols h1\n    }\n}\n:9000 {\n}");
    assert_eq!(g.nodes()[1].label, ":9000");
    assert_eq!(g.node_count(), 2);
}

#[test]
fn parsed_graphs_validate_and_are_trees() {
    for cfg in [
        "",
        "example.com {\n reverse_proxy a:1\n}",
        "a.com, b.com:443 {\n handle /x/* {\n  encode gzip\n  reverse_proxy /y b:2\n }\n handle_path /z {\n  redir /q\n }\n}",
        ":80\n:81 {\n}",
    ] {
        let g = parse(cfg);
        assert!(g.validate().is_ok());
        assert_eq!(g.edge_count() + 1, g.node_count());
        assert_eq!(g.root().unwrap().label, "Client");
        assert_eq!(g.root_id().unwrap().as_u32(), 0);
        assert!(exec_tree_is_finite(&g));
        for n in g.nodes().iter().skip(1) {
            assert_eq!(g.parent_ids(n.id).len(), 1);
            assert_ne!(n.kind, NodeKind::Client);
        }
        assert!(g.parent_ids(g.root_id().unwrap()).is_empty());
        for e in g.edges() {
            assert!(e.source.as_u32() < e.target.as_u32());
            let from = g.get_node(e.source).unwrap().kind;
            let to = g.get_node(e.target).unwrap().kind;
            assert_ne!(from, NodeKind::Backend);
            assert_eq!(from == NodeKind::Client, to == NodeKind::Listener);
            if to == NodeKind::Host {
                assert_eq!(from, NodeKind::Listener);
            }
        }
        for n in g.nodes() {
            if n.kind == NodeKind::Listener {
                assert!(n.metadata.protocol.is_some());
                if n.metadata.port == Some(443) {
                    assert_eq!(n.metadata.protocol, Some(Protocol::Https));
                    assert!(n.metadata.tls.as_ref().unwrap().auto);
                }
            }
        }
    }
}

#[test]
fn site_without_block() {
    let g = parse(":80\n:81 {\n}");
    assert_eq!(g.nodes()[1].label, ":80");
    assert_eq!(g.nodes()[2].label, ":81");
    assert_eq!(g.node_count(), 3);
}

#[test]
fn port_443_site_is_https() {
    let g = parse("secure.example.com:443 {\n}");
    assert_eq!(g.nodes()[1].label, ":443");
    assert_eq!(g.nodes()[1].metadata.protocol, Some(Protocol::Https));
}

#[test]
fn detection_levels() {
    let p = CaddyParser::new();
    assert_eq!(p.detect("reverse_proxy localhost"), DetectionConfidence::Likely);
    assert_eq!(p.detect("foo {\n bar\n}"), DetectionConfidence::Maybe);
    assert_eq!(p.detect("{ admin off }"), DetectionConfidence::Maybe);
    assert_eq!(p.detect("   \n\t "), DetectionConfidence::NotThisFormat);
    assert_eq!(p.detect("x {\r\n encode gzip\r\n}"), DetectionConfidence::Certain);
    // The block pattern must survive trimming.
    assert_eq!(p.detect("foo {\n"), DetectionConfidence::NotThisFormat);
    assert!(DetectionConfidence::Certain > DetectionConfidence::Likely);
}

#[test]
fn parse_error_constructors_and_text() {
    assert_eq!(ParseError::semantics("bad").to_string(), "semantics error: bad");
    assert_eq!(ParseError::unsupported("x").to_string(), "unsupported feature: x");
    assert_eq!(ParseError::syntax("m", 7).to_string(), "syntax error (line 7): m");
    let io = ParseError::io(std::io::Error::new(std::io::ErrorKind::NotFound, "gone"), "/tmp/x");
    assert_eq!(io.to_string(), "/tmp/x: gone");
    assert_eq!(io.source().map(|s| s.to_string()), Some("gone".to_string()));
    assert!(ParseError::semantics("bad").source().is_none());
}

#[test]
fn blank_pieces_and_unknown_directives_add_nothing() {
    let mut cfg = ",".repeat(65536);
    cfg.push_str(" {\n");
    cfg.push_str(&"x\n".repeat(32768));
    cfg.push_str("}\n");
    let g = parse(&cfg);
    assert_eq!(g.node_count(), 1);
    assert_eq!(g.edge_count(), 0);
}

#[test]
fn address_parts_of_an_address() {
    let at = |s: &str| {
        let chars: Vec<char> = s.chars().collect();
        parse_address(&chars, 0, chars.len())
    };
    assert_eq!(at("example.com:8080"), (":8080".to_string(), Some("example.com".to_string()), Some(8080)));
    assert_eq!(at(" :443 "), (":443".to_string(), None, Some(443)));
    assert_eq!(at("example.com"), (":80".to_string(), Some("example.com".to_string()), Some(80)));
    assert_eq!(at("h:+81"), (":81".to_string(), Some("h".to_string()), Some(81)));
}

#[test]
fn only_open_quotes_and_open_global_blocks_fail() {
    assert!(CaddyParser::new().parse("a.com {\n reverse_proxy b:1\n").is_ok());
    assert!(CaddyParser::new().parse("}\n}\na.com {\n foo bar\n}").is_ok());
    assert!(CaddyParser::new().parse("a.com {\n handle /x {\n").is_ok());
    match CaddyParser::new().parse("a\n\nb \"c\nd").unwrap_err() {
        ParseError::Syntax { message, line } => {
            assert_eq!(message, "unterminated quoted string");
            assert_eq!(line, 4);
        }
        other => panic!("unexpected {other:?}"),
    }
}
