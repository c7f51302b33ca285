use routegraph::{EdgeCondition, Metadata, NodeKind, Protocol, RouteGraph, RouteGraphBuilder};

#[test]
fn quick_start_graph_has_five_nodes_and_validates() {
    let mut b = RouteGraph::builder();
    b.push_node(NodeKind::Client, "Client");
    b.push_node(NodeKind::Listener, ":443");
    b.push_node(NodeKind::Host, "example.com");
    b.push_node(NodeKind::PathMatch, "/api/*");
    b.push_node(NodeKind::Backend, "http://backend:8080");
    let graph = b.build();
    assert_eq!(graph.node_count(), 5);
    assert_eq!(graph.edge_count(), 4);
    assert!(graph.validate().is_ok());
}

#[test]
fn builder_example_pushes_and_pops() {
    let mut b = RouteGraph::builder();
    b.push_node(NodeKind::Client, "Client");
    b.push_node(NodeKind::Listener, ":443");
    b.set_port(443);
    b.push_node(NodeKind::Host, "example.com");
    b.push_node(NodeKind::PathMatch, "/api/*");
    b.push_node(NodeKind::Backend, "http://backend:8080");
    b.pop_node();
    b.pop_node();
    b.push_node(NodeKind::PathMatch, "/*");
    b.push_node(NodeKind::Backend, "http://frontend:3000");
    let graph = b.build();

    assert_eq!(graph.node_count(), 7);
    assert_eq!(graph.edge_count(), 6);
    assert!(graph.validate().is_ok());
    // The second path matcher hangs below the host (node 2).
    let host = graph.nodes()[2].id;
    let kids: Vec<u32> = graph.children_ids(host).iter().map(|id| id.as_u32()).collect();
    assert_eq!(kids, vec![3, 5]);
    assert_eq!(graph.nodes()[1].metadata.port, Some(443));
}

#[test]
fn push_then_pop_restores_the_context() {
    let mut b = RouteGraphBuilder::new();
    assert!(b.current().is_none());
    let c = b.push_node(NodeKind::Client, "Client");
    let l = b.push_node(NodeKind::Listener, ":80");
    assert_eq!(b.current(), Some(l));
    b.pop_node();
    assert_eq!(b.current(), Some(c));
    let graph = b.build();
    assert_eq!(graph.node_count(), 2);
}

#[test]
fn node_ids_are_positions() {
    let mut b = RouteGraph::builder();
    let a = b.push_node(NodeKind::Client, "Client");
    let x = b.push_node(NodeKind::Listener, ":80");
    assert_eq!(a.as_u32(), 0);
    assert_eq!(x.as_u32(), 1);
    let graph = b.build();
    assert_eq!(graph.get_node(x).unwrap().label, ":80");
    assert_eq!(graph.get_node(x).unwrap().id, x);
    assert_eq!(x.to_string(), "n1");
}

#[test]
fn get_node_out_of_range_is_none() {
    let mut big = RouteGraph::builder();
    big.push_node(NodeKind::Client, "Client");
    let far = big.push_node(NodeKind::Listener, ":80");
    let mut small = RouteGraph::builder();
    small.push_node(NodeKind::Client, "Client");
    let g = small.build();
    assert!(g.get_node(far).is_none());
}

#[test]
fn root_is_first_client() {
    let mut b = RouteGraph::builder();
    b.push_node(NodeKind::Listener, ":80");
    b.pop_node();
    let c = b.push_node(NodeKind::Client, "Client");
    let graph = b.build();
    assert_eq!(graph.root_id(), Some(c));
    assert_eq!(graph.root().unwrap().label, "Client");
    assert!(RouteGraph::new().root().is_none());
    assert!(RouteGraph::new().is_empty());
}

#[test]
fn setters_apply_to_current_node() {
    let mut b = RouteGraph::builder();
    b.push_node(NodeKind::Client, "Client");
    b.push_node(NodeKind::Listener, ":443");
    b.set_port(443);
    b.set_protocol(Protocol::Https);
    b.set_tls_auto();
    b.add_custom("k", "v");
    let g = b.build();
    let l = &g.nodes()[1];
    assert_eq!(l.metadata.port, Some(443));
    assert_eq!(l.metadata.protocol, Some(Protocol::Https));
    assert!(l.metadata.tls.as_ref().unwrap().auto);
    assert_eq!(l.metadata.custom, vec![("k".to_string(), "v".to_string())]);
    assert!(g.nodes()[0].metadata.port.is_none());
}

#[test]
fn setters_without_context_do_nothing() {
    let mut b = RouteGraph::builder();
    b.set_port(1);
    b.set_condition(EdgeCondition::Method("GET".to_string()));
    let g = b.build();
    assert!(g.is_empty());
}

#[test]
fn condition_goes_to_last_pushed_edge() {
    let mut b = RouteGraph::builder();
    b.push_node(NodeKind::Client, "Client");
    b.push_node(NodeKind::PathMatch, "/api/*");
    b.set_condition(EdgeCondition::PathGlob("/api/*".to_string()));
    let g = b.build();
    assert_eq!(g.edges()[0].condition, Some(EdgeCondition::PathGlob("/api/*".to_string())));
}

#[test]
fn condition_after_pop_is_ignored() {
    let mut b = RouteGraph::builder();
    b.push_node(NodeKind::Client, "Client");
    b.push_node(NodeKind::PathMatch, "/api/*");
    b.pop_node();
    b.set_condition(EdgeCondition::Always);
    let g = b.build();
    assert_eq!(g.edges()[0].condition, None);
}

#[test]
fn consuming_api_matches_mut_api() {
    let b = RouteGraphBuilder::new()
        .push(NodeKind::Client, "Client")
        .push(NodeKind::Listener, ":8080")
        .with_port(8080)
        .with_protocol(Protocol::Http)
        .with_tls_auto()
        .with_custom("a", "b")
        .with_condition(EdgeCondition::Method("GET".to_string()))
        .pop();
    let g = b.into_graph();
    assert_eq!(g.node_count(), 2);
    assert_eq!(g.nodes()[1].metadata.port, Some(8080));
    assert_eq!(g.edges()[0].condition, Some(EdgeCondition::Method("GET".to_string())));
}

#[test]
fn connections_and_adjacency() {
    let mut b = RouteGraph::builder();
    let c = b.push_node(NodeKind::Client, "Client");
    let l = b.push_node(NodeKind::Listener, ":80");
    let h = b.push_node(NodeKind::Host, "a.com");
    b.add_connection(c, h, Some(EdgeCondition::Always));
    let g = b.build();
    let from_c: Vec<u32> = g.children_ids(c).iter().map(|i| i.as_u32()).collect();
    assert_eq!(from_c, vec![1, 2]);
    let to_h: Vec<u32> = g.parent_ids(h).iter().map(|i| i.as_u32()).collect();
    assert_eq!(to_h, vec![1, 0]);
    assert_eq!(g.edges_from(c).len(), 2);
    assert_eq!(g.edges_to(h).len(), 2);
    assert_eq!(g.edges_to(c).len(), 0);
    let kids: Vec<&str> = g.children(l).iter().map(|n| n.label.as_str()).collect();
    assert_eq!(kids, vec!["a.com"]);
}

#[test]
fn child_parent_duality_on_a_graph() {
    let mut b = RouteGraph::builder();
    let c = b.push_node(NodeKind::Client, "Client");
    let l = b.push_node(NodeKind::Listener, ":80");
    b.pop_node();
    let l2 = b.push_node(NodeKind::Listener, ":81");
    let g = b.build();
    for a in [c, l, l2] {
        for x in [c, l, l2] {
            let child = g.children_ids(a).contains(&x);
            let parent = g.parent_ids(x).contains(&a);
            assert_eq!(child, parent);
        }
    }
}

#[test]
fn validation_reports_self_loop() {
    let mut b = RouteGraph::builder();
    b.push_node(NodeKind::Client, "Client");
    let l = b.push_node(NodeKind::Listener, ":80");
    b.add_connection(l, l, None);
    let errs = b.build().validate().unwrap_err();
    let msgs: Vec<String> = errs.iter().map(|e| e.to_string()).collect();
    assert_eq!(msgs, vec!["self-loop on node n1".to_string()]);
}

#[test]
fn validation_reports_clients() {
    let mut b = RouteGraph::builder();
    b.push_node(NodeKind::Client, "Client");
    b.push_node(NodeKind::Client, "Other");
    let errs = b.build().validate().unwrap_err();
    let msgs: Vec<String> = errs.iter().map(|e| e.message.clone()).collect();
    assert_eq!(
        msgs,
        vec!["2 Client nodes found, expected at most 1".to_string()]
    );
}

#[test]
fn validation_reports_incoming_edge_on_client() {
    let mut b = RouteGraph::builder();
    b.push_node(NodeKind::Listener, ":80");
    b.push_node(NodeKind::Client, "Client");
    let errs = b.build().validate().unwrap_err();
    assert_eq!(errs.len(), 1);
    assert_eq!(errs[0].message, "Client node must have no incoming edges");
}

#[test]
fn display_names() {
    assert_eq!(NodeKind::PathMatch.to_string(), "path_match");
    assert_eq!(NodeKind::Client.to_string(), "client");
    assert_eq!(Protocol::Grpc.to_string(), "gRPC");
    assert_eq!(Protocol::Https.to_string(), "HTTPS");
    assert_eq!(EdgeCondition::Always.to_string(), "");
    assert_eq!(EdgeCondition::PathPrefix("/api/".to_string()).to_string(), "/api/*");
    assert_eq!(EdgeCondition::PathExact("/x".to_string()).to_string(), "/x");
    assert_eq!(
        EdgeCondition::HeaderMatch { name: "X-A".to_string(), value: "1".to_string() }.to_string(),
        "X-A: 1"
    );
}

#[test]
fn metadata_builders() {
    let m = Metadata::new().with_port(8080).with_protocol(Protocol::Tcp).with_custom("a", "b");
    assert_eq!(m.port, Some(8080));
    assert_eq!(m.protocol, Some(Protocol::Tcp));
    assert_eq!(m.custom, vec![("a".to_string(), "b".to_string())]);
    assert!(m.tls.is_none());
    let d = Metadata::default();
    assert!(d.port.is_none() && d.custom.is_empty());
}

#[test]
fn clone_keeps_nodes_and_edges() {
    let mut b = RouteGraph::builder();
    b.push_node(NodeKind::Client, "Client");
    b.push_node(NodeKind::Listener, ":443");
    b.set_port(443);
    b.set_condition(EdgeCondition::PathGlob("/a/*".to_string()));
    let g = b.build();
    let c = g.clone();
    assert_eq!(c.node_count(), 2);
    assert_eq!(c.nodes()[1].label, ":443");
    assert_eq!(c.nodes()[1].metadata.port, Some(443));
    assert_eq!(c.edges()[0].condition, Some(EdgeCondition::PathGlob("/a/*".to_string())));
    assert_eq!(c.children_ids(c.root_id().unwrap()), g.children_ids(g.root_id().unwrap()));
    assert!(c.validate().is_ok());
}

#[test]
fn consuming_push_equals_mut_push() {
    let a = RouteGraph::builder().push(NodeKind::Client, "C").push(NodeKind::Host, "h");
    let mut b = RouteGraph::builder();
    b.push_node(NodeKind::Client, "C");
    b.push_node(NodeKind::Host, "h");
    assert_eq!(a.current(), b.current());
    let (ga, gb) = (a.build(), b.build());
    assert_eq!(ga.node_count(), gb.node_count());
    assert_eq!(ga.edges()[0].source, gb.edges()[0].source);
    assert_eq!(ga.edges()[0].target, gb.edges()[0].target);
}

#[test]
fn condition_survives_connections_and_setters() {
    let mut b = RouteGraph::builder();
    let c = b.push_node(NodeKind::Client, "C");
    let l = b.push_node(NodeKind::Listener, ":80");
    let h = b.push_node(NodeKind::Host, "h");
    b.add_connection(c, h, None);
    b.set_port(8080);
    b.add_custom("k", "v");
    b.set_condition(EdgeCondition::Method("GET".to_string()));
    let g = b.build();
    assert_eq!(g.edges()[1].condition, Some(EdgeCondition::Method("GET".to_string())));
    assert_eq!(g.edges()[0].condition, None);
    assert_eq!(g.edges()[2].condition, None);
    assert_eq!(g.parent_ids(l), vec![c]);
    assert_eq!(g.parent_ids(h), vec![l, c]);
    assert_eq!(g.edges_from(c).last().unwrap().target, h);
}
