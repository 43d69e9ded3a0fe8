use rust_grapher::calls::{
    build_fn_graph, filter_fn_by_focus, CallInfo, CallKind, FnGraphArgs, FunctionDef,
    FunctionFact,
};

fn base_args() -> FnGraphArgs {
    FnGraphArgs {
        focus: None,
        depth: 0,
        exclude: Vec::new(),
        public_only: false,
        show_signatures: false,
    }
}

fn fact(name: &str, qualified: &str, public: bool) -> FunctionFact {
    FunctionFact {
        def: FunctionDef {
            name: String::from(name),
            qualified_name: String::from(qualified),
            is_public: public,
            line: 0,
            signature: format!("fn {}()", name),
            is_async: false,
        },
        file: String::from("lib.rs"),
    }
}

fn call(caller: &str, callee: &str, kind: CallKind) -> CallInfo {
    CallInfo { caller: String::from(caller), callee: String::from(callee), kind }
}

fn chain() -> (Vec<FunctionFact>, Vec<CallInfo>) {
    let functions = vec![
        fact("a", "m::a", true),
        fact("b", "m::b", true),
        fact("c", "m::c", true),
        fact("d", "m::d", true),
    ];
    let calls = vec![
        call("m::a", "b", CallKind::Direct),
        call("m::b", "c", CallKind::Direct),
        call("m::c", "d", CallKind::Direct),
    ];
    (functions, calls)
}

#[test]
fn assembles_nodes_and_edges() {
    let (functions, calls) = chain();
    let g = build_fn_graph(&functions, &calls, &base_args());
    assert_eq!(g.node_count(), 4);
    assert_eq!(g.edge_count(), 3);
    let a = g.lookup("m::a").unwrap();
    let b = g.lookup("m::b").unwrap();
    assert!(g.has_edge(a, b));
    assert!(!g.has_edge(b, a));
}

#[test]
fn focus_depth_one_keeps_both_neighbors() {
    let (functions, calls) = chain();
    let mut g = build_fn_graph(&functions, &calls, &base_args());
    filter_fn_by_focus(&mut g, "b", 1);
    assert_eq!(g.node_count(), 3);
    assert!(g.lookup("m::a").is_some());
    assert!(g.lookup("m::b").is_some());
    assert!(g.lookup("m::c").is_some());
    assert!(g.lookup("m::d").is_none());
}

#[test]
fn focus_depth_zero_keeps_everything_connected() {
    let (functions, calls) = chain();
    let mut g = build_fn_graph(&functions, &calls, &base_args());
    filter_fn_by_focus(&mut g, "b", 0);
    assert_eq!(g.node_count(), 4);
    assert_eq!(g.edge_count(), 3);
}

#[test]
fn focus_matches_scoped_suffix() {
    let (functions, calls) = chain();
    let mut g = build_fn_graph(&functions, &calls, &base_args());
    filter_fn_by_focus(&mut g, "m::b", 1);
    assert_eq!(g.node_count(), 3);
    let mut g2 = build_fn_graph(&functions, &calls, &base_args());
    filter_fn_by_focus(&mut g2, "nothing", 1);
    assert_eq!(g2.node_count(), 4);
}

#[test]
fn short_name_resolution_last_wins() {
    let functions = vec![
        fact("f", "m1::f", true),
        fact("f", "m2::f", true),
        fact("g", "m::g", true),
    ];
    let calls = vec![call("m::g", "f", CallKind::Direct)];
    let g = build_fn_graph(&functions, &calls, &base_args());
    let gi = g.lookup("m::g").unwrap();
    let late = g.lookup("m2::f").unwrap();
    let early = g.lookup("m1::f").unwrap();
    assert!(g.has_edge(gi, late));
    assert!(!g.has_edge(gi, early));
}

#[test]
fn self_loops_are_dropped() {
    let functions = vec![fact("a", "m::a", true)];
    let calls = vec![call("m::a", "a", CallKind::Direct)];
    let g = build_fn_graph(&functions, &calls, &base_args());
    assert_eq!(g.edge_count(), 0);
}

#[test]
fn duplicate_calls_add_one_edge() {
    let functions = vec![fact("a", "m::a", true), fact("b", "m::b", true)];
    let calls = vec![
        call("m::a", "b", CallKind::Direct),
        call("m::a", "b", CallKind::Method),
    ];
    let g = build_fn_graph(&functions, &calls, &base_args());
    assert_eq!(g.edge_count(), 1);
    assert_eq!(g.edges[0].kind, CallKind::Direct);
}

#[test]
fn unresolved_callee_matches_no_node() {
    let functions = vec![fact("a", "m::a", true)];
    let calls = vec![call("m::a", "println", CallKind::Direct)];
    let g = build_fn_graph(&functions, &calls, &base_args());
    assert_eq!(g.edge_count(), 0);
}

#[test]
fn public_only_filters_nodes() {
    let functions = vec![fact("a", "m::a", true), fact("b", "m::b", false)];
    let calls = vec![call("m::a", "b", CallKind::Direct)];
    let mut args = base_args();
    args.public_only = true;
    let g = build_fn_graph(&functions, &calls, &args);
    assert_eq!(g.node_count(), 1);
    assert_eq!(g.edge_count(), 0);
}

#[test]
fn exclude_checks_short_and_qualified_name() {
    let functions = vec![
        fact("test_helper", "m::test_helper", true),
        fact("a", "hidden::a", true),
        fact("b", "m::b", true),
    ];
    let mut args = base_args();
    args.exclude = vec![String::from("test_*"), String::from("hidden::*")];
    let g = build_fn_graph(&functions, &Vec::new(), &args);
    assert_eq!(g.node_count(), 1);
    assert!(g.lookup("m::b").is_some());
}

#[test]
fn signatures_attach_only_on_demand() {
    let functions = vec![fact("a", "m::a", true)];
    let g = build_fn_graph(&functions, &Vec::new(), &base_args());
    assert!(g.nodes[0].data.signature.is_none());
    let mut args = base_args();
    args.show_signatures = true;
    let g2 = build_fn_graph(&functions, &Vec::new(), &args);
    assert_eq!(g2.nodes[0].data.signature.as_deref(), Some("fn a()"));
}

#[test]
fn duplicate_qualified_names_shadow_in_lookup() {
    let functions = vec![fact("a", "m::a", true), fact("a", "m::a", false)];
    let g = build_fn_graph(&functions, &Vec::new(), &base_args());
    assert_eq!(g.node_count(), 2);
    let h = g.lookup("m::a").unwrap();
    assert_eq!(h, 1);
    assert!(!g.nodes[h].data.is_public);
}

#[test]
fn method_calls_keep_their_kind() {
    let functions = vec![fact("a", "m::a", true), fact("b", "m::b", true)];
    let calls = vec![call("m::a", "b", CallKind::Method)];
    let g = build_fn_graph(&functions, &calls, &base_args());
    assert_eq!(g.edge_count(), 1);
    assert_eq!(g.edges[0].kind, CallKind::Method);
}
