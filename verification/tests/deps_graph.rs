use rust_grapher::deps::{
    filter_by_focus, run_deps, DepEdgeFact, DepKind, DepsArgs, GraphError, PackageFact,
};

fn base_args() -> DepsArgs {
    DepsArgs {
        package: None,
        depth: 0,
        no_dev: false,
        no_build: false,
        exclude: Vec::new(),
        only: Vec::new(),
        focus: None,
        workspace_only: false,
        no_transitive: false,
        dedup: false,
        show_versions: false,
    }
}

fn pkg(id: &str, name: &str, ws: bool, deps: Vec<(&str, DepKind)>) -> PackageFact {
    PackageFact {
        id: String::from(id),
        name: String::from(name),
        version: String::from("1.0.0"),
        is_workspace_member: ws,
        deps: deps
            .into_iter()
            .map(|(d, k)| DepEdgeFact { id: String::from(d), kind: k })
            .collect(),
    }
}

fn edge_count_between(
    g: &rust_grapher::deps::GraphData,
    from_key: &str,
    to_key: &str,
) -> usize {
    let from = g.lookup(from_key).unwrap();
    let to = g.lookup(to_key).unwrap();
    g.edges.iter().filter(|e| e.from == from && e.to == to).count()
}

#[test]
fn diamond_dedups_shared_dependency() {
    let n = DepKind::Normal;
    let packages = vec![
        pkg("a", "a", true, vec![("b", n), ("c", n)]),
        pkg("b", "b", false, vec![("c", n)]),
        pkg("c", "c", false, vec![]),
    ];
    let mut args = base_args();
    args.dedup = true;
    let g = run_deps(&packages, &args).unwrap();
    assert_eq!(g.node_count(), 3);
    assert_eq!(g.nodes.iter().filter(|nd| nd.data.name == "c").count(), 1);
    assert_eq!(edge_count_between(&g, "a", "c"), 1);
    assert_eq!(edge_count_between(&g, "b", "c"), 1);
    assert_eq!(g.edge_count(), 3);
}

#[test]
fn depth_bound_stops_descent() {
    let n = DepKind::Normal;
    let packages = vec![
        pkg("a", "a", true, vec![("b", n)]),
        pkg("b", "b", false, vec![("c", n)]),
        pkg("c", "c", false, vec![("d", n)]),
        pkg("d", "d", false, vec![]),
    ];
    let mut args = base_args();
    args.depth = 1;
    let g = run_deps(&packages, &args).unwrap();
    // b (depth 1) is still descended into, so c appears as a node, but c
    // (depth 2) is never visited: d stays out
    assert!(g.lookup("a").is_some());
    assert!(g.lookup("b").is_some());
    assert!(g.lookup("c").is_some());
    assert!(g.lookup("d").is_none());
    assert_eq!(g.node_count(), 3);
    assert_eq!(g.edge_count(), 2);
}

#[test]
fn cycle_terminates_with_each_edge_once() {
    let n = DepKind::Normal;
    let packages = vec![
        pkg("a", "a", true, vec![("b", n)]),
        pkg("b", "b", false, vec![("a", n)]),
    ];
    let g = run_deps(&packages, &base_args()).unwrap();
    assert_eq!(g.node_count(), 2);
    assert_eq!(g.edge_count(), 2);
    assert_eq!(edge_count_between(&g, "a", "b"), 1);
    assert_eq!(edge_count_between(&g, "b", "a"), 1);
}

#[test]
fn suppress_dev_omits_the_dependency_entirely() {
    let packages = vec![
        pkg(
            "root",
            "root",
            true,
            vec![("leaf", DepKind::Normal), ("testlib", DepKind::Dev)],
        ),
        pkg("leaf", "leaf", false, vec![]),
        pkg("testlib", "testlib", false, vec![]),
    ];
    let mut args = base_args();
    args.no_dev = true;
    let g = run_deps(&packages, &args).unwrap();
    assert_eq!(g.node_count(), 2);
    assert!(g.lookup("root").is_some());
    assert!(g.lookup("leaf").is_some());
    assert!(g.lookup("testlib").is_none());
    assert_eq!(g.edge_count(), 1);
}

#[test]
fn suppress_build_omits_build_edges() {
    let packages = vec![
        pkg("root", "root", true, vec![("gen", DepKind::Build)]),
        pkg("gen", "gen", false, vec![]),
    ];
    let mut args = base_args();
    args.no_build = true;
    let g = run_deps(&packages, &args).unwrap();
    assert_eq!(g.node_count(), 1);
    assert_eq!(g.edge_count(), 0);
}

#[test]
fn no_packages_is_fatal() {
    let packages = vec![pkg("x", "x", false, vec![])];
    let r = run_deps(&packages, &base_args());
    assert!(matches!(r, Err(GraphError::NoPackages)));
    assert_eq!(GraphError::NoPackages.message(), "No packages found");
}

#[test]
fn named_package_becomes_the_root() {
    let n = DepKind::Normal;
    let packages = vec![
        pkg("a", "a", false, vec![("b", n)]),
        pkg("b", "b", false, vec![]),
    ];
    let mut args = base_args();
    args.package = Some(String::from("a"));
    let g = run_deps(&packages, &args).unwrap();
    assert_eq!(g.node_count(), 2);
}

#[test]
fn exclude_pattern_prunes_subtree() {
    let n = DepKind::Normal;
    let packages = vec![
        pkg("a", "a", true, vec![("serde-json", n), ("b", n)]),
        pkg("serde-json", "serde-json", false, vec![("c", n)]),
        pkg("b", "b", false, vec![]),
        pkg("c", "c", false, vec![]),
    ];
    let mut args = base_args();
    args.exclude = vec![String::from("serde*")];
    let g = run_deps(&packages, &args).unwrap();
    assert!(g.lookup("serde-json").is_none());
    assert!(g.lookup("c").is_none());
    assert_eq!(g.node_count(), 2);
}

#[test]
fn only_patterns_spare_the_root() {
    let n = DepKind::Normal;
    let packages = vec![
        pkg("a", "a", true, vec![("b", n), ("x", n)]),
        pkg("b", "b", false, vec![("y", n)]),
        pkg("x", "x", false, vec![]),
        pkg("y", "y", false, vec![]),
    ];
    let mut args = base_args();
    args.only = vec![String::from("b")];
    let g = run_deps(&packages, &args).unwrap();
    // a passes as root; b passes the pattern; x and y get nodes from their
    // dependents but are not descended into
    assert!(g.lookup("a").is_some());
    assert!(g.lookup("b").is_some());
    assert!(g.lookup("x").is_some());
    assert!(g.lookup("y").is_some());
    assert_eq!(g.node_count(), 4);
}

#[test]
fn workspace_only_keeps_members_and_roots() {
    let n = DepKind::Normal;
    let packages = vec![
        pkg("a", "a", true, vec![("b", n), ("c", n)]),
        pkg("b", "b", true, vec![]),
        pkg("c", "c", false, vec![]),
    ];
    let mut args = base_args();
    args.workspace_only = true;
    let g = run_deps(&packages, &args).unwrap();
    assert!(g.lookup("a").is_some());
    assert!(g.lookup("b").is_some());
    assert!(g.lookup("c").is_none());
}

#[test]
fn no_transitive_stops_after_direct_deps() {
    let n = DepKind::Normal;
    let packages = vec![
        pkg("a", "a", true, vec![("b", n)]),
        pkg("b", "b", false, vec![("c", n)]),
        pkg("c", "c", false, vec![]),
    ];
    let mut args = base_args();
    args.no_transitive = true;
    let g = run_deps(&packages, &args).unwrap();
    assert!(g.lookup("a").is_some());
    assert!(g.lookup("b").is_some());
    assert!(g.lookup("c").is_none());
    assert_eq!(g.edge_count(), 1);
}

#[test]
fn focus_keeps_the_connected_component() {
    let n = DepKind::Normal;
    let packages = vec![
        pkg("a", "a", true, vec![("b", n)]),
        pkg("b", "b", false, vec![]),
        pkg("c", "c", true, vec![("d", n)]),
        pkg("d", "d", false, vec![]),
    ];
    let mut g = run_deps(&packages, &base_args()).unwrap();
    assert_eq!(g.node_count(), 4);
    filter_by_focus(&mut g, "a");
    assert_eq!(g.node_count(), 2);
    assert!(g.lookup("a").is_some());
    assert!(g.lookup("b").is_some());
    assert!(g.lookup("c").is_none());
    assert_eq!(g.edge_count(), 1);
}

#[test]
fn focus_matches_names_exactly() {
    let n = DepKind::Normal;
    let packages = vec![
        pkg("my-crate", "my-crate", true, vec![("b", n)]),
        pkg("b", "b", false, vec![]),
        pkg("c", "c", true, vec![]),
    ];
    // a sanitized spelling of the name is no match: the graph is unchanged
    let mut g = run_deps(&packages, &base_args()).unwrap();
    filter_by_focus(&mut g, "my_crate");
    assert_eq!(g.node_count(), 3);
    // the exact name matches and keeps its component only
    filter_by_focus(&mut g, "my-crate");
    assert_eq!(g.node_count(), 2);
    assert!(g.lookup("c").is_none());
}

#[test]
fn unmatched_focus_leaves_graph_unchanged() {
    let n = DepKind::Normal;
    let packages = vec![
        pkg("a", "a", true, vec![("b", n)]),
        pkg("b", "b", false, vec![]),
    ];
    let mut g = run_deps(&packages, &base_args()).unwrap();
    filter_by_focus(&mut g, "nothing-here");
    assert_eq!(g.node_count(), 2);
    assert_eq!(g.edge_count(), 1);
}

#[test]
fn missing_dependency_fact_is_skipped() {
    let n = DepKind::Normal;
    let packages = vec![pkg("a", "a", true, vec![("ghost", n)])];
    let g = run_deps(&packages, &base_args()).unwrap();
    assert_eq!(g.node_count(), 1);
    assert_eq!(g.edge_count(), 0);
}

#[test]
fn first_listed_kind_labels_the_edge() {
    let packages = vec![
        pkg("a", "a", true, vec![("b", DepKind::Dev)]),
        pkg("b", "b", false, vec![]),
    ];
    let g = run_deps(&packages, &base_args()).unwrap();
    assert_eq!(g.edge_count(), 1);
    assert_eq!(g.edges[0].kind, DepKind::Dev);
}
