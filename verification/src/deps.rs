//! The package-dependency graph builder.
//!
//! From a set of package facts — as a metadata resolver reports them — the
//! builder walks the dependency relation from each root package, guarding
//! against cycles with a visited set shared across all roots, and applying
//! the configured policies: a depth bound, exclude and only patterns,
//! workspace-only and direct-only restriction, and suppression of dev or
//! build dependencies. Nodes are keyed by package id, so every dependent
//! shares one node per package, and each ordered pair of nodes carries at
//! most one edge.

use vstd::prelude::*;

use crate::focus::{
    filter_edges, filter_nodes, hop_bound, lemma_filter_edges_distinct, lemma_filter_nodes_distinct,
    lemma_filter_nodes_sub, mark_connected, retain_marked, within_hops,
};
use crate::graph::{
    edge_pairs_distinct, find_last, keys_distinct, lemma_find_last, Graph, GraphEdge, GraphNode,
};
use crate::pattern::{matches_any_pattern, seq_views, spec_matches_any};
use crate::text::str_eq;

verus! {

/// The declared kind of a dependency edge.
#[derive(Clone, Copy, PartialEq, Eq, Structural, Debug)]
pub enum DepKind {
    Normal,
    Dev,
    Build,
}

/// What a dependency-graph node records about a package.
#[derive(Clone)]
pub struct NodeInfo {
    pub name: String,
    pub version: String,
    pub kind: DepKind,
    pub is_workspace_member: bool,
}

/// One declared dependency of a package: the target package id and the
/// declared kind. When a dependency is declared under several kinds, the
/// first listed is the one recorded here.
pub struct DepEdgeFact {
    pub id: String,
    pub kind: DepKind,
}

/// A package as the metadata resolver reports it.
pub struct PackageFact {
    pub id: String,
    pub name: String,
    pub version: String,
    pub is_workspace_member: bool,
    pub deps: Vec<DepEdgeFact>,
}

/// Configuration for dependency-graph construction.
pub struct DepsArgs {
    pub package: Option<String>,
    pub depth: usize,
    pub no_dev: bool,
    pub no_build: bool,
    pub exclude: Vec<String>,
    /// When non-empty, only packages matching one of these patterns are
    /// taken up; root packages pass regardless.
    pub only: Vec<String>,
    pub focus: Option<String>,
    pub workspace_only: bool,
    pub no_transitive: bool,
    pub dedup: bool,
    pub show_versions: bool,
}

/// The dependency graph: nodes keyed by package id, edges labeled with the
/// resolved dependency kind.
pub type GraphData = Graph<NodeInfo, DepKind>;

/// A fatal input error.
#[derive(Clone, Copy, PartialEq, Eq, Structural, Debug)]
pub enum GraphError {
    NoPackages,
}

impl GraphError {
    /// The error's description.
    pub fn message(&self) -> (r: &'static str)
        ensures
            r@ == "No packages found"@,
    {
        "No packages found"
    }
}

/// Whether package `p` is a traversal root under `args`: the named package
/// when one is named, otherwise any workspace member.
pub open spec fn spec_is_root(packages: Seq<PackageFact>, args: DepsArgs, p: int) -> bool {
    match args.package {
        Some(s) => packages[p].name@ == s@,
        None => packages[p].is_workspace_member,
    }
}

/// Whether a graph node records exactly what `p` reports.
pub open spec fn node_matches_package(nd: GraphNode<NodeInfo>, p: PackageFact) -> bool {
    nd.key@ == p.id@ && nd.data.name@ == p.name@ && nd.data.version@ == p.version@
        && nd.data.is_workspace_member == p.is_workspace_member
}

/// Whether a graph node records some package of the input.
pub open spec fn node_justified(nd: GraphNode<NodeInfo>, packages: Seq<PackageFact>) -> bool {
    exists|p: int| 0 <= p < packages.len() && node_matches_package(nd, #[trigger] packages[p])
}

/// Whether package `pi` declares a dependency on id `to` with kind `k`.
pub open spec fn declares_dep(
    packages: Seq<PackageFact>,
    pi: int,
    to: Seq<char>,
    k: DepKind,
) -> bool {
    exists|d: int|
        0 <= d < packages[pi].deps@.len() && (#[trigger] packages[pi].deps@[d]).id@ == to
            && packages[pi].deps@[d].kind == k
}

/// Whether edge `e` over the node arena `nodes` restates a declared
/// dependency: its source node is keyed by a package that declares a
/// dependency, of the edge's kind, on the id keying its target node.
pub open spec fn edge_justified(
    nodes: Seq<GraphNode<NodeInfo>>,
    e: GraphEdge<DepKind>,
    packages: Seq<PackageFact>,
) -> bool {
    e.from < nodes.len() && e.to < nodes.len() && exists|p: int|
        0 <= p < packages.len() && (#[trigger] packages[p]).id@ == nodes[e.from as int].key@
            && declares_dep(packages, p, nodes[e.to as int].key@, e.kind)
}

/// What the builder maintains: a well-formed graph with pairwise-distinct
/// node keys and edge pairs, whose nodes all record input packages and pass
/// the exclude filter, whose edges all restate declared dependencies and
/// respect the dev/build suppression, and a visited set under which every
/// visited package has its node.
pub open spec fn builder_inv(
    g: GraphData,
    packages: Seq<PackageFact>,
    args: DepsArgs,
    visited: Seq<bool>,
) -> bool {
    &&& g.wf()
    &&& keys_distinct(g.nodes@)
    &&& edge_pairs_distinct(g.edges@)
    &&& visited.len() == packages.len()
    &&& forall|i: int| 0 <= i < g.nodes@.len() ==> node_justified(#[trigger] g.nodes@[i], packages)
    &&& forall|i: int|
        0 <= i < g.nodes@.len() ==> !spec_matches_any(
            (#[trigger] g.nodes@[i]).data.name@,
            seq_views(args.exclude@),
        )
    &&& forall|j: int|
        0 <= j < g.edges@.len() ==> edge_justified(g.nodes@, #[trigger] g.edges@[j], packages)
    &&& forall|j: int|
        0 <= j < g.edges@.len() ==> (args.no_dev ==> (#[trigger] g.edges@[j]).kind != DepKind::Dev)
            && (args.no_build ==> g.edges@[j].kind != DepKind::Build)
    &&& forall|p: int|
        0 <= p < packages.len() && visited[p] ==> g.spec_has_node((#[trigger] packages[p]).id@)
}

/// How many entries of `s` are still false.
pub open spec fn count_false(s: Seq<bool>) -> int
    decreases s.len(),
{
    if s.len() == 0 {
        0
    } else {
        count_false(s.drop_last()) + if s.last() {
            0int
        } else {
            1int
        }
    }
}

proof fn lemma_count_false_bounds(s: Seq<bool>)
    ensures
        0 <= count_false(s) <= s.len(),
    decreases s.len(),
{
    if s.len() > 0 {
        lemma_count_false_bounds(s.drop_last());
    }
}

proof fn lemma_count_false_update(s: Seq<bool>, i: int)
    requires
        0 <= i < s.len(),
        !s[i],
    ensures
        count_false(s.update(i, true)) == count_false(s) - 1,
    decreases s.len(),
{
    if i == s.len() - 1 {
        assert(s.update(i, true).drop_last() =~= s.drop_last());
        assert(s.update(i, true).last());
    } else {
        lemma_count_false_update(s.drop_last(), i);
        assert(s.update(i, true).drop_last() =~= s.drop_last().update(i, true));
        assert(s.update(i, true).last() == s.last());
    }
}

/// The least index at or after `from` whose package carries `id`, or -1.
pub open spec fn first_package(packages: Seq<PackageFact>, id: Seq<char>, from: int) -> int
    decreases packages.len() - from,
{
    if from < 0 || from >= packages.len() {
        -1
    } else if packages[from].id@ == id {
        from
    } else {
        first_package(packages, id, from + 1)
    }
}

/// Whether dependency `d` of package `p` passes the per-dependency
/// filters: its kind survives the dev/build suppression, its id resolves
/// to a package, and that package passes the exclude and workspace
/// filters.
pub open spec fn dep_passes(packages: Seq<PackageFact>, p: int, d: int, args: DepsArgs) -> bool {
    let dep = packages[p].deps@[d];
    let dpi = first_package(packages, dep.id@, 0);
    &&& (args.no_dev ==> dep.kind != DepKind::Dev)
    &&& (args.no_build ==> dep.kind != DepKind::Build)
    &&& dpi >= 0
    &&& !spec_matches_any(packages[dpi].name@, seq_views(args.exclude@))
    &&& (args.workspace_only ==> packages[dpi].is_workspace_member)
}

/// The index of the package that dependency `d` of package `p` resolves
/// to: the first package carrying the declared id, or -1.
pub open spec fn dep_target(packages: Seq<PackageFact>, p: int, d: int) -> int {
    first_package(packages, packages[p].deps@[d].id@, 0)
}

/// Whether package `x` passes the only-patterns: they are empty, or its
/// name matches one.
pub open spec fn only_passes(packages: Seq<PackageFact>, x: int, args: DepsArgs) -> bool {
    args.only@.len() == 0 || spec_matches_any(packages[x].name@, seq_views(args.only@))
}

/// Whether `visited` is closed under passing dependencies: every passing
/// dependency of a visited package whose target also passes the
/// only-patterns is itself visited. With an unlimited depth and transitive
/// traversal on, the builder guarantees this, which pins the visited set
/// from below: it then covers everything reachable from the roots through
/// passing dependencies.
pub open spec fn visited_closed(
    packages: Seq<PackageFact>,
    args: DepsArgs,
    visited: Seq<bool>,
) -> bool {
    forall|p: int, d: int|
        0 <= p < packages.len() && visited[p] && 0 <= d < packages[p].deps@.len()
            && #[trigger] dep_passes(packages, p, d, args) && only_passes(
            packages,
            dep_target(packages, p, d),
            args,
        ) ==> visited[dep_target(packages, p, d)]
}

proof fn lemma_first_package_props(packages: Seq<PackageFact>, id: Seq<char>, from: int)
    ensures
        first_package(packages, id, from) == -1 || (from <= first_package(packages, id, from)
            < packages.len() && packages[first_package(packages, id, from)].id@ == id),
    decreases packages.len() - from,
{
    if 0 <= from < packages.len() && packages[from].id@ != id {
        lemma_first_package_props(packages, id, from + 1);
    }
}

/// Whether package `m` declares any dependency on the id of package `q`.
pub open spec fn declares_some(packages: Seq<PackageFact>, m: int, q: int) -> bool {
    exists|d: int|
        0 <= d < packages[m].deps@.len() && (#[trigger] packages[m].deps@[d]).id@
            == packages[q].id@
}

/// Whether package `q` lies within `k` declared-dependency hops of `r`.
pub open spec fn dep_within(packages: Seq<PackageFact>, r: int, q: int, k: nat) -> bool
    decreases k,
{
    q == r || (k > 0 && exists|m: int|
        0 <= m < packages.len() && dep_within(packages, r, m, (k - 1) as nat)
            && #[trigger] declares_some(packages, m, q))
}

proof fn lemma_dep_within_mono(packages: Seq<PackageFact>, r: int, k: nat)
    ensures
        forall|q: int| #[trigger] dep_within(packages, r, q, k) ==> dep_within(
            packages,
            r,
            q,
            (k + 1) as nat,
        ),
    decreases k,
{
    if k > 0 {
        lemma_dep_within_mono(packages, r, (k - 1) as nat);
        assert forall|q: int| dep_within(packages, r, q, k) implies dep_within(
            packages,
            r,
            q,
            (k + 1) as nat,
        ) by {
            if q != r {
                let m = choose|m: int|
                    0 <= m < packages.len() && dep_within(packages, r, m, (k - 1) as nat)
                        && #[trigger] declares_some(packages, m, q);
                assert(dep_within(packages, r, m, k));
                assert(dep_within(packages, r, q, (k + 1) as nat));
            }
        }
    }
}

proof fn lemma_dep_within_le(packages: Seq<PackageFact>, r: int, q: int, k1: nat, k2: nat)
    requires
        k1 <= k2,
        dep_within(packages, r, q, k1),
    ensures
        dep_within(packages, r, q, k2),
    decreases k2 - k1,
{
    if k1 < k2 {
        lemma_dep_within_mono(packages, r, k1);
        lemma_dep_within_le(packages, r, q, (k1 + 1) as nat, k2);
    }
}

/// Whether — under a positive depth bound — every node's package lies
/// within `depth + 1` declared-dependency hops of some root: the bound
/// limits descent, but a visited package at the last admitted level still
/// records its direct dependencies as nodes, one hop further out.
pub open spec fn nodes_within_depth(
    g: GraphData,
    packages: Seq<PackageFact>,
    args: DepsArgs,
) -> bool {
    args.depth > 0 ==> forall|i: int|
        #![trigger g.nodes@[i]]
        0 <= i < g.nodes@.len() ==> exists|r: int, p: int|
            #![trigger packages[r], packages[p]]
            0 <= r < packages.len() && spec_is_root(packages, args, r) && 0 <= p < packages.len()
                && packages[p].id@ == g.nodes@[i].key@ && dep_within(
                packages,
                r,
                p,
                (args.depth + 1) as nat,
            )
}

/// Whether the graph records an edge between a node keyed `k1` and a node
/// keyed `k2` — which also means both nodes stand in the graph.
pub open spec fn has_edge_keys(g: GraphData, k1: Seq<char>, k2: Seq<char>) -> bool {
    exists|j: int|
        0 <= j < g.edges@.len() && (#[trigger] g.edges@[j]).from < g.nodes@.len()
            && g.edges@[j].to < g.nodes@.len() && g.nodes@[g.edges@[j].from as int].key@ == k1
            && g.nodes@[g.edges@[j].to as int].key@ == k2
}

/// Whether every dependency of package `p` that passes the per-dependency
/// filters has its edge — and so both its endpoints — in the graph.
pub open spec fn deps_recorded(
    g: GraphData,
    packages: Seq<PackageFact>,
    p: int,
    args: DepsArgs,
) -> bool {
    forall|d: int|
        0 <= d < packages[p].deps@.len() && #[trigger] dep_passes(packages, p, d, args)
            ==> has_edge_keys(
            g,
            packages[p].id@,
            packages[first_package(packages, packages[p].deps@[d].id@, 0)].id@,
        )
}

/// Growing the graph by appended nodes and edges loses no recorded edge.
proof fn lemma_edge_keys_extend(pre: GraphData, post: GraphData)
    requires
        pre.nodes@.is_prefix_of(post.nodes@),
        pre.edges@.is_prefix_of(post.edges@),
    ensures
        forall|k1: Seq<char>, k2: Seq<char>| #[trigger] has_edge_keys(pre, k1, k2)
            ==> has_edge_keys(post, k1, k2),
{
    assert forall|k1: Seq<char>, k2: Seq<char>| #[trigger] has_edge_keys(pre, k1, k2) implies
        has_edge_keys(post, k1, k2) by {
        let j = choose|j: int|
            0 <= j < pre.edges@.len() && (#[trigger] pre.edges@[j]).from < pre.nodes@.len()
                && pre.edges@[j].to < pre.nodes@.len() && pre.nodes@[pre.edges@[j].from as int].key@
                == k1 && pre.nodes@[pre.edges@[j].to as int].key@ == k2;
        assert(post.edges@[j] == pre.edges@[j]);
        assert(post.nodes@[pre.edges@[j].from as int] == pre.nodes@[pre.edges@[j].from as int]);
        assert(post.nodes@[pre.edges@[j].to as int] == pre.nodes@[pre.edges@[j].to as int]);
    }
}

/// A key occurring anywhere in `keys` is found.
proof fn lemma_has_node_occurs(keys: Seq<Seq<char>>, k: Seq<char>, i: int)
    requires
        0 <= i < keys.len(),
        keys[i] == k,
    ensures
        find_last(keys, k) >= 0,
{
    lemma_find_last(keys, k);
}

/// Appending one justified, unexcluded node preserves every per-node and
/// per-edge clause of the builder's invariant and loses no key.
proof fn lemma_inv_after_insert(
    pre: GraphData,
    post: GraphData,
    nd: GraphNode<NodeInfo>,
    packages: Seq<PackageFact>,
    args: DepsArgs,
)
    requires
        post.nodes@ == pre.nodes@.push(nd),
        post.edges@ == pre.edges@,
        pre.wf(),
        keys_distinct(pre.nodes@),
        find_last(pre.keys(), nd.key@) == -1,
        forall|i: int| 0 <= i < pre.nodes@.len() ==> node_justified(#[trigger] pre.nodes@[i], packages),
        forall|i: int|
            0 <= i < pre.nodes@.len() ==> !spec_matches_any(
                (#[trigger] pre.nodes@[i]).data.name@,
                seq_views(args.exclude@),
            ),
        forall|j: int|
            0 <= j < pre.edges@.len() ==> edge_justified(pre.nodes@, #[trigger] pre.edges@[j], packages),
        node_justified(nd, packages),
        !spec_matches_any(nd.data.name@, seq_views(args.exclude@)),
    ensures
        post.wf(),
        keys_distinct(post.nodes@),
        forall|i: int| 0 <= i < post.nodes@.len() ==> node_justified(#[trigger] post.nodes@[i], packages),
        forall|i: int|
            0 <= i < post.nodes@.len() ==> !spec_matches_any(
                (#[trigger] post.nodes@[i]).data.name@,
                seq_views(args.exclude@),
            ),
        forall|j: int|
            0 <= j < post.edges@.len() ==> edge_justified(post.nodes@, #[trigger] post.edges@[j], packages),
        forall|k: Seq<char>| pre.spec_has_node(k) ==> post.spec_has_node(k),
        post.spec_has_node(nd.key@),
{
    lemma_keys_push(pre.nodes@, nd);
    lemma_find_last(pre.keys(), nd.key@);
    assert forall|i: int, i2: int| 0 <= i < i2 < post.nodes@.len() implies (
    #[trigger] post.nodes@[i]).key@ != (#[trigger] post.nodes@[i2]).key@ by {
        if i2 < pre.nodes@.len() {
            assert(post.nodes@[i] == pre.nodes@[i] && post.nodes@[i2] == pre.nodes@[i2]);
        } else {
            assert(post.nodes@[i] == pre.nodes@[i] && post.nodes@[i2] == nd);
            assert(pre.keys()[i] == pre.nodes@[i].key@);
        }
    }
    assert forall|i: int| 0 <= i < post.nodes@.len() implies node_justified(
        #[trigger] post.nodes@[i],
        packages,
    ) && !spec_matches_any(post.nodes@[i].data.name@, seq_views(args.exclude@)) by {
        if i < pre.nodes@.len() {
            assert(post.nodes@[i] == pre.nodes@[i]);
        } else {
            assert(post.nodes@[i] == nd);
        }
    }
    assert forall|j: int| 0 <= j < post.edges@.len() implies edge_justified(
        post.nodes@,
        post.edges@[j],
        packages,
    ) by {
        assert(edge_justified(pre.nodes@, pre.edges@[j], packages));
        let e = pre.edges@[j];
        assert(post.nodes@[e.from as int] == pre.nodes@[e.from as int]);
        assert(post.nodes@[e.to as int] == pre.nodes@[e.to as int]);
    }
    assert forall|k: Seq<char>| pre.spec_has_node(k) implies post.spec_has_node(k) by {
        lemma_find_last_push(pre.keys(), nd.key@, k);
    }
    lemma_find_last_push(pre.keys(), nd.key@, nd.key@);
}

proof fn lemma_keys_push<N>(nodes: Seq<GraphNode<N>>, x: GraphNode<N>)
    ensures
        crate::graph::keys_of(nodes.push(x)) == crate::graph::keys_of(nodes).push(x.key@),
{
    assert(crate::graph::keys_of(nodes.push(x)) =~= crate::graph::keys_of(nodes).push(x.key@));
}

proof fn lemma_find_last_push(keys: Seq<Seq<char>>, x: Seq<char>, k: Seq<char>)
    ensures
        find_last(keys.push(x), k) == (if x == k {
            keys.len() as int
        } else {
            find_last(keys, k)
        }),
{
    assert(keys.push(x).drop_last() =~= keys);
    assert(keys.push(x).last() == x);
}

/// The index of the first package carrying `id`, if any.
fn find_package(packages: &Vec<PackageFact>, id: &str) -> (r: Option<usize>)
    ensures
        (match r {
            Some(p) => p < packages@.len() && packages@[p as int].id@ == id@ && first_package(
                packages@,
                id@,
                0,
            ) == p,
            None => first_package(packages@, id@, 0) == -1 && forall|p: int|
                0 <= p < packages@.len() ==> (#[trigger] packages@[p]).id@ != id@,
        }),
{
    let mut p: usize = 0;
    while p < packages.len()
        invariant
            p <= packages@.len(),
            forall|q: int| 0 <= q < p ==> (#[trigger] packages@[q]).id@ != id@,
            first_package(packages@, id@, 0) == first_package(packages@, id@, p as int),
        decreases packages@.len() - p,
    {
        if str_eq(packages[p].id.as_str(), id) {
            return Some(p);
        }
        p = p + 1;
    }
    None
}

/// Walk the dependency relation from `packages[root]`, recording nodes and
/// edges in `graph_data` under the policies of `args`. A package already in
/// `visited` is never descended into again, which makes cyclic inputs
/// terminate; a package is skipped wholesale when the depth bound, the
/// exclude or only patterns, or the workspace restriction reject it, the
/// patterns and the restriction applying to roots only through their
/// dependency edges. The contract pins the walk down from both sides.
/// Soundness: every node recorded restates an input package passing the
/// exclude filter, once per key; every edge restates a declared dependency
/// passing the dev/build suppression, once per ordered pair; under the
/// direct-only restriction every new edge leaves this root; under a depth
/// bound every newly visited package lies within `depth` declared hops of
/// the root and every new node within `depth + 1`; and a root already
/// visited or excluded leaves graph and visited set untouched. Completeness:
/// the root is visited unless excluded; while transitive traversal is on,
/// every visited package has each passing dependency recorded with its
/// edge, and with the depth unlimited the visited set is moreover closed
/// under passing dependencies whose target the only-patterns admit.
#[verifier::rlimit(60)]
pub fn add_package_to_graph(
    root: usize,
    packages: &Vec<PackageFact>,
    graph_data: &mut GraphData,
    args: &DepsArgs,
    visited: &mut Vec<bool>,
)
    requires
        root < packages@.len(),
        builder_inv(*old(graph_data), packages@, *args, old(visited)@),
        !args.no_transitive ==> forall|p: int|
            0 <= p < packages@.len() && old(visited)@[p] ==> deps_recorded(
                *old(graph_data),
                packages@,
                p,
                *args,
            ),
        args.depth == 0 && !args.no_transitive ==> visited_closed(
            packages@,
            *args,
            old(visited)@,
        ),
    ensures
        builder_inv(*final(graph_data), packages@, *args, final(visited)@),
        !args.no_transitive ==> forall|p: int|
            0 <= p < packages@.len() && final(visited)@[p] ==> deps_recorded(
                *final(graph_data),
                packages@,
                p,
                *args,
            ),
        args.depth == 0 && !args.no_transitive ==> visited_closed(
            packages@,
            *args,
            final(visited)@,
        ),
        args.depth > 0 ==> forall|p: int|
            0 <= p < packages@.len() && final(visited)@[p] && !old(visited)@[p] ==> dep_within(
                packages@,
                root as int,
                p,
                args.depth as nat,
            ),
        forall|i: int|
            #![trigger final(graph_data).nodes@[i]]
            old(graph_data).nodes@.len() <= i < final(graph_data).nodes@.len()
                ==> final(graph_data).nodes@[i].key@ == packages@[root as int].id@ || (exists|j: int|
                0 <= j < final(graph_data).edges@.len() && (
                #[trigger] final(graph_data).edges@[j]).to as int == i),
        args.depth > 0 ==> forall|i: int|
            #![trigger final(graph_data).nodes@[i]]
            old(graph_data).nodes@.len() <= i < final(graph_data).nodes@.len() ==> exists|p: int|
                0 <= p < packages@.len() && (#[trigger] packages@[p]).id@
                    == final(graph_data).nodes@[i].key@ && dep_within(
                    packages@,
                    root as int,
                    p,
                    (args.depth + 1) as nat,
                ),
        forall|p: int|
            0 <= p < old(visited)@.len() && old(visited)@[p] ==> final(visited)@[p],
        old(graph_data).nodes@.is_prefix_of(final(graph_data).nodes@),
        old(graph_data).edges@.is_prefix_of(final(graph_data).edges@),
        forall|i: int|
            old(graph_data).nodes@.len() <= i < final(graph_data).nodes@.len() ==> (
            args.workspace_only ==> (#[trigger] final(graph_data).nodes@[i]).data.is_workspace_member
                || final(graph_data).nodes@[i].key@ == packages@[root as int].id@),
        !spec_matches_any(packages@[root as int].name@, seq_views(args.exclude@))
            ==> final(graph_data).spec_has_node(packages@[root as int].id@)
                && final(visited)@[root as int],
        (old(visited)@[root as int] || spec_matches_any(
            packages@[root as int].name@,
            seq_views(args.exclude@),
        )) ==> *final(graph_data) == *old(graph_data) && final(visited)@ == old(visited)@,
        args.no_transitive ==> forall|j: int|
            old(graph_data).edges@.len() <= j < final(graph_data).edges@.len()
                ==> final(graph_data).nodes@[(
            #[trigger] final(graph_data).edges@[j]).from as int].key@
                == packages@[root as int].id@,
{
    let ghost n = packages@.len();
    let np = packages.len();
    let mut work: Vec<(usize, usize)> = Vec::new();
    work.push((root, 0));
    proof {
        lemma_count_false_bounds(visited@);
        assert(work@[0] == (root, 0usize));
        assert(work@ =~= seq![(root, 0usize)]);
    }
    while work.len() > 0
        invariant
            root < n,
            n == packages@.len(),
            n == np as int,
            0 <= count_false(visited@) <= n,
            builder_inv(*graph_data, packages@, *args, visited@),
            !args.no_transitive ==> forall|p: int|
                0 <= p < n && #[trigger] visited@[p] ==> deps_recorded(
                    *graph_data,
                    packages@,
                    p,
                    *args,
                ),
            forall|p: int| 0 <= p < n && old(visited)@[p] ==> visited@[p],
            old(graph_data).nodes@.is_prefix_of(graph_data.nodes@),
            old(graph_data).edges@.is_prefix_of(graph_data.edges@),
            forall|i: int|
                old(graph_data).nodes@.len() <= i < graph_data.nodes@.len() ==> (
                args.workspace_only ==> (#[trigger] graph_data.nodes@[i]).data.is_workspace_member
                    || graph_data.nodes@[i].key@ == packages@[root as int].id@),
            forall|w: int| 0 <= w < work@.len() ==> (#[trigger] work@[w]).0 < n,
            forall|w: int| 0 <= w < work@.len() ==> ((#[trigger] work@[w]).1 == 0 ==> work@[w].0 == root),
            forall|w: int|
                0 <= w < work@.len() ==> (#[trigger] work@[w]).1 + count_false(visited@) <= n,
            visited@[root as int] || spec_matches_any(
                packages@[root as int].name@,
                seq_views(args.exclude@),
            ) || (exists|w: int| 0 <= w < work@.len() && (#[trigger] work@[w]) == (root, 0usize)),
            (old(visited)@[root as int] || spec_matches_any(
                packages@[root as int].name@,
                seq_views(args.exclude@),
            )) ==> (*graph_data == *old(graph_data) && visited@ == old(visited)@ && (work@
                == seq![(root, 0usize)] || work@.len() == 0)),
            args.depth == 0 && !args.no_transitive ==> forall|p: int, d: int|
                0 <= p < n && visited@[p] && 0 <= d < packages@[p].deps@.len()
                    && #[trigger] dep_passes(packages@, p, d, *args) && only_passes(
                    packages@,
                    dep_target(packages@, p, d),
                    *args,
                ) ==> visited@[dep_target(packages@, p, d)] || (exists|w: int|
                    0 <= w < work@.len() && (#[trigger] work@[w]).0 as int == dep_target(
                        packages@,
                        p,
                        d,
                    )),
            args.no_transitive ==> forall|j: int|
                old(graph_data).edges@.len() <= j < graph_data.edges@.len() ==> graph_data.nodes@[(
                #[trigger] graph_data.edges@[j]).from as int].key@ == packages@[root as int].id@,
            args.depth > 0 ==> forall|w: int|
                0 <= w < work@.len() ==> dep_within(
                    packages@,
                    root as int,
                    (#[trigger] work@[w]).0 as int,
                    work@[w].1 as nat,
                ),
            args.depth > 0 ==> forall|p: int|
                0 <= p < n && visited@[p] && !old(visited)@[p] ==> dep_within(
                    packages@,
                    root as int,
                    p,
                    args.depth as nat,
                ),
            args.depth > 0 ==> forall|i: int|
                #![trigger graph_data.nodes@[i]]
                old(graph_data).nodes@.len() <= i < graph_data.nodes@.len() ==> exists|p: int|
                    0 <= p < packages@.len() && (#[trigger] packages@[p]).id@
                        == graph_data.nodes@[i].key@ && dep_within(
                        packages@,
                        root as int,
                        p,
                        (args.depth + 1) as nat,
                    ),
            forall|w: int|
                0 <= w < work@.len() && (#[trigger] work@[w]).1 >= 1 ==> graph_data.spec_has_node(
                    packages@[work@[w].0 as int].id@,
                ),
            forall|i: int|
                #![trigger graph_data.nodes@[i]]
                old(graph_data).nodes@.len() <= i < graph_data.nodes@.len()
                    ==> graph_data.nodes@[i].key@ == packages@[root as int].id@ || (exists|j: int|
                    0 <= j < graph_data.edges@.len() && (#[trigger] graph_data.edges@[j]).to as int
                        == i),
        decreases count_false(visited@), work@.len(),
    {
        let ghost prev_work = work@;
        let item = work.pop().unwrap();
        let pkg_i = item.0;
        let depth = item.1;
        proof {
            assert(item == prev_work.last());
            assert(work@ =~= prev_work.drop_last());
            if !(visited@[root as int] || spec_matches_any(
                packages@[root as int].name@,
                seq_views(args.exclude@),
            )) {
                let w = choose|w: int|
                    0 <= w < prev_work.len() && (#[trigger] prev_work[w]) == (root, 0usize);
                if w < prev_work.len() - 1 {
                    assert(work@[w] == (root, 0usize));
                } else {
                    assert(item == (root, 0usize));
                }
            }
        }
        // Depth bound: skip, but the node may already stand (a dependent
        // recorded it before descending).
        if args.depth > 0 && depth > args.depth {
            continue;
        }
        // Cycle guard.
        if visited[pkg_i] {
        proof {
            if args.depth == 0 && !args.no_transitive {
                assert forall|p: int, d: int|
                    0 <= p < n && visited@[p] && 0 <= d < packages@[p].deps@.len()
                        && #[trigger] dep_passes(packages@, p, d, *args) && only_passes(
                        packages@,
                        dep_target(packages@, p, d),
                        *args,
                    ) implies visited@[dep_target(packages@, p, d)] || (exists|w: int|
                    0 <= w < work@.len() && (#[trigger] work@[w]).0 as int == dep_target(
                        packages@,
                        p,
                        d,
                    )) by {
                    if !visited@[dep_target(packages@, p, d)] {
                        let w = choose|w: int|
                            0 <= w < prev_work.len() && (#[trigger] prev_work[w]).0 as int
                                == dep_target(packages@, p, d);
                        if w < prev_work.len() - 1 {
                            assert(work@[w] == prev_work[w]);
                        } else {
                            assert(pkg_i as int == dep_target(packages@, p, d));
                            lemma_first_package_props(packages@, packages@[p].deps@[d].id@, 0);
                            assert(false);
                        }
                    }
                }
            }
        }
            continue;
        }
        // Exclude patterns.
        if matches_any_pattern(packages[pkg_i].name.as_str(), &args.exclude) {
        proof {
            if args.depth == 0 && !args.no_transitive {
                assert forall|p: int, d: int|
                    0 <= p < n && visited@[p] && 0 <= d < packages@[p].deps@.len()
                        && #[trigger] dep_passes(packages@, p, d, *args) && only_passes(
                        packages@,
                        dep_target(packages@, p, d),
                        *args,
                    ) implies visited@[dep_target(packages@, p, d)] || (exists|w: int|
                    0 <= w < work@.len() && (#[trigger] work@[w]).0 as int == dep_target(
                        packages@,
                        p,
                        d,
                    )) by {
                    if !visited@[dep_target(packages@, p, d)] {
                        let w = choose|w: int|
                            0 <= w < prev_work.len() && (#[trigger] prev_work[w]).0 as int
                                == dep_target(packages@, p, d);
                        if w < prev_work.len() - 1 {
                            assert(work@[w] == prev_work[w]);
                        } else {
                            assert(pkg_i as int == dep_target(packages@, p, d));
                            lemma_first_package_props(packages@, packages@[p].deps@[d].id@, 0);
                            assert(!spec_matches_any(
                                packages@[pkg_i as int].name@,
                                seq_views(args.exclude@),
                            ));
                            assert(false);
                        }
                    }
                }
            }
        }
            continue;
        }
        proof {
            // Past the cycle guard and the exclude patterns, a rejected root
            // is impossible: under rejection only the root item can stand in
            // the worklist, and both guards would have fired on it.
            if old(visited)@[root as int] || spec_matches_any(
                packages@[root as int].name@,
                seq_views(args.exclude@),
            ) {
                assert(prev_work == seq![(root, 0usize)]);
                assert(item == (root, 0usize));
                assert(false);
            }
        }
        // Only-patterns; roots pass regardless.
        if args.only.len() > 0 && !matches_any_pattern(packages[pkg_i].name.as_str(), &args.only)
            && depth > 0 {
        proof {
            if args.depth == 0 && !args.no_transitive {
                assert forall|p: int, d: int|
                    0 <= p < n && visited@[p] && 0 <= d < packages@[p].deps@.len()
                        && #[trigger] dep_passes(packages@, p, d, *args) && only_passes(
                        packages@,
                        dep_target(packages@, p, d),
                        *args,
                    ) implies visited@[dep_target(packages@, p, d)] || (exists|w: int|
                    0 <= w < work@.len() && (#[trigger] work@[w]).0 as int == dep_target(
                        packages@,
                        p,
                        d,
                    )) by {
                    if !visited@[dep_target(packages@, p, d)] {
                        let w = choose|w: int|
                            0 <= w < prev_work.len() && (#[trigger] prev_work[w]).0 as int
                                == dep_target(packages@, p, d);
                        if w < prev_work.len() - 1 {
                            assert(work@[w] == prev_work[w]);
                        } else {
                            assert(pkg_i as int == dep_target(packages@, p, d));
                            lemma_first_package_props(packages@, packages@[p].deps@[d].id@, 0);
                            assert(only_passes(packages@, pkg_i as int, *args));
                            assert(false);
                        }
                    }
                }
            }
        }
            continue;
        }
        // Workspace restriction; roots pass regardless.
        if args.workspace_only && !packages[pkg_i].is_workspace_member && depth > 0 {
        proof {
            if args.depth == 0 && !args.no_transitive {
                assert forall|p: int, d: int|
                    0 <= p < n && visited@[p] && 0 <= d < packages@[p].deps@.len()
                        && #[trigger] dep_passes(packages@, p, d, *args) && only_passes(
                        packages@,
                        dep_target(packages@, p, d),
                        *args,
                    ) implies visited@[dep_target(packages@, p, d)] || (exists|w: int|
                    0 <= w < work@.len() && (#[trigger] work@[w]).0 as int == dep_target(
                        packages@,
                        p,
                        d,
                    )) by {
                    if !visited@[dep_target(packages@, p, d)] {
                        let w = choose|w: int|
                            0 <= w < prev_work.len() && (#[trigger] prev_work[w]).0 as int
                                == dep_target(packages@, p, d);
                        if w < prev_work.len() - 1 {
                            assert(work@[w] == prev_work[w]);
                        } else {
                            assert(pkg_i as int == dep_target(packages@, p, d));
                            lemma_first_package_props(packages@, packages@[p].deps@[d].id@, 0);
                            assert(packages@[pkg_i as int].is_workspace_member);
                            assert(false);
                        }
                    }
                }
            }
        }
            continue;
        }
        let ghost pre_visited = visited@;
        visited[pkg_i] = true;
        proof {
            assert(visited@ =~= pre_visited.update(pkg_i as int, true));
            lemma_count_false_update(pre_visited, pkg_i as int);
            lemma_count_false_bounds(visited@);
            if args.depth > 0 {
                let wlast = prev_work.len() - 1;
                assert((#[trigger] prev_work[wlast]) == item);
                assert(dep_within(
                    packages@,
                    root as int,
                    prev_work[wlast].0 as int,
                    prev_work[wlast].1 as nat,
                ));
                assert(depth <= args.depth);
                lemma_dep_within_le(
                    packages@,
                    root as int,
                    pkg_i as int,
                    depth as nat,
                    args.depth as nat,
                );
            }
        }
        let node_info = NodeInfo {
            name: packages[pkg_i].name.clone(),
            version: packages[pkg_i].version.clone(),
            kind: DepKind::Normal,
            is_workspace_member: packages[pkg_i].is_workspace_member,
        };
        let ghost pre_g = *graph_data;
        let node_idx = graph_data.get_or_insert(packages[pkg_i].id.clone(), node_info);
        proof {
            lemma_find_last(pre_g.keys(), packages@[pkg_i as int].id@);
            if find_last(pre_g.keys(), packages@[pkg_i as int].id@) < 0 {
                let nd = graph_data.nodes@.last();
                assert(node_matches_package(nd, packages@[pkg_i as int]));
                lemma_inv_after_insert(pre_g, *graph_data, nd, packages@, *args);
            }
            assert(graph_data.spec_has_node(packages@[pkg_i as int].id@));
            assert forall|p: int| 0 <= p < n && visited@[p] implies graph_data.spec_has_node(
                (#[trigger] packages@[p]).id@,
            ) by {
                if p != pkg_i as int {
                    assert(pre_visited[p]);
                    assert(pre_g.spec_has_node(packages@[p].id@));
                }
            }
            assert(graph_data.nodes@[node_idx as int].key@ == packages@[pkg_i as int].id@);
            assert(builder_inv(*graph_data, packages@, *args, visited@));
            if depth >= 1 {
                // the item's node already stands, so nothing was appended
                assert(pre_g.spec_has_node(packages@[pkg_i as int].id@));
                assert(graph_data.nodes@ == pre_g.nodes@);
            }
            assert forall|w: int|
                0 <= w < work@.len() && (#[trigger] work@[w]).1 >= 1 implies graph_data.spec_has_node(
                packages@[work@[w].0 as int].id@,
            ) by {
                assert(pre_g.spec_has_node(packages@[work@[w].0 as int].id@));
            }
            assert forall|i: int|
                #![trigger graph_data.nodes@[i]]
                old(graph_data).nodes@.len() <= i < graph_data.nodes@.len() implies
                graph_data.nodes@[i].key@ == packages@[root as int].id@ || (exists|j: int|
                0 <= j < graph_data.edges@.len() && (#[trigger] graph_data.edges@[j]).to as int
                    == i) by {
                if i < pre_g.nodes@.len() {
                    assert(graph_data.nodes@[i] == pre_g.nodes@[i]);
                } else {
                    assert(depth == 0);
                    assert(pkg_i == root);
                    assert(graph_data.nodes@[i].key@ == packages@[root as int].id@);
                }
            }
            if args.depth > 0 {
                lemma_dep_within_le(
                    packages@,
                    root as int,
                    pkg_i as int,
                    args.depth as nat,
                    (args.depth + 1) as nat,
                );
                assert forall|i: int|
                    #![trigger graph_data.nodes@[i]]
                    old(graph_data).nodes@.len() <= i < graph_data.nodes@.len() implies exists|p: int|
                    0 <= p < packages@.len() && (#[trigger] packages@[p]).id@
                        == graph_data.nodes@[i].key@ && dep_within(
                        packages@,
                        root as int,
                        p,
                        (args.depth + 1) as nat,
                    ) by {
                    if i < pre_g.nodes@.len() {
                        assert(graph_data.nodes@[i] == pre_g.nodes@[i]);
                    } else {
                        assert(graph_data.nodes@[i].key@ == packages@[pkg_i as int].id@);
                    }
                }
            }
            if !args.no_transitive {
                assert(pre_g.nodes@.is_prefix_of(graph_data.nodes@));
                assert(pre_g.edges@.is_prefix_of(graph_data.edges@));
                lemma_edge_keys_extend(pre_g, *graph_data);
                assert forall|p: int|
                    0 <= p < n && p != pkg_i as int && #[trigger] visited@[p] implies deps_recorded(
                    *graph_data,
                    packages@,
                    p,
                    *args,
                ) by {
                    assert(pre_visited[p]);
                    assert(deps_recorded(pre_g, packages@, p, *args));
                    assert forall|dd: int|
                        0 <= dd < packages@[p].deps@.len() && #[trigger] dep_passes(
                            packages@,
                            p,
                            dd,
                            *args,
                        ) implies has_edge_keys(
                        *graph_data,
                        packages@[p].id@,
                        packages@[first_package(packages@, packages@[p].deps@[dd].id@, 0)].id@,
                    ) by {
                        assert(has_edge_keys(
                            pre_g,
                            packages@[p].id@,
                            packages@[first_package(packages@, packages@[p].deps@[dd].id@, 0)].id@,
                        ));
                    }
                }
            }
        }
        // Direct-only restriction: record the node, do not descend.
        if args.no_transitive && depth >= 1 {
            continue;
        }
        proof {
            if args.no_transitive {
                assert(depth == 0);
                assert(pkg_i == root);
            }
            if args.depth == 0 && !args.no_transitive {
                assert forall|p: int, d2: int|
                    0 <= p < n && p != pkg_i as int && visited@[p] && 0 <= d2 < packages@[p].deps@.len()
                        && #[trigger] dep_passes(packages@, p, d2, *args) && only_passes(
                        packages@,
                        dep_target(packages@, p, d2),
                        *args,
                    ) implies visited@[dep_target(packages@, p, d2)] || (exists|w: int|
                    0 <= w < work@.len() && (#[trigger] work@[w]).0 as int == dep_target(
                        packages@,
                        p,
                        d2,
                    )) by {
                    if !visited@[dep_target(packages@, p, d2)] {
                        assert(pre_visited[p]);
                        lemma_first_package_props(packages@, packages@[p].deps@[d2].id@, 0);
                        assert(0 <= dep_target(packages@, p, d2) < n);
                        assert(dep_target(packages@, p, d2) != pkg_i as int);
                        assert(!pre_visited[dep_target(packages@, p, d2)]);
                        let w = choose|w: int|
                            0 <= w < prev_work.len() && (#[trigger] prev_work[w]).0 as int
                                == dep_target(packages@, p, d2);
                        assert(w < prev_work.len() - 1);
                        assert(work@[w] == prev_work[w]);
                    }
                }
            }
        }
        let mut d: usize = 0;
        while d < packages[pkg_i].deps.len()
            invariant
                root < n,
                n == packages@.len(),
                n == np as int,
                0 <= count_false(visited@) <= n,
                pkg_i < n,
                d <= packages@[pkg_i as int].deps@.len(),
                builder_inv(*graph_data, packages@, *args, visited@),
                depth as int + 1 + count_false(visited@) <= n,
                forall|p: int| 0 <= p < n && old(visited)@[p] ==> visited@[p],
                old(graph_data).nodes@.is_prefix_of(graph_data.nodes@),
                old(graph_data).edges@.is_prefix_of(graph_data.edges@),
                forall|i: int|
                    old(graph_data).nodes@.len() <= i < graph_data.nodes@.len() ==> (
                    args.workspace_only ==> (
                    #[trigger] graph_data.nodes@[i]).data.is_workspace_member
                        || graph_data.nodes@[i].key@ == packages@[root as int].id@),
                node_idx < graph_data.nodes@.len(),
                graph_data.nodes@[node_idx as int].key@ == packages@[pkg_i as int].id@,
                !(old(visited)@[root as int] || spec_matches_any(
                    packages@[root as int].name@,
                    seq_views(args.exclude@),
                )),
                args.depth == 0 && !args.no_transitive ==> forall|p: int, d2: int|
                    0 <= p < n && p != pkg_i as int && visited@[p] && 0 <= d2 < packages@[p].deps@.len()
                        && #[trigger] dep_passes(packages@, p, d2, *args) && only_passes(
                        packages@,
                        dep_target(packages@, p, d2),
                        *args,
                    ) ==> visited@[dep_target(packages@, p, d2)] || (exists|w: int|
                        0 <= w < work@.len() && (#[trigger] work@[w]).0 as int == dep_target(
                            packages@,
                            p,
                            d2,
                        )),
                args.depth == 0 && !args.no_transitive ==> forall|dd: int|
                    0 <= dd < d && #[trigger] dep_passes(packages@, pkg_i as int, dd, *args)
                        ==> visited@[dep_target(packages@, pkg_i as int, dd)] || (exists|w: int|
                        0 <= w < work@.len() && (#[trigger] work@[w]).0 as int == dep_target(
                            packages@,
                            pkg_i as int,
                            dd,
                        )),
                args.no_transitive ==> pkg_i == root,
                args.depth > 0 ==> dep_within(packages@, root as int, pkg_i as int, depth as nat)
                    && depth <= args.depth,
                args.depth > 0 ==> forall|w: int|
                    0 <= w < work@.len() ==> dep_within(
                        packages@,
                        root as int,
                        (#[trigger] work@[w]).0 as int,
                        work@[w].1 as nat,
                    ),
                args.depth > 0 ==> forall|p: int|
                    0 <= p < n && visited@[p] && !old(visited)@[p] ==> dep_within(
                        packages@,
                        root as int,
                        p,
                        args.depth as nat,
                    ),
                args.depth > 0 ==> forall|i: int|
                    #![trigger graph_data.nodes@[i]]
                    old(graph_data).nodes@.len() <= i < graph_data.nodes@.len() ==> exists|p: int|
                        0 <= p < packages@.len() && (#[trigger] packages@[p]).id@
                            == graph_data.nodes@[i].key@ && dep_within(
                            packages@,
                            root as int,
                            p,
                            (args.depth + 1) as nat,
                        ),
                forall|w: int|
                    0 <= w < work@.len() && (#[trigger] work@[w]).1 >= 1
                        ==> graph_data.spec_has_node(packages@[work@[w].0 as int].id@),
                forall|i: int|
                    #![trigger graph_data.nodes@[i]]
                    old(graph_data).nodes@.len() <= i < graph_data.nodes@.len()
                        ==> graph_data.nodes@[i].key@ == packages@[root as int].id@ || (exists|j: int|
                        0 <= j < graph_data.edges@.len() && (
                        #[trigger] graph_data.edges@[j]).to as int == i),
                args.no_transitive ==> forall|j: int|
                    old(graph_data).edges@.len() <= j < graph_data.edges@.len()
                        ==> graph_data.nodes@[(
                    #[trigger] graph_data.edges@[j]).from as int].key@ == packages@[root as int].id@,
                !args.no_transitive ==> forall|p: int|
                    0 <= p < n && p != pkg_i as int && #[trigger] visited@[p] ==> deps_recorded(
                        *graph_data,
                        packages@,
                        p,
                        *args,
                    ),
                !args.no_transitive ==> forall|dd: int|
                    0 <= dd < d && #[trigger] dep_passes(packages@, pkg_i as int, dd, *args)
                        ==> has_edge_keys(
                        *graph_data,
                        packages@[pkg_i as int].id@,
                        packages@[first_package(
                            packages@,
                            packages@[pkg_i as int].deps@[dd].id@,
                            0,
                        )].id@,
                    ),
                forall|w: int| 0 <= w < work@.len() ==> (#[trigger] work@[w]).0 < n,
                forall|w: int|
                    0 <= w < work@.len() ==> ((#[trigger] work@[w]).1 == 0 ==> work@[w].0 == root),
                forall|w: int|
                    0 <= w < work@.len() ==> (#[trigger] work@[w]).1 + count_false(visited@) <= n,
                visited@[root as int] || spec_matches_any(
                    packages@[root as int].name@,
                    seq_views(args.exclude@),
                ) || (exists|w: int|
                    0 <= w < work@.len() && (#[trigger] work@[w]) == (root, 0usize)),
            decreases packages@[pkg_i as int].deps@.len() - d,
        {
            let ghost iter_g = *graph_data;
            let kind = packages[pkg_i].deps[d].kind;
            if args.no_dev && kind == DepKind::Dev {
                proof {
                    assert(!dep_passes(packages@, pkg_i as int, d as int, *args));
                }
                d = d + 1;
                continue;
            }
            if args.no_build && kind == DepKind::Build {
                proof {
                    assert(!dep_passes(packages@, pkg_i as int, d as int, *args));
                }
                d = d + 1;
                continue;
            }
            let found = find_package(packages, packages[pkg_i].deps[d].id.as_str());
            match found {
                None => {
                    proof {
                        assert(!dep_passes(packages@, pkg_i as int, d as int, *args));
                    }
                    d = d + 1;
                    continue;
                },
                Some(dpi) => {
                    proof {
                        assert(first_package(
                            packages@,
                            packages@[pkg_i as int].deps@[d as int].id@,
                            0,
                        ) == dpi as int);
                    }
                    if matches_any_pattern(packages[dpi].name.as_str(), &args.exclude) {
                        proof {
                            assert(!dep_passes(packages@, pkg_i as int, d as int, *args));
                        }
                        d = d + 1;
                        continue;
                    }
                    if args.workspace_only && !packages[dpi].is_workspace_member {
                        proof {
                            assert(!dep_passes(packages@, pkg_i as int, d as int, *args));
                        }
                        d = d + 1;
                        continue;
                    }
                    let dep_info = NodeInfo {
                        name: packages[dpi].name.clone(),
                        version: packages[dpi].version.clone(),
                        kind,
                        is_workspace_member: packages[dpi].is_workspace_member,
                    };
                    let ghost pre_g = *graph_data;
                    let dep_idx = graph_data.get_or_insert(packages[dpi].id.clone(), dep_info);
                    proof {
                        lemma_find_last(pre_g.keys(), packages@[dpi as int].id@);
                        if find_last(pre_g.keys(), packages@[dpi as int].id@) < 0 {
                            let nd = graph_data.nodes@.last();
                            assert(node_matches_package(nd, packages@[dpi as int]));
                            lemma_inv_after_insert(pre_g, *graph_data, nd, packages@, *args);
                        }
                        assert forall|p: int|
                            0 <= p < n && visited@[p] implies graph_data.spec_has_node(
                            (#[trigger] packages@[p]).id@,
                        ) by {
                            assert(pre_g.spec_has_node(packages@[p].id@));
                        }
                        assert(graph_data.nodes@[dep_idx as int].key@ == packages@[dpi as int].id@);
                        assert(graph_data.nodes@[node_idx as int].key@
                            == packages@[pkg_i as int].id@);
                        assert(builder_inv(*graph_data, packages@, *args, visited@));
                        if args.depth > 0 {
                            assert(packages@[pkg_i as int].deps@[d as int].id@
                                == packages@[dpi as int].id@);
                            assert(declares_some(packages@, pkg_i as int, dpi as int));
                            assert(dep_within(
                                packages@,
                                root as int,
                                dpi as int,
                                (depth + 1) as nat,
                            ));
                            lemma_dep_within_le(
                                packages@,
                                root as int,
                                dpi as int,
                                (depth + 1) as nat,
                                (args.depth + 1) as nat,
                            );
                            assert forall|i: int|
                                #![trigger graph_data.nodes@[i]]
                                old(graph_data).nodes@.len() <= i
                                    < graph_data.nodes@.len() implies exists|p: int|
                                0 <= p < packages@.len() && (#[trigger] packages@[p]).id@
                                    == graph_data.nodes@[i].key@ && dep_within(
                                    packages@,
                                    root as int,
                                    p,
                                    (args.depth + 1) as nat,
                                ) by {
                                if i < pre_g.nodes@.len() {
                                    assert(graph_data.nodes@[i] == pre_g.nodes@[i]);
                                } else {
                                    assert(graph_data.nodes@[i].key@
                                        == packages@[dpi as int].id@);
                                }
                            }
                        }
                        if args.no_transitive {
                            assert forall|j: int|
                                old(graph_data).edges@.len() <= j < graph_data.edges@.len() implies
                                graph_data.nodes@[(
                            #[trigger] graph_data.edges@[j]).from as int].key@
                                == packages@[root as int].id@ by {
                                assert(graph_data.edges@[j] == pre_g.edges@[j]);
                                assert(graph_data.nodes@[pre_g.edges@[j].from as int]
                                    == pre_g.nodes@[pre_g.edges@[j].from as int]);
                            }
                        }
                    }
                    let ghost pre_e = *graph_data;
                    graph_data.add_edge(node_idx, dep_idx, kind);
                    proof {
                        if !pre_e.spec_has_edge(node_idx as int, dep_idx as int) {
                            let j = graph_data.edges@.len() - 1;
                            assert forall|j1: int, j2: int|
                                0 <= j1 < j2 < graph_data.edges@.len() implies !((
                            #[trigger] graph_data.edges@[j1]).from == (
                            #[trigger] graph_data.edges@[j2]).from && graph_data.edges@[j1].to
                                == graph_data.edges@[j2].to) by {
                                if j2 < j {
                                    assert(graph_data.edges@[j1] == pre_e.edges@[j1]);
                                    assert(graph_data.edges@[j2] == pre_e.edges@[j2]);
                                } else {
                                    assert(graph_data.edges@[j1] == pre_e.edges@[j1]);
                                    assert(graph_data.edges@[j2].from == node_idx
                                        && graph_data.edges@[j2].to == dep_idx);
                                }
                            }
                            assert(packages@[pkg_i as int].deps@[d as int].id@
                                == graph_data.nodes@[dep_idx as int].key@);
                            assert(declares_dep(
                                packages@,
                                pkg_i as int,
                                graph_data.nodes@[dep_idx as int].key@,
                                kind,
                            ));
                            assert(edge_justified(
                                graph_data.nodes@,
                                graph_data.edges@[j],
                                packages@,
                            ));
                            assert forall|jj: int|
                                0 <= jj < graph_data.edges@.len() implies edge_justified(
                                graph_data.nodes@,
                                graph_data.edges@[jj],
                                packages@,
                            ) by {
                                if jj < j {
                                    assert(graph_data.edges@[jj] == pre_e.edges@[jj]);
                                    assert(edge_justified(pre_e.nodes@, pre_e.edges@[jj], packages@));
                                }
                            }
                        }
                        assert(builder_inv(*graph_data, packages@, *args, visited@));
                        if !args.no_transitive {
                            if !pre_e.spec_has_edge(node_idx as int, dep_idx as int) {
                                let j = graph_data.edges@.len() - 1;
                                assert(graph_data.edges@[j].from == node_idx
                                    && graph_data.edges@[j].to == dep_idx);
                                assert(has_edge_keys(
                                    *graph_data,
                                    packages@[pkg_i as int].id@,
                                    packages@[dpi as int].id@,
                                ));
                            } else {
                                let j = choose|j: int|
                                    0 <= j < pre_e.edges@.len() && (#[trigger] pre_e.edges@[j]).from
                                        == node_idx as int && pre_e.edges@[j].to == dep_idx as int;
                                assert(graph_data.edges@[j] == pre_e.edges@[j]);
                                assert(has_edge_keys(
                                    *graph_data,
                                    packages@[pkg_i as int].id@,
                                    packages@[dpi as int].id@,
                                ));
                            }
                            assert(dep_passes(packages@, pkg_i as int, d as int, *args));
                            assert(iter_g.nodes@.is_prefix_of(graph_data.nodes@));
                            assert(iter_g.edges@.is_prefix_of(graph_data.edges@));
                            lemma_edge_keys_extend(iter_g, *graph_data);
                        }
                    }
                    let ghost pre_work = work@;
                    work.push((dpi, depth + 1));
                    proof {
                        if exists|w: int|
                            0 <= w < pre_work.len() && (#[trigger] pre_work[w]) == (root, 0usize) {
                            let w = choose|w: int|
                                0 <= w < pre_work.len() && (#[trigger] pre_work[w]) == (
                                root,
                                0usize,
                            );
                            assert(work@[w] == (root, 0usize));
                        }
                        if args.depth == 0 && !args.no_transitive {
                            assert(dep_target(packages@, pkg_i as int, d as int) == dpi as int);
                            assert(work@[work@.len() - 1] == (dpi, (depth + 1) as usize));
                            assert forall|p: int, d2: int|
                                0 <= p < n && p != pkg_i as int && visited@[p] && 0 <= d2
                                    < packages@[p].deps@.len() && #[trigger] dep_passes(
                                    packages@,
                                    p,
                                    d2,
                                    *args,
                                ) && only_passes(
                                    packages@,
                                    dep_target(packages@, p, d2),
                                    *args,
                                ) implies visited@[dep_target(packages@, p, d2)] || (exists|w: int|
                                0 <= w < work@.len() && (#[trigger] work@[w]).0 as int
                                    == dep_target(packages@, p, d2)) by {
                                if !visited@[dep_target(packages@, p, d2)] {
                                    let w = choose|w: int|
                                        0 <= w < pre_work.len() && (#[trigger] pre_work[w]).0 as int
                                            == dep_target(packages@, p, d2);
                                    assert(work@[w] == pre_work[w]);
                                }
                            }
                            assert forall|dd: int|
                                0 <= dd < d + 1 && #[trigger] dep_passes(
                                    packages@,
                                    pkg_i as int,
                                    dd,
                                    *args,
                                ) implies visited@[dep_target(packages@, pkg_i as int, dd)] || (
                            exists|w: int|
                                0 <= w < work@.len() && (#[trigger] work@[w]).0 as int
                                    == dep_target(packages@, pkg_i as int, dd)) by {
                                if dd == d {
                                    assert(work@[work@.len() - 1].0 as int == dep_target(
                                        packages@,
                                        pkg_i as int,
                                        dd,
                                    ));
                                } else {
                                    if !visited@[dep_target(packages@, pkg_i as int, dd)] {
                                        let w = choose|w: int|
                                            0 <= w < pre_work.len() && (
                                            #[trigger] pre_work[w]).0 as int == dep_target(
                                                packages@,
                                                pkg_i as int,
                                                dd,
                                            );
                                        assert(work@[w] == pre_work[w]);
                                    }
                                }
                            }
                        }
                    }
                    proof {
                        lemma_has_node_occurs(
                            graph_data.keys(),
                            packages@[dpi as int].id@,
                            dep_idx as int,
                        );
                        assert(graph_data.keys()[dep_idx as int]
                            == packages@[dpi as int].id@);
                        assert forall|w: int|
                            0 <= w < work@.len() && (#[trigger] work@[w]).1 >= 1 implies
                            graph_data.spec_has_node(packages@[work@[w].0 as int].id@) by {
                            if w < pre_work.len() {
                                assert(work@[w] == pre_work[w]);
                                assert(iter_g.spec_has_node(packages@[pre_work[w].0 as int].id@));
                            } else {
                                assert(work@[w].0 == dpi);
                            }
                        }
                        assert forall|i: int|
                            #![trigger graph_data.nodes@[i]]
                            old(graph_data).nodes@.len() <= i < graph_data.nodes@.len() implies
                            graph_data.nodes@[i].key@ == packages@[root as int].id@ || (exists|j: int|
                            0 <= j < graph_data.edges@.len() && (
                            #[trigger] graph_data.edges@[j]).to as int == i) by {
                            if i < iter_g.nodes@.len() {
                                assert(graph_data.nodes@[i] == iter_g.nodes@[i]);
                                if iter_g.nodes@[i].key@ != packages@[root as int].id@ {
                                    let j = choose|j: int|
                                        0 <= j < iter_g.edges@.len() && (
                                        #[trigger] iter_g.edges@[j]).to as int == i;
                                    assert(graph_data.edges@[j] == iter_g.edges@[j]);
                                }
                            } else {
                                assert(i == dep_idx as int);
                                assert(!pre_e.spec_has_edge(node_idx as int, dep_idx as int));
                                let j = graph_data.edges@.len() - 1;
                                assert(graph_data.edges@[j].to as int == i);
                            }
                        }
                    }
                    d = d + 1;
                },
            }
        }
        proof {
            if !args.no_transitive {
                assert(deps_recorded(*graph_data, packages@, pkg_i as int, *args));
            }
            if args.depth == 0 && !args.no_transitive {
                assert forall|p: int, d2: int|
                    0 <= p < n && visited@[p] && 0 <= d2 < packages@[p].deps@.len()
                        && #[trigger] dep_passes(packages@, p, d2, *args) && only_passes(
                        packages@,
                        dep_target(packages@, p, d2),
                        *args,
                    ) implies visited@[dep_target(packages@, p, d2)] || (exists|w: int|
                    0 <= w < work@.len() && (#[trigger] work@[w]).0 as int == dep_target(
                        packages@,
                        p,
                        d2,
                    )) by {
                    if p == pkg_i as int {
                        assert(dep_passes(packages@, pkg_i as int, d2, *args));
                    }
                }
            }
        }
    }
    proof {
        lemma_find_last(graph_data.keys(), packages@[root as int].id@);
    }
}

/// The seed set of a dependency-graph focus: per node, whether its name
/// equals the focus key exactly.
pub open spec fn deps_focus_seeds(nodes: Seq<GraphNode<NodeInfo>>, focus: Seq<char>) -> Seq<bool> {
    Seq::new(nodes.len(), |i: int| nodes[i].data.name@ == focus)
}

/// The marks a focus key puts on a graph: per node, whether it lies within
/// the (unlimited) hop bound of a node whose name equals the key.
pub open spec fn deps_focus_marks(g: GraphData, focus: Seq<char>) -> Seq<bool> {
    Seq::new(
        g.nodes@.len(),
        |v: int|
            within_hops(
                g.edges@,
                deps_focus_seeds(g.nodes@, focus),
                v,
                hop_bound(g.nodes@.len(), 0),
            ),
    )
}

/// How a graph reads after a focus key is applied to `pre`: unchanged when
/// no node's name equals the key, else exactly the connected component of
/// the matching nodes, over edges taken in either direction.
pub open spec fn focus_applied(pre: GraphData, post: GraphData, focus: Seq<char>) -> bool {
    let seeds = deps_focus_seeds(pre.nodes@, focus);
    if exists|i: int| 0 <= i < seeds.len() && seeds[i] {
        post.nodes@ == filter_nodes(pre.nodes@, deps_focus_marks(pre, focus)) && post.edges@
            == filter_edges(pre.edges@, deps_focus_marks(pre, focus))
    } else {
        post == pre
    }
}

/// Reduce the graph to the component of a focus package: nodes whose name
/// equals the focus key exactly are seeds, every node connected to a seed —
/// over edges taken in either direction, at any distance — is kept, and
/// every other node is removed with its incident edges. Without a matching
/// node the graph is returned unchanged.
pub fn filter_by_focus(graph_data: &mut GraphData, focus_crate: &str)
    requires
        old(graph_data).wf(),
    ensures
        final(graph_data).wf(),
        focus_applied(*old(graph_data), *final(graph_data), focus_crate@),
{
    let n = graph_data.nodes.len();
    let mut seeds: Vec<bool> = Vec::new();
    let mut any = false;
    let mut i: usize = 0;
    while i < n
        invariant
            i <= n,
            n == graph_data.nodes@.len(),
            *graph_data == *old(graph_data),
            graph_data.wf(),
            seeds@.len() == i,
            forall|p: int|
                0 <= p < i ==> seeds@[p] == (graph_data.nodes@[p].data.name@ == focus_crate@),
            any == (exists|p: int| 0 <= p < i && seeds@[p]),
        decreases n - i,
    {
        let ghost prev_seeds = seeds@;
        let eq = str_eq(graph_data.nodes[i].data.name.as_str(), focus_crate);
        seeds.push(eq);
        if eq {
            any = true;
        }
        proof {
            if eq {
                assert(seeds@[i as int]);
                assert(exists|p: int| 0 <= p < i + 1 && seeds@[p]);
            } else {
                if any {
                    let p2 = choose|p2: int| 0 <= p2 < i && prev_seeds[p2];
                    assert(seeds@[p2]);
                    assert(exists|p: int| 0 <= p < i + 1 && seeds@[p]);
                }
                if exists|p: int| 0 <= p < i + 1 && seeds@[p] {
                    let p2 = choose|p: int| 0 <= p < i + 1 && seeds@[p];
                    assert(p2 != i as int);
                    assert(prev_seeds[p2]);
                    assert(exists|p: int| 0 <= p < i && prev_seeds[p]);
                }
            }
        }
        i = i + 1;
    }
    proof {
        assert(seeds@ =~= deps_focus_seeds(old(graph_data).nodes@, focus_crate@));
    }
    if !any {
        return ;
    }
    let marked = mark_connected(graph_data, &seeds, 0);
    proof {
        assert(marked@ =~= deps_focus_marks(*old(graph_data), focus_crate@));
    }
    retain_marked(graph_data, &marked);
}

/// What `run_deps` guarantees of a returned graph: well-formed; every node
/// records an input package, passes the exclude filter, and — under the
/// workspace restriction — is a workspace member or a root; every edge
/// restates a declared dependency under its declared kind, with dev and
/// build edges suppressed on demand.
pub open spec fn deps_result_ok(g: GraphData, packages: Seq<PackageFact>, args: DepsArgs) -> bool {
    &&& g.wf()
    &&& keys_distinct(g.nodes@)
    &&& edge_pairs_distinct(g.edges@)
    &&& forall|i: int| 0 <= i < g.nodes@.len() ==> node_justified(#[trigger] g.nodes@[i], packages)
    &&& forall|i: int|
        0 <= i < g.nodes@.len() ==> !spec_matches_any(
            (#[trigger] g.nodes@[i]).data.name@,
            seq_views(args.exclude@),
        )
    &&& args.workspace_only ==> forall|i: int|
        0 <= i < g.nodes@.len() ==> (#[trigger] g.nodes@[i]).data.is_workspace_member || exists|r: int|
            0 <= r < packages.len() && spec_is_root(packages, args, r) && g.nodes@[i].key@
                == packages[r].id@
    &&& forall|j: int|
        0 <= j < g.edges@.len() ==> edge_justified(g.nodes@, #[trigger] g.edges@[j], packages)
    &&& forall|j: int|
        0 <= j < g.edges@.len() ==> (args.no_dev ==> (#[trigger] g.edges@[j]).kind != DepKind::Dev)
            && (args.no_build ==> g.edges@[j].kind != DepKind::Build)
    &&& args.no_transitive ==> forall|j: int|
        0 <= j < g.edges@.len() ==> exists|r: int|
            0 <= r < packages.len() && spec_is_root(packages, args, r) && g.nodes@[(
            #[trigger] g.edges@[j]).from as int].key@ == packages[r].id@
}

proof fn lemma_has_node_extend(pre: GraphData, post: GraphData, k: Seq<char>)
    requires
        pre.nodes@.is_prefix_of(post.nodes@),
        pre.spec_has_node(k),
    ensures
        post.spec_has_node(k),
{
    lemma_find_last(pre.keys(), k);
    let i = find_last(pre.keys(), k);
    assert(post.nodes@[i] == pre.nodes@[i]);
    assert(post.keys()[i] == k);
    lemma_has_node_occurs(post.keys(), k, i);
}

/// Whether every node is a root's node or the target of some edge. With
/// edge soundness this bars spurious nodes: a package that is no root gains
/// a node only through a recorded dependency edge.
pub open spec fn nodes_rooted_or_reached(
    g: GraphData,
    packages: Seq<PackageFact>,
    args: DepsArgs,
) -> bool {
    forall|i: int|
        #![trigger g.nodes@[i]]
        0 <= i < g.nodes@.len() ==> (exists|r: int|
            0 <= r < packages.len() && spec_is_root(packages, args, r) && (
            #[trigger] packages[r]).id@ == g.nodes@[i].key@) || (exists|j: int|
            0 <= j < g.edges@.len() && (#[trigger] g.edges@[j]).to as int == i)
}

/// What holds of a graph before any focus reduction: every root that no
/// exclude pattern rejects has its node, and — while transitive traversal
/// is on — each of its passing dependencies recorded with its edge.
pub open spec fn roots_recorded(g: GraphData, packages: Seq<PackageFact>, args: DepsArgs) -> bool {
    forall|p: int|
        0 <= p < packages.len() && spec_is_root(packages, args, p) && !spec_matches_any(
            (#[trigger] packages[p]).name@,
            seq_views(args.exclude@),
        ) ==> g.spec_has_node(packages[p].id@) && (!args.no_transitive ==> deps_recorded(
            g,
            packages,
            p,
            args,
        ))
}

/// Build the dependency graph from the package facts. The roots are the
/// entries of the named package when one is named, else the workspace
/// members; with no root the run fails, before any graph is built. The
/// builder walks from every root with one visited set shared across roots.
/// Without a focus key the result records every unexcluded root with its
/// passing dependencies (`roots_recorded`); with one, the result is exactly
/// the focus reduction (`focus_applied`) of such a graph. Either way every
/// node and edge is justified by the input and the filters, keys and edge
/// pairs stay unique, and under a depth bound every node's package lies
/// within `depth + 1` declared hops of some root.
pub fn run_deps(packages: &Vec<PackageFact>, args: &DepsArgs) -> (r: Result<GraphData, GraphError>)
    ensures
        (match r {
            Result::Err(e) => e == GraphError::NoPackages && forall|p: int|
                0 <= p < packages@.len() ==> !spec_is_root(packages@, *args, p),
            Result::Ok(g) => deps_result_ok(g, packages@, *args) && nodes_within_depth(
                g,
                packages@,
                *args,
            ) && (exists|p: int|
                0 <= p < packages@.len() && spec_is_root(packages@, *args, p)) && (match args.focus {
                Option::Some(f) => exists|mid: GraphData|
                    deps_result_ok(mid, packages@, *args) && roots_recorded(mid, packages@, *args)
                        && nodes_within_depth(mid, packages@, *args) && nodes_rooted_or_reached(
                        mid,
                        packages@,
                        *args,
                    ) && #[trigger] focus_applied(mid, g, f@),
                Option::None => roots_recorded(g, packages@, *args) && nodes_rooted_or_reached(
                    g,
                    packages@,
                    *args,
                ),
            }),
        }),
{
    let n = packages.len();
    let mut roots: Vec<usize> = Vec::new();
    let mut p: usize = 0;
    while p < n
        invariant
            p <= n,
            n == packages@.len(),
            forall|w: int|
                0 <= w < roots@.len() ==> (#[trigger] roots@[w]) < n && spec_is_root(
                    packages@,
                    *args,
                    roots@[w] as int,
                ),
            forall|q: int|
                0 <= q < p && spec_is_root(packages@, *args, q) ==> exists|w: int|
                    0 <= w < roots@.len() && (#[trigger] roots@[w]) == q,
        decreases n - p,
    {
        let is_r = match &args.package {
            Some(s) => str_eq(packages[p].name.as_str(), s.as_str()),
            None => packages[p].is_workspace_member,
        };
        let ghost prev_roots = roots@;
        if is_r {
            roots.push(p);
        }
        proof {
            assert forall|q: int| 0 <= q < p + 1 && spec_is_root(packages@, *args, q) implies exists|w: int|
                0 <= w < roots@.len() && (#[trigger] roots@[w]) == q by {
                if q < p {
                    let w = choose|w: int| 0 <= w < prev_roots.len() && (#[trigger] prev_roots[w]) == q;
                    assert(roots@[w] == q);
                } else {
                    assert(roots@[roots@.len() - 1] == q);
                }
            }
        }
        p = p + 1;
    }
    if roots.len() == 0 {
        return Err(GraphError::NoPackages);
    }
    let mut graph_data: GraphData = Graph::new();
    let mut visited: Vec<bool> = Vec::new();
    let mut v: usize = 0;
    while v < n
        invariant
            v <= n,
            visited@.len() == v,
            forall|q: int| 0 <= q < v ==> !(#[trigger] visited@[q]),
        decreases n - v,
    {
        visited.push(false);
        v = v + 1;
    }
    let mut ri: usize = 0;
    while ri < roots.len()
        invariant
            n == packages@.len(),
            roots@.len() > 0,
            ri <= roots@.len(),
            forall|w: int|
                0 <= w < roots@.len() ==> (#[trigger] roots@[w]) < n && spec_is_root(
                    packages@,
                    *args,
                    roots@[w] as int,
                ),
            builder_inv(graph_data, packages@, *args, visited@),
            !args.no_transitive ==> forall|p: int|
                0 <= p < packages@.len() && #[trigger] visited@[p] ==> deps_recorded(
                    graph_data,
                    packages@,
                    p,
                    *args,
                ),
            args.depth == 0 && !args.no_transitive ==> visited_closed(packages@, *args, visited@),
            nodes_within_depth(graph_data, packages@, *args),
            nodes_rooted_or_reached(graph_data, packages@, *args),
            args.workspace_only ==> forall|i: int|
                0 <= i < graph_data.nodes@.len() ==> (
                #[trigger] graph_data.nodes@[i]).data.is_workspace_member || exists|r: int|
                    0 <= r < packages@.len() && spec_is_root(packages@, *args, r)
                        && graph_data.nodes@[i].key@ == packages@[r].id@,
            args.no_transitive ==> forall|j: int|
                0 <= j < graph_data.edges@.len() ==> exists|r: int|
                    0 <= r < packages@.len() && spec_is_root(packages@, *args, r)
                        && graph_data.nodes@[(
                #[trigger] graph_data.edges@[j]).from as int].key@ == packages@[r].id@,
            forall|w: int|
                0 <= w < ri ==> (!spec_matches_any(
                    packages@[roots@[w] as int].name@,
                    seq_views(args.exclude@),
                ) ==> graph_data.spec_has_node(
                    (#[trigger] packages@[roots@[w] as int]).id@,
                ) && visited@[(roots@[w]) as int]),
        decreases roots@.len() - ri,
    {
        let root = roots[ri];
        let ghost pre_g = graph_data;
        add_package_to_graph(root, packages, &mut graph_data, args, &mut visited);
        proof {
            assert forall|w: int|
                0 <= w < ri + 1 implies (!spec_matches_any(
                packages@[roots@[w] as int].name@,
                seq_views(args.exclude@),
            ) ==> graph_data.spec_has_node(
                (#[trigger] packages@[roots@[w] as int]).id@,
            ) && visited@[(roots@[w]) as int]) by {
                if w < ri {
                    if !spec_matches_any(
                        packages@[roots@[w] as int].name@,
                        seq_views(args.exclude@),
                    ) {
                        lemma_has_node_extend(pre_g, graph_data, packages@[roots@[w] as int].id@);
                    }
                }
            }
            if args.workspace_only {
                assert forall|i: int|
                    0 <= i < graph_data.nodes@.len() implies (
                #[trigger] graph_data.nodes@[i]).data.is_workspace_member || exists|r: int|
                    0 <= r < packages@.len() && spec_is_root(packages@, *args, r)
                        && graph_data.nodes@[i].key@ == packages@[r].id@ by {
                    if i < pre_g.nodes@.len() {
                        assert(graph_data.nodes@[i] == pre_g.nodes@[i]);
                    } else {
                        assert(spec_is_root(packages@, *args, root as int));
                    }
                }
            }
            assert forall|i: int|
                #![trigger graph_data.nodes@[i]]
                0 <= i < graph_data.nodes@.len() implies (exists|r: int|
                0 <= r < packages@.len() && spec_is_root(packages@, *args, r) && (
                #[trigger] packages@[r]).id@ == graph_data.nodes@[i].key@) || (exists|j: int|
                0 <= j < graph_data.edges@.len() && (#[trigger] graph_data.edges@[j]).to as int
                    == i) by {
                if i < pre_g.nodes@.len() {
                    assert(graph_data.nodes@[i] == pre_g.nodes@[i]);
                    if !(exists|r: int|
                        0 <= r < packages@.len() && spec_is_root(packages@, *args, r) && (
                        #[trigger] packages@[r]).id@ == pre_g.nodes@[i].key@) {
                        let j = choose|j: int|
                            0 <= j < pre_g.edges@.len() && (#[trigger] pre_g.edges@[j]).to as int
                                == i;
                        assert(graph_data.edges@[j] == pre_g.edges@[j]);
                    }
                } else {
                    if graph_data.nodes@[i].key@ == packages@[root as int].id@ {
                        assert(spec_is_root(packages@, *args, root as int));
                    }
                }
            }
            if args.depth > 0 {
                assert forall|i: int|
                    #![trigger graph_data.nodes@[i]]
                    0 <= i < graph_data.nodes@.len() implies exists|r: int, p: int|
                    #![trigger packages@[r], packages@[p]]
                    0 <= r < packages@.len() && spec_is_root(packages@, *args, r) && 0 <= p
                        < packages@.len() && packages@[p].id@ == graph_data.nodes@[i].key@
                        && dep_within(packages@, r, p, (args.depth + 1) as nat) by {
                    if i < pre_g.nodes@.len() {
                        assert(graph_data.nodes@[i] == pre_g.nodes@[i]);
                    } else {
                        let p = choose|p: int|
                            0 <= p < packages@.len() && (#[trigger] packages@[p]).id@
                                == graph_data.nodes@[i].key@ && dep_within(
                                packages@,
                                root as int,
                                p,
                                (args.depth + 1) as nat,
                            );
                        assert(spec_is_root(packages@, *args, root as int));
                    }
                }
            }
            if args.no_transitive {
                assert forall|j: int|
                    0 <= j < graph_data.edges@.len() implies exists|r: int|
                    0 <= r < packages@.len() && spec_is_root(packages@, *args, r)
                        && graph_data.nodes@[(
                #[trigger] graph_data.edges@[j]).from as int].key@ == packages@[r].id@ by {
                    if j < pre_g.edges@.len() {
                        assert(graph_data.edges@[j] == pre_g.edges@[j]);
                        let r = choose|r: int|
                            0 <= r < packages@.len() && spec_is_root(packages@, *args, r)
                                && pre_g.nodes@[(pre_g.edges@[j]).from as int].key@
                                == packages@[r].id@;
                        assert(graph_data.nodes@[pre_g.edges@[j].from as int]
                            == pre_g.nodes@[pre_g.edges@[j].from as int]);
                        assert(spec_is_root(packages@, *args, r));
                    } else {
                        assert(graph_data.nodes@[graph_data.edges@[j].from as int].key@
                            == packages@[root as int].id@);
                        assert(spec_is_root(packages@, *args, root as int));
                    }
                }
            }
        }
        ri = ri + 1;
    }
    proof {
        assert forall|p2: int|
            0 <= p2 < packages@.len() && spec_is_root(packages@, *args, p2) && !spec_matches_any(
                (#[trigger] packages@[p2]).name@,
                seq_views(args.exclude@),
            ) implies graph_data.spec_has_node(packages@[p2].id@) && (!args.no_transitive
            ==> deps_recorded(graph_data, packages@, p2, *args)) by {
            let w = choose|w: int| 0 <= w < roots@.len() && (#[trigger] roots@[w]) == p2;
            assert(graph_data.spec_has_node(packages@[roots@[w] as int].id@));
            assert(visited@[(roots@[w]) as int]);
        }
        assert(roots_recorded(graph_data, packages@, *args));
        assert(deps_result_ok(graph_data, packages@, *args));
        assert(spec_is_root(packages@, *args, roots@[0] as int));
    }
    match &args.focus {
        Some(f) => {
            let ghost pre_g = graph_data;
            filter_by_focus(&mut graph_data, f.as_str());
            proof {
                let seeds = deps_focus_seeds(pre_g.nodes@, f@);
                if exists|i: int| 0 <= i < seeds.len() && seeds[i] {
                    let m = deps_focus_marks(pre_g, f@);
                    lemma_filter_nodes_sub(pre_g.nodes@, m);
                    lemma_filter_nodes_distinct(pre_g.nodes@, m);
                    lemma_filter_edges_distinct(pre_g.edges@, m);
                    assert forall|i: int|
                        0 <= i < graph_data.nodes@.len() implies node_justified(
                        #[trigger] graph_data.nodes@[i],
                        packages@,
                    ) && !spec_matches_any(
                        graph_data.nodes@[i].data.name@,
                        seq_views(args.exclude@),
                    ) && (args.workspace_only
                        ==> graph_data.nodes@[i].data.is_workspace_member || exists|r: int|
                        0 <= r < packages@.len() && spec_is_root(packages@, *args, r)
                            && graph_data.nodes@[i].key@ == packages@[r].id@) && (args.depth > 0
                        ==> exists|r: int, p2: int|
                        #![trigger packages@[r], packages@[p2]]
                        0 <= r < packages@.len() && spec_is_root(packages@, *args, r) && 0 <= p2
                            < packages@.len() && packages@[p2].id@ == graph_data.nodes@[i].key@
                            && dep_within(packages@, r, p2, (args.depth + 1) as nat)) by {
                        let oi = choose|oi: int|
                            0 <= oi < pre_g.nodes@.len() && #[trigger] filter_nodes(
                                pre_g.nodes@,
                                m,
                            )[i] == pre_g.nodes@[oi];
                        assert(graph_data.nodes@[i] == pre_g.nodes@[oi]);
                    }
                    assert(nodes_within_depth(graph_data, packages@, *args));
                    crate::focus::lemma_filter_edges_sub(pre_g.edges@, m);
                    assert forall|j: int|
                        0 <= j < graph_data.edges@.len() implies edge_justified(
                        graph_data.nodes@,
                        #[trigger] graph_data.edges@[j],
                        packages@,
                    ) && (args.no_dev ==> graph_data.edges@[j].kind != DepKind::Dev) && (
                    args.no_build ==> graph_data.edges@[j].kind != DepKind::Build) && (
                    args.no_transitive ==> exists|r: int|
                        0 <= r < packages@.len() && spec_is_root(packages@, *args, r)
                            && graph_data.nodes@[graph_data.edges@[j].from as int].key@
                            == packages@[r].id@) by {
                        assert(crate::focus::edge_from_original(
                            filter_edges(pre_g.edges@, m),
                            j,
                            pre_g.edges@,
                            m,
                        ));
                        let q = choose|q: int|
                            0 <= q < pre_g.edges@.len() && crate::focus::edge_kept(
                                #[trigger] pre_g.edges@[q],
                                m,
                            ) && filter_edges(pre_g.edges@, m)[j] == crate::focus::renumber_edge(
                                pre_g.edges@[q],
                                m,
                            );
                        let e = pre_g.edges@[q];
                        assert(edge_justified(pre_g.nodes@, e, packages@));
                        crate::focus::lemma_rank_bounds(m, e.from as int);
                        crate::focus::lemma_rank_bounds(m, e.to as int);
                        crate::focus::lemma_filter_nodes_at(pre_g.nodes@, m, e.from as int);
                        crate::focus::lemma_filter_nodes_at(pre_g.nodes@, m, e.to as int);
                        assert(graph_data.edges@[j].from as int == crate::focus::rank(
                            m,
                            e.from as int,
                        ));
                        assert(graph_data.edges@[j].to as int == crate::focus::rank(
                            m,
                            e.to as int,
                        ));
                        assert(graph_data.nodes@[graph_data.edges@[j].from as int]
                            == pre_g.nodes@[e.from as int]);
                        assert(graph_data.nodes@[graph_data.edges@[j].to as int]
                            == pre_g.nodes@[e.to as int]);
                        if args.no_transitive {
                            let r = choose|r: int|
                                0 <= r < packages@.len() && spec_is_root(packages@, *args, r)
                                    && pre_g.nodes@[(pre_g.edges@[q]).from as int].key@
                                    == packages@[r].id@;
                            assert(spec_is_root(packages@, *args, r));
                            assert(graph_data.nodes@[graph_data.edges@[j].from as int].key@
                                == packages@[r].id@);
                        }
                    }
                }
                assert(args.focus->0 == *f);
                assert(focus_applied(pre_g, graph_data, (args.focus->0)@));
                assert(deps_result_ok(pre_g, packages@, *args));
                assert(roots_recorded(pre_g, packages@, *args));
                assert(deps_result_ok(graph_data, packages@, *args));
                assert(nodes_within_depth(pre_g, packages@, *args));
                assert(nodes_within_depth(graph_data, packages@, *args));
                assert(nodes_rooted_or_reached(pre_g, packages@, *args));
                assert(exists|mid: GraphData|
                    deps_result_ok(mid, packages@, *args) && roots_recorded(
                        mid,
                        packages@,
                        *args,
                    ) && nodes_within_depth(mid, packages@, *args) && nodes_rooted_or_reached(
                        mid,
                        packages@,
                        *args,
                    ) && #[trigger] focus_applied(mid, graph_data, (args.focus->0)@));
            }
        },
        None => {},
    }
    Ok(graph_data)
}

} // verus!
