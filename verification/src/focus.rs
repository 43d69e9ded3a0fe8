//! Depth-bounded bidirectional reachability, shared by both graph kinds.
//!
//! From a set of seed nodes, [`mark_connected`] marks every node whose
//! undirected distance to some seed is at most a hop bound: the configured
//! depth, or — when the depth is zero, meaning unlimited — the node count,
//! which no shortest path can exceed. [`retain_marked`] then removes every
//! unmarked node together with its incident edges, renumbering handles.
//! The marking is a plain level-by-level expansion, so the retained set
//! depends only on graph distance, never on exploration order.

use vstd::prelude::*;

use crate::graph::{edge_pairs_distinct, keys_distinct, Graph, GraphEdge, GraphNode};

verus! {

/// Whether an edge joins `u` and `v` in either direction.
pub open spec fn adjacent<E>(edges: Seq<GraphEdge<E>>, u: int, v: int) -> bool {
    exists|j: int|
        0 <= j < edges.len() && ((#[trigger] edges[j]).from == u && edges[j].to == v
            || edges[j].from == v && edges[j].to == u)
}

/// Whether `v` lies within `k` undirected hops of some seed.
pub open spec fn within_hops<E>(edges: Seq<GraphEdge<E>>, seeds: Seq<bool>, v: int, k: nat) -> bool
    decreases k,
{
    (0 <= v < seeds.len() && seeds[v]) || (k > 0 && exists|u: int|
        within_hops(edges, seeds, u, (k - 1) as nat) && #[trigger] adjacent(edges, u, v))
}

/// The hop bound that a configured depth denotes: the depth itself, or the
/// node count when the depth is zero (unlimited), which bounds the length
/// of every shortest path.
pub open spec fn hop_bound(node_count: nat, max_depth: usize) -> nat {
    if max_depth > 0 {
        max_depth as nat
    } else {
        node_count
    }
}

/// Growing the hop budget never loses a node.
pub proof fn lemma_within_mono<E>(edges: Seq<GraphEdge<E>>, seeds: Seq<bool>, k: nat)
    ensures
        forall|v: int| #[trigger] within_hops(edges, seeds, v, k)
            ==> within_hops(edges, seeds, v, (k + 1) as nat),
    decreases k,
{
    if k > 0 {
        lemma_within_mono(edges, seeds, (k - 1) as nat);
        assert forall|v: int| within_hops(edges, seeds, v, k) implies within_hops(
            edges,
            seeds,
            v,
            (k + 1) as nat,
        ) by {
            if !(0 <= v < seeds.len() && seeds[v]) {
                let u = choose|u: int|
                    within_hops(edges, seeds, u, (k - 1) as nat) && #[trigger] adjacent(
                        edges,
                        u,
                        v,
                    );
                assert(within_hops(edges, seeds, u, k));
                assert(within_hops(edges, seeds, v, (k + 1) as nat));
            }
        }
    }
}

/// Whether edge `jj` hands a mark to `u`: its other endpoint is marked.
pub open spec fn step_marks<E>(
    edges: Seq<GraphEdge<E>>,
    jj: int,
    marked: Seq<bool>,
    u: int,
) -> bool {
    (edges[jj].to == u && marked[edges[jj].from as int]) || (edges[jj].from == u
        && marked[edges[jj].to as int])
}

/// Mark every node within the hop bound of some seed, by `hop_bound` rounds
/// of frontier expansion over the edge list.
pub fn mark_connected<N, E>(g: &Graph<N, E>, seeds: &Vec<bool>, max_depth: usize) -> (marked: Vec<
    bool,
>)
    requires
        g.wf(),
        seeds@.len() == g.nodes@.len(),
    ensures
        marked@.len() == g.nodes@.len(),
        forall|v: int|
            0 <= v < marked@.len() ==> marked@[v] == within_hops(
                g.edges@,
                seeds@,
                v,
                hop_bound(g.nodes@.len(), max_depth),
            ),
{
    let n = g.nodes.len();
    let rounds: usize = if max_depth > 0 {
        max_depth
    } else {
        n
    };
    let mut marked: Vec<bool> = Vec::new();
    let mut v: usize = 0;
    while v < n
        invariant
            v <= n,
            marked@.len() == v,
            seeds@.len() == n,
            forall|u: int| 0 <= u < v ==> marked@[u] == seeds@[u],
        decreases n - v,
    {
        marked.push(seeds[v]);
        v = v + 1;
    }
    let mut k: usize = 0;
    while k < rounds
        invariant
            k <= rounds,
            marked@.len() == n,
            seeds@.len() == n,
            n == g.nodes@.len(),
            g.wf(),
            forall|u: int|
                0 <= u < n ==> marked@[u] == within_hops(g.edges@, seeds@, u, k as nat),
        decreases rounds - k,
    {
        let mut next: Vec<bool> = Vec::new();
        let mut v: usize = 0;
        while v < n
            invariant
                v <= n,
                next@.len() == v,
                marked@.len() == n,
                forall|u: int| 0 <= u < v ==> next@[u] == marked@[u],
            decreases n - v,
        {
            next.push(marked[v]);
            v = v + 1;
        }
        let mut j: usize = 0;
        while j < g.edges.len()
            invariant
                j <= g.edges@.len(),
                next@.len() == n,
                marked@.len() == n,
                n == g.nodes@.len(),
                g.wf(),
                forall|u: int|
                    0 <= u < n ==> next@[u] == (marked@[u] || exists|jj: int|
                        0 <= jj < j && #[trigger] step_marks(g.edges@, jj, marked@, u)),
            decreases g.edges@.len() - j,
        {
            let ghost prev_next = next@;
            let f = g.edges[j].from;
            let t = g.edges[j].to;
            if marked[f] {
                next[t] = true;
            }
            if marked[t] {
                next[f] = true;
            }
            proof {
                assert forall|u: int|
                    0 <= u < n implies next@[u] == (marked@[u] || exists|jj: int|
                        0 <= jj < j + 1 && #[trigger] step_marks(g.edges@, jj, marked@, u)) by {
                    if next@[u] {
                        if !prev_next[u] {
                            assert(step_marks(g.edges@, j as int, marked@, u));
                        } else {
                            assert(marked@[u] || exists|jj: int|
                                0 <= jj < j && #[trigger] step_marks(g.edges@, jj, marked@, u));
                        }
                    } else {
                        assert(!marked@[u]);
                        assert forall|jj: int| 0 <= jj < j + 1 implies !step_marks(
                            g.edges@,
                            jj,
                            marked@,
                            u,
                        ) by {
                            if jj == j {
                                assert(!step_marks(g.edges@, j as int, marked@, u));
                            }
                        }
                    }
                }
            }
            j = j + 1;
        }
        proof {
            lemma_within_mono(g.edges@, seeds@, k as nat);
            assert forall|u: int|
                0 <= u < n implies next@[u] == within_hops(
                g.edges@,
                seeds@,
                u,
                (k + 1) as nat,
            ) by {
                if next@[u] {
                    if marked@[u] {
                        assert(within_hops(g.edges@, seeds@, u, (k + 1) as nat));
                    } else {
                        let jj = choose|jj: int|
                            0 <= jj < g.edges@.len() && #[trigger] step_marks(
                                g.edges@,
                                jj,
                                marked@,
                                u,
                            );
                        let w = if g.edges@[jj].to == u && marked@[g.edges@[jj].from as int] {
                            g.edges@[jj].from as int
                        } else {
                            g.edges@[jj].to as int
                        };
                        assert(marked@[w]);
                        assert(adjacent(g.edges@, w, u));
                        assert(within_hops(g.edges@, seeds@, w, k as nat));
                        assert(within_hops(g.edges@, seeds@, u, (k + 1) as nat));
                    }
                } else {
                    if within_hops(g.edges@, seeds@, u, (k + 1) as nat) {
                        if 0 <= u < seeds@.len() && seeds@[u] {
                            assert(within_hops(g.edges@, seeds@, u, k as nat));
                            assert(false);
                        } else {
                            let w = choose|w: int|
                                within_hops(g.edges@, seeds@, w, k as nat) && #[trigger] adjacent(
                                    g.edges@,
                                    w,
                                    u,
                                );
                            let jj = choose|jj: int|
                                0 <= jj < g.edges@.len() && ((#[trigger] g.edges@[jj]).from == w
                                    && g.edges@[jj].to == u || g.edges@[jj].from == u
                                    && g.edges@[jj].to == w);
                            assert(0 <= w < n);
                            assert(marked@[w]);
                            assert(step_marks(g.edges@, jj, marked@, u));
                            assert(false);
                        }
                    }
                }
            }
        }
        marked = next;
        k = k + 1;
    }
    marked
}

/// How many of the first `i` entries of `marked` are set: the new handle of
/// node `i` after removal of the unmarked nodes.
pub open spec fn rank(marked: Seq<bool>, i: int) -> int
    decreases i,
{
    if i <= 0 {
        0
    } else {
        rank(marked, i - 1) + if marked[i - 1] {
            1int
        } else {
            0int
        }
    }
}

pub proof fn lemma_rank_bounds(marked: Seq<bool>, i: int)
    requires
        0 <= i,
    ensures
        0 <= rank(marked, i) <= i,
    decreases i,
{
    if i > 0 {
        lemma_rank_bounds(marked, i - 1);
    }
}

pub proof fn lemma_rank_mono(marked: Seq<bool>, i: int, j: int)
    requires
        0 <= i <= j,
    ensures
        rank(marked, i) <= rank(marked, j),
        (i < j && marked[i]) ==> rank(marked, i) + 1 <= rank(marked, j),
    decreases j - i,
{
    if i < j {
        lemma_rank_mono(marked, i + 1, j);
    }
}

/// The nodes that survive: those whose slot is marked, in arena order.
pub open spec fn filter_nodes<N>(nodes: Seq<GraphNode<N>>, marked: Seq<bool>) -> Seq<
    GraphNode<N>,
>
    decreases nodes.len(),
{
    if nodes.len() == 0 {
        Seq::empty()
    } else {
        let pre = filter_nodes(nodes.drop_last(), marked);
        if marked[nodes.len() - 1] {
            pre.push(nodes.last())
        } else {
            pre
        }
    }
}

/// Whether an edge survives: both endpoints are marked.
pub open spec fn edge_kept<E>(e: GraphEdge<E>, marked: Seq<bool>) -> bool {
    marked[e.from as int] && marked[e.to as int]
}

/// An edge as it reads after renumbering the surviving nodes.
pub open spec fn renumber_edge<E>(e: GraphEdge<E>, marked: Seq<bool>) -> GraphEdge<E> {
    GraphEdge { from: rank(marked, e.from as int) as usize, to: rank(marked, e.to as int) as usize, kind: e.kind }
}

/// The edges that survive, renumbered, in insertion order.
pub open spec fn filter_edges<E>(edges: Seq<GraphEdge<E>>, marked: Seq<bool>) -> Seq<GraphEdge<E>>
    decreases edges.len(),
{
    if edges.len() == 0 {
        Seq::empty()
    } else {
        let pre = filter_edges(edges.drop_last(), marked);
        if edge_kept(edges.last(), marked) {
            pre.push(renumber_edge(edges.last(), marked))
        } else {
            pre
        }
    }
}

proof fn lemma_filter_nodes_len<N>(nodes: Seq<GraphNode<N>>, marked: Seq<bool>)
    ensures
        filter_nodes(nodes, marked).len() == rank(marked, nodes.len() as int),
    decreases nodes.len(),
{
    if nodes.len() > 0 {
        lemma_filter_nodes_len(nodes.drop_last(), marked);
    }
}

/// Every surviving node is one of the originals.
pub proof fn lemma_filter_nodes_sub<N>(nodes: Seq<GraphNode<N>>, marked: Seq<bool>)
    ensures
        forall|k: int|
            0 <= k < filter_nodes(nodes, marked).len() ==> exists|i: int|
                0 <= i < nodes.len() && #[trigger] filter_nodes(nodes, marked)[k] == nodes[i],
    decreases nodes.len(),
{
    if nodes.len() > 0 {
        lemma_filter_nodes_sub(nodes.drop_last(), marked);
        let pre = filter_nodes(nodes.drop_last(), marked);
        assert forall|k: int|
            0 <= k < filter_nodes(nodes, marked).len() implies exists|i: int|
            0 <= i < nodes.len() && #[trigger] filter_nodes(nodes, marked)[k] == nodes[i] by {
            if k < pre.len() {
                assert(filter_nodes(nodes, marked)[k] == pre[k]);
                let i = choose|i: int|
                    0 <= i < nodes.drop_last().len() && #[trigger] pre[k] == nodes.drop_last()[i];
                assert(nodes.drop_last()[i] == nodes[i]);
            } else {
                assert(filter_nodes(nodes, marked)[k] == nodes.last());
                assert(nodes.last() == nodes[nodes.len() - 1]);
            }
        }
    }
}

/// A marked node keeps its payload, at its renumbered handle.
pub proof fn lemma_filter_nodes_at<N>(nodes: Seq<GraphNode<N>>, marked: Seq<bool>, i: int)
    requires
        0 <= i < nodes.len(),
        marked[i],
    ensures
        rank(marked, i) < filter_nodes(nodes, marked).len(),
        filter_nodes(nodes, marked)[rank(marked, i)] == nodes[i],
    decreases nodes.len(),
{
    lemma_rank_bounds(marked, i);
    if i == nodes.len() - 1 {
        lemma_filter_nodes_len(nodes.drop_last(), marked);
    } else {
        lemma_filter_nodes_at(nodes.drop_last(), marked, i);
        assert(nodes.drop_last()[i] == nodes[i]);
    }
}

/// Whether entry `k` of `fe` is some original edge of `edges`, kept with
/// both endpoints marked and renumbered.
pub open spec fn edge_from_original<E>(
    fe: Seq<GraphEdge<E>>,
    k: int,
    edges: Seq<GraphEdge<E>>,
    marked: Seq<bool>,
) -> bool {
    exists|q: int|
        0 <= q < edges.len() && edge_kept(#[trigger] edges[q], marked) && fe[k] == renumber_edge(
            edges[q],
            marked,
        )
}

/// Every surviving edge is an original edge with both endpoints marked,
/// renumbered.
pub proof fn lemma_filter_edges_sub<E>(edges: Seq<GraphEdge<E>>, marked: Seq<bool>)
    ensures
        forall|k: int|
            0 <= k < filter_edges(edges, marked).len() ==> #[trigger] edge_from_original(
                filter_edges(edges, marked),
                k,
                edges,
                marked,
            ),
    decreases edges.len(),
{
    if edges.len() > 0 {
        lemma_filter_edges_sub(edges.drop_last(), marked);
        let pre = filter_edges(edges.drop_last(), marked);
        assert forall|k: int|
            0 <= k < filter_edges(edges, marked).len() implies #[trigger] edge_from_original(
            filter_edges(edges, marked),
            k,
            edges,
            marked,
        ) by {
            if k < pre.len() {
                assert(filter_edges(edges, marked)[k] == pre[k]);
                assert(edge_from_original(pre, k, edges.drop_last(), marked));
                let q = choose|q: int|
                    0 <= q < edges.drop_last().len() && edge_kept(#[trigger] edges.drop_last()[q], marked)
                        && pre[k] == renumber_edge(edges.drop_last()[q], marked);
                assert(edges.drop_last()[q] == edges[q]);
                assert(edge_kept(edges[q], marked) && filter_edges(edges, marked)[k]
                    == renumber_edge(edges[q], marked));
            } else {
                assert(edge_kept(edges.last(), marked));
                assert(edges.last() == edges[edges.len() - 1]);
                assert(edge_kept(edges[edges.len() - 1], marked) && filter_edges(edges, marked)[k]
                    == renumber_edge(edges[edges.len() - 1], marked));
            }
        }
    }
}

/// Filtering keeps node keys pairwise distinct.
pub proof fn lemma_filter_nodes_distinct<N>(nodes: Seq<GraphNode<N>>, marked: Seq<bool>)
    requires
        keys_distinct(nodes),
    ensures
        keys_distinct(filter_nodes(nodes, marked)),
    decreases nodes.len(),
{
    if nodes.len() > 0 {
        assert forall|i: int, i2: int| 0 <= i < i2 < nodes.drop_last().len() implies (
        #[trigger] nodes.drop_last()[i]).key@ != (#[trigger] nodes.drop_last()[i2]).key@ by {
            assert(nodes.drop_last()[i] == nodes[i]);
            assert(nodes.drop_last()[i2] == nodes[i2]);
        }
        lemma_filter_nodes_distinct(nodes.drop_last(), marked);
        if marked[nodes.len() - 1] {
            lemma_filter_nodes_sub(nodes.drop_last(), marked);
            let pre = filter_nodes(nodes.drop_last(), marked);
            assert forall|k: int| 0 <= k < pre.len() implies (#[trigger] pre[k]).key@
                != nodes.last().key@ by {
                let i = choose|i: int|
                    0 <= i < nodes.drop_last().len() && #[trigger] pre[k] == nodes.drop_last()[i];
                assert(nodes.drop_last()[i] == nodes[i]);
                assert(nodes[i].key@ != nodes[nodes.len() - 1].key@);
            }
            let post = filter_nodes(nodes, marked);
            assert forall|i: int, i2: int| 0 <= i < i2 < post.len() implies (
            #[trigger] post[i]).key@ != (#[trigger] post[i2]).key@ by {
                if i2 < pre.len() {
                    assert(post[i] == pre[i] && post[i2] == pre[i2]);
                } else {
                    assert(post[i] == pre[i] && post[i2] == nodes.last());
                }
            }
        }
    }
}

/// Filtering and renumbering keeps edge pairs pairwise distinct.
pub proof fn lemma_filter_edges_distinct<E>(edges: Seq<GraphEdge<E>>, marked: Seq<bool>)
    requires
        edge_pairs_distinct(edges),
        forall|j: int|
            0 <= j < edges.len() ==> (#[trigger] edges[j]).from < marked.len() && edges[j].to
                < marked.len(),
    ensures
        edge_pairs_distinct(filter_edges(edges, marked)),
    decreases edges.len(),
{
    if edges.len() > 0 {
        assert forall|j: int, j2: int| 0 <= j < j2 < edges.drop_last().len() implies !((
        #[trigger] edges.drop_last()[j]).from == (#[trigger] edges.drop_last()[j2]).from
            && edges.drop_last()[j].to == edges.drop_last()[j2].to) by {
            assert(edges.drop_last()[j] == edges[j]);
            assert(edges.drop_last()[j2] == edges[j2]);
        }
        assert(forall|j: int|
            0 <= j < edges.drop_last().len() ==> (#[trigger] edges.drop_last()[j]).from
                < marked.len() && edges.drop_last()[j].to < marked.len());
        lemma_filter_edges_distinct(edges.drop_last(), marked);
        if edge_kept(edges.last(), marked) {
            lemma_filter_edges_sub(edges.drop_last(), marked);
            let pre = filter_edges(edges.drop_last(), marked);
            let e = edges[edges.len() - 1];
            assert(edges.last() == e);
            assert forall|k: int| 0 <= k < pre.len() implies !((#[trigger] pre[k]).from
                == renumber_edge(e, marked).from && pre[k].to == renumber_edge(e, marked).to) by {
                assert(edge_from_original(pre, k, edges.drop_last(), marked));
                let q = choose|q: int|
                    0 <= q < edges.drop_last().len() && edge_kept(#[trigger] edges.drop_last()[q], marked)
                        && pre[k] == renumber_edge(edges.drop_last()[q], marked);
                let e2 = edges.drop_last()[q];
                assert(e2 == edges[q]);
                assert(!(e2.from == e.from && e2.to == e.to));
                lemma_rank_bounds(marked, e2.from as int);
                lemma_rank_bounds(marked, e2.to as int);
                lemma_rank_bounds(marked, e.from as int);
                lemma_rank_bounds(marked, e.to as int);
                if e2.from != e.from {
                    if e2.from < e.from {
                        lemma_rank_mono(marked, e2.from as int, e.from as int);
                    } else {
                        lemma_rank_mono(marked, e.from as int, e2.from as int);
                    }
                    assert(rank(marked, e2.from as int) != rank(marked, e.from as int));
                } else {
                    if e2.to < e.to {
                        lemma_rank_mono(marked, e2.to as int, e.to as int);
                    } else {
                        lemma_rank_mono(marked, e.to as int, e2.to as int);
                    }
                    assert(rank(marked, e2.to as int) != rank(marked, e.to as int));
                }
            }
            let post = filter_edges(edges, marked);
            assert forall|j: int, j2: int| 0 <= j < j2 < post.len() implies !((
            #[trigger] post[j]).from == (#[trigger] post[j2]).from && post[j].to
                == post[j2].to) by {
                if j2 < pre.len() {
                    assert(post[j] == pre[j] && post[j2] == pre[j2]);
                } else {
                    assert(post[j] == pre[j] && post[j2] == renumber_edge(e, marked));
                }
            }
        }
    }
}

/// Remove every unmarked node and every edge touching one, renumbering the
/// handles of the survivors while keeping their order.
pub fn retain_marked<N, E>(g: &mut Graph<N, E>, marked: &Vec<bool>)
    requires
        old(g).wf(),
        marked@.len() == old(g).nodes@.len(),
    ensures
        final(g).wf(),
        final(g).nodes@ == filter_nodes(old(g).nodes@, marked@),
        final(g).edges@ == filter_edges(old(g).edges@, marked@),
{
    let n = g.nodes.len();
    let mut newidx: Vec<usize> = Vec::new();
    let mut cnt: usize = 0;
    let mut i: usize = 0;
    while i < n
        invariant
            i <= n,
            newidx@.len() == i,
            cnt == rank(marked@, i as int),
            cnt <= i,
            marked@.len() == n,
            forall|p: int| 0 <= p < i ==> newidx@[p] == rank(marked@, p),
        decreases n - i,
    {
        newidx.push(cnt);
        if marked[i] {
            cnt = cnt + 1;
        }
        i = i + 1;
    }
    let mut kept: Vec<GraphNode<N>> = Vec::new();
    let mut i: usize = 0;
    while i < n
        invariant
            i <= n,
            marked@.len() == n,
            n == old(g).nodes@.len(),
            g.nodes@ == old(g).nodes@.subrange(i as int, n as int),
            g.edges@ == old(g).edges@,
            kept@ == filter_nodes(old(g).nodes@.subrange(0, i as int), marked@),
        decreases n - i,
    {
        let nd = g.nodes.remove(0);
        if marked[i] {
            kept.push(nd);
        }
        i = i + 1;
        proof {
            let pre = old(g).nodes@.subrange(0, i as int);
            assert(pre.drop_last() =~= old(g).nodes@.subrange(0, i - 1));
            assert(pre.last() == old(g).nodes@[i - 1]);
            assert(g.nodes@ =~= old(g).nodes@.subrange(i as int, n as int));
        }
    }
    proof {
        assert(old(g).nodes@.subrange(0, n as int) =~= old(g).nodes@);
        lemma_filter_nodes_len(old(g).nodes@, marked@);
    }
    g.nodes = kept;
    let m = g.edges.len();
    let mut kept_e: Vec<GraphEdge<E>> = Vec::new();
    let mut j: usize = 0;
    while j < m
        invariant
            j <= m,
            marked@.len() == n,
            m == old(g).edges@.len(),
            g.nodes@.len() == rank(marked@, n as int),
            g.nodes@ == filter_nodes(old(g).nodes@, marked@),
            g.edges@ == old(g).edges@.subrange(j as int, m as int),
            kept_e@ == filter_edges(old(g).edges@.subrange(0, j as int), marked@),
            newidx@.len() == n,
            forall|p: int| 0 <= p < n ==> newidx@[p] == rank(marked@, p),
            forall|q: int|
                0 <= q < m ==> (#[trigger] old(g).edges@[q]).from < n && old(g).edges@[q].to < n,
            forall|q: int|
                0 <= q < kept_e@.len() ==> (#[trigger] kept_e@[q]).from < rank(marked@, n as int)
                    && kept_e@[q].to < rank(marked@, n as int),
        decreases m - j,
    {
        let e = g.edges.remove(0);
        if marked[e.from] && marked[e.to] {
            proof {
                lemma_rank_bounds(marked@, e.from as int);
                lemma_rank_bounds(marked@, e.to as int);
                lemma_rank_mono(marked@, e.from as int, n as int);
                lemma_rank_mono(marked@, e.to as int, n as int);
            }
            kept_e.push(GraphEdge { from: newidx[e.from], to: newidx[e.to], kind: e.kind });
        }
        j = j + 1;
        proof {
            let pre = old(g).edges@.subrange(0, j as int);
            assert(pre.drop_last() =~= old(g).edges@.subrange(0, j - 1));
            assert(pre.last() == old(g).edges@[j - 1]);
            assert(g.edges@ =~= old(g).edges@.subrange(j as int, m as int));
        }
    }
    proof {
        assert(old(g).edges@.subrange(0, m as int) =~= old(g).edges@);
    }
    g.edges = kept_e;
}

} // verus!
