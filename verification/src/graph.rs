//! A directed multigraph with stable integer handles.
//!
//! Nodes live in an arena and are addressed by their index; each node
//! carries an opaque string key (a package id, or a qualified function
//! name) and a payload. Insertion through [`Graph::get_or_insert`] is
//! idempotent per key, and [`Graph::add_edge`] records at most one edge
//! per ordered `(from, to)` pair. Key lookup resolves to the node pushed
//! last under that key, so that a plain [`Graph::push_node`] can shadow
//! an earlier node with the same key.

use vstd::prelude::*;

use crate::text::str_eq;

verus! {

/// An arena slot: the node's identity key and its payload.
pub struct GraphNode<N> {
    pub key: String,
    pub data: N,
}

/// A directed edge between two arena slots, labeled with a kind.
pub struct GraphEdge<E> {
    pub from: usize,
    pub to: usize,
    pub kind: E,
}

/// The graph store.
pub struct Graph<N, E> {
    pub nodes: Vec<GraphNode<N>>,
    pub edges: Vec<GraphEdge<E>>,
}

/// The keys of a node sequence, in arena order.
pub open spec fn keys_of<N>(nodes: Seq<GraphNode<N>>) -> Seq<Seq<char>> {
    nodes.map_values(|n: GraphNode<N>| n.key@)
}

/// The largest index holding key `k`, or -1 when no index does.
pub open spec fn find_last(keys: Seq<Seq<char>>, k: Seq<char>) -> int
    decreases keys.len(),
{
    if keys.len() == 0 {
        -1
    } else if keys.last() == k {
        keys.len() - 1
    } else {
        find_last(keys.drop_last(), k)
    }
}

/// What `find_last` yields: a valid index holding `k` after which `k` never
/// occurs again, or -1 when `k` occurs nowhere.
pub proof fn lemma_find_last(keys: Seq<Seq<char>>, k: Seq<char>)
    ensures
        find_last(keys, k) >= -1,
        find_last(keys, k) >= 0 ==> find_last(keys, k) < keys.len()
            && keys[find_last(keys, k)] == k,
        forall|i: int| find_last(keys, k) < i < keys.len() ==> keys[i] != k,
        find_last(keys, k) == -1 ==> forall|i: int| 0 <= i < keys.len() ==> keys[i] != k,
    decreases keys.len(),
{
    if keys.len() > 0 && keys.last() != k {
        lemma_find_last(keys.drop_last(), k);
        assert(find_last(keys, k) == find_last(keys.drop_last(), k));
        assert forall|i: int| find_last(keys, k) < i < keys.len() implies keys[i] != k by {
            if i < keys.len() - 1 {
                assert(keys.drop_last()[i] == keys[i]);
            } else {
                assert(keys[i] == keys.last());
            }
        }
    }
}

/// No two nodes share a key.
pub open spec fn keys_distinct<N>(nodes: Seq<GraphNode<N>>) -> bool {
    forall|i: int, i2: int|
        0 <= i < i2 < nodes.len() ==> (#[trigger] nodes[i]).key@ != (#[trigger] nodes[i2]).key@
}

/// No two edges join the same ordered pair.
pub open spec fn edge_pairs_distinct<E>(edges: Seq<GraphEdge<E>>) -> bool {
    forall|j: int, j2: int|
        0 <= j < j2 < edges.len() ==> !((#[trigger] edges[j]).from == (#[trigger] edges[j2]).from
            && edges[j].to == edges[j2].to)
}

/// Whether some edge in `edges` goes from `f` to `t`.
pub open spec fn edges_has_pair<E>(edges: Seq<GraphEdge<E>>, f: int, t: int) -> bool {
    exists|j: int|
        0 <= j < edges.len() && (#[trigger] edges[j]).from == f && edges[j].to == t
}

impl<N, E> Graph<N, E> {
    /// Every edge points at existing arena slots.
    pub open spec fn wf(self) -> bool {
        forall|j: int|
            0 <= j < self.edges@.len() ==> (#[trigger] self.edges@[j]).from < self.nodes@.len()
                && self.edges@[j].to < self.nodes@.len()
    }

    /// The keys of the arena, in order.
    pub open spec fn keys(self) -> Seq<Seq<char>> {
        keys_of(self.nodes@)
    }

    /// Whether some node carries key `k`.
    pub open spec fn spec_has_node(self, k: Seq<char>) -> bool {
        find_last(self.keys(), k) >= 0
    }

    /// Whether an edge from `f` to `t` exists.
    pub open spec fn spec_has_edge(self, f: int, t: int) -> bool {
        edges_has_pair(self.edges@, f, t)
    }

    /// An empty graph.
    pub fn new() -> (g: Graph<N, E>)
        ensures
            g.wf(),
            g.nodes@.len() == 0,
            g.edges@.len() == 0,
    {
        Graph { nodes: Vec::new(), edges: Vec::new() }
    }

    pub fn node_count(&self) -> (n: usize)
        ensures
            n == self.nodes@.len(),
    {
        self.nodes.len()
    }

    pub fn edge_count(&self) -> (n: usize)
        ensures
            n == self.edges@.len(),
    {
        self.edges.len()
    }

    /// The handle of the node pushed last under `key`, if any.
    pub fn lookup(&self, key: &str) -> (r: Option<usize>)
        ensures
            (match r {
                Some(h) => find_last(self.keys(), key@) == h,
                None => find_last(self.keys(), key@) == -1,
            }),
    {
        let mut i: usize = self.nodes.len();
        proof {
            assert(self.keys().subrange(0, i as int) =~= self.keys());
        }
        while i > 0
            invariant
                i <= self.nodes@.len(),
                find_last(self.keys(), key@) == find_last(self.keys().subrange(0, i as int), key@),
            decreases i,
        {
            let ghost pre = self.keys().subrange(0, i as int);
            proof {
                assert(pre.last() == self.nodes@[i - 1].key@);
                assert(pre.drop_last() =~= self.keys().subrange(0, i - 1));
            }
            if str_eq(self.nodes[i - 1].key.as_str(), key) {
                return Some(i - 1);
            }
            i = i - 1;
        }
        proof {
            assert(self.keys().subrange(0, 0) =~= Seq::<Seq<char>>::empty());
        }
        None
    }

    /// Get the existing node under `key`, or append a fresh one holding
    /// `data`. Re-insertion under a present key changes nothing: neither
    /// the node count nor any stored payload.
    pub fn get_or_insert(&mut self, key: String, data: N) -> (h: usize)
        requires
            old(self).wf(),
        ensures
            final(self).wf(),
            final(self).edges@ == old(self).edges@,
            h < final(self).nodes@.len(),
            ({
                let fi = find_last(old(self).keys(), key@);
                if fi >= 0 {
                    final(self).nodes@ == old(self).nodes@ && h == fi
                } else {
                    final(self).nodes@ == old(self).nodes@.push((GraphNode { key, data }))
                        && h == old(self).nodes@.len()
                }
            }),
    {
        match self.lookup(key.as_str()) {
            Some(h) => {
                proof {
                    lemma_find_last(self.keys(), key@);
                }
                h
            },
            None => {
                let h = self.nodes.len();
                self.nodes.push(GraphNode { key, data });
                h
            },
        }
    }

    /// Append a node unconditionally; a later lookup under the same key
    /// resolves to this newest node.
    pub fn push_node(&mut self, key: String, data: N) -> (h: usize)
        requires
            old(self).wf(),
        ensures
            final(self).wf(),
            final(self).edges@ == old(self).edges@,
            h == old(self).nodes@.len(),
            final(self).nodes@ == old(self).nodes@.push((GraphNode { key, data })),
    {
        let h = self.nodes.len();
        self.nodes.push(GraphNode { key, data });
        h
    }

    /// Decide well-formedness, so that unverified callers can test it
    /// before calling a function that demands it.
    pub fn check_wf(&self) -> (r: bool)
        ensures
            r == self.wf(),
    {
        let n = self.nodes.len();
        let mut j: usize = 0;
        while j < self.edges.len()
            invariant
                j <= self.edges@.len(),
                n == self.nodes@.len(),
                forall|jj: int|
                    0 <= jj < j ==> (#[trigger] self.edges@[jj]).from < n && self.edges@[jj].to
                        < n,
            decreases self.edges@.len() - j,
        {
            let e = &self.edges[j];
            if e.from >= n || e.to >= n {
                return false;
            }
            j = j + 1;
        }
        true
    }

    pub fn has_edge(&self, from: usize, to: usize) -> (r: bool)
        ensures
            r == self.spec_has_edge(from as int, to as int),
    {
        let mut j: usize = 0;
        while j < self.edges.len()
            invariant
                j <= self.edges@.len(),
                forall|jj: int|
                    0 <= jj < j ==> !((#[trigger] self.edges@[jj]).from == from as int
                        && self.edges@[jj].to == to as int),
            decreases self.edges@.len() - j,
        {
            let e = &self.edges[j];
            if e.from == from && e.to == to {
                return true;
            }
            j = j + 1;
        }
        false
    }

    /// Record an edge from `from` to `to` unless that ordered pair already
    /// has one; a second insertion of the same pair changes nothing.
    pub fn add_edge(&mut self, from: usize, to: usize, kind: E)
        requires
            old(self).wf(),
            from < old(self).nodes@.len(),
            to < old(self).nodes@.len(),
        ensures
            final(self).wf(),
            final(self).nodes@ == old(self).nodes@,
            (if old(self).spec_has_edge(from as int, to as int) {
                final(self).edges@ == old(self).edges@
            } else {
                final(self).edges@ == old(self).edges@.push((GraphEdge { from, to, kind }))
            }),
    {
        if !self.has_edge(from, to) {
            self.edges.push(GraphEdge { from, to, kind });
        }
    }
}

} // verus!
