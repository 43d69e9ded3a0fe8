//! The function-call graph assembler.
//!
//! From a flat list of function facts and a flat list of call facts — as a
//! source parser reports them — the assembler creates one node per function
//! passing the public-only and exclude filters, keyed by qualified name,
//! and one edge per call whose endpoints both exist, are distinct, and are
//! not yet joined in that direction. A callee is reported by its short name
//! alone; it resolves to the qualified name of the last fact carrying that
//! short name — a deliberate, order-sensitive heuristic — and falls back to
//! the raw text, so calls to unknown names simply match no node. Facts that
//! share a qualified name each get a node, but lookups resolve to the
//! newest, another deliberate quirk of the data model.

use vstd::prelude::*;

use crate::focus::{
    filter_edges, filter_nodes, hop_bound, mark_connected, retain_marked, within_hops,
};
use crate::graph::{
    edges_has_pair, find_last, keys_of, lemma_find_last, Graph, GraphEdge, GraphNode,
};
use crate::pattern::{matches_any_pattern, seq_views, spec_matches_any};
use crate::text::{str_eq, str_to_chars};

verus! {

/// How a call site invokes its callee.
#[derive(Clone, Copy, PartialEq, Eq, Structural, Debug)]
pub enum CallKind {
    Direct,
    Method,
}

/// What a call-graph node records about a function.
#[derive(Clone)]
pub struct FnNodeInfo {
    pub name: String,
    pub qualified_name: String,
    pub file_path: String,
    pub line: usize,
    pub is_public: bool,
    pub signature: Option<String>,
    pub is_async: bool,
}

/// A function declaration as the source parser reports it.
#[derive(Clone)]
pub struct FunctionDef {
    pub name: String,
    pub qualified_name: String,
    pub is_public: bool,
    pub line: usize,
    pub signature: String,
    pub is_async: bool,
}

/// A call site as the source parser reports it: the caller's qualified
/// name, the callee's short name, and how the callee is invoked.
pub struct CallInfo {
    pub caller: String,
    pub callee: String,
    pub kind: CallKind,
}

/// A function declaration together with the source file it came from.
pub struct FunctionFact {
    pub def: FunctionDef,
    pub file: String,
}

/// Configuration for call-graph construction.
pub struct FnGraphArgs {
    pub focus: Option<String>,
    pub depth: usize,
    pub exclude: Vec<String>,
    pub public_only: bool,
    pub show_signatures: bool,
}

/// The call graph: nodes keyed by qualified function name, edges labeled
/// with the call kind.
pub type FnGraphData = Graph<FnNodeInfo, CallKind>;

/// Whether a function fact earns a node: it passes the public-only filter,
/// and no exclude pattern matches its short or its qualified name.
pub open spec fn fn_node_passes(f: FunctionFact, args: FnGraphArgs) -> bool {
    (!args.public_only || f.def.is_public) && !spec_matches_any(
        f.def.name@,
        seq_views(args.exclude@),
    ) && !spec_matches_any(f.def.qualified_name@, seq_views(args.exclude@))
}

/// The node recorded for a function fact: keyed by the qualified name, with
/// the signature attached only when signatures are shown.
pub open spec fn fn_node_of(f: FunctionFact, args: FnGraphArgs) -> GraphNode<FnNodeInfo> {
    GraphNode {
        key: f.def.qualified_name,
        data: FnNodeInfo {
            name: f.def.name,
            qualified_name: f.def.qualified_name,
            file_path: f.file,
            line: f.def.line,
            is_public: f.def.is_public,
            signature: if args.show_signatures {
                Some(f.def.signature)
            } else {
                None
            },
            is_async: f.def.is_async,
        },
    }
}

/// The node arena that the fact list yields, in order.
pub open spec fn spec_fn_nodes(fs: Seq<FunctionFact>, args: FnGraphArgs) -> Seq<
    GraphNode<FnNodeInfo>,
>
    decreases fs.len(),
{
    if fs.len() == 0 {
        Seq::empty()
    } else {
        let pre = spec_fn_nodes(fs.drop_last(), args);
        if fn_node_passes(fs.last(), args) {
            pre.push(fn_node_of(fs.last(), args))
        } else {
            pre
        }
    }
}

/// What a short callee name resolves to: the qualified name of the last
/// fact carrying that short name, or the raw name when none does.
pub open spec fn resolve_callee(fs: Seq<FunctionFact>, short: Seq<char>) -> Seq<char>
    decreases fs.len(),
{
    if fs.len() == 0 {
        short
    } else if fs.last().def.name@ == short {
        fs.last().def.qualified_name@
    } else {
        resolve_callee(fs.drop_last(), short)
    }
}

/// What one call fact adds to the edge list: an edge from the caller's node
/// to the resolved callee's node, unless an endpoint is missing, the two
/// coincide, or the ordered pair is already joined.
pub open spec fn call_edge_step(
    acc: Seq<GraphEdge<CallKind>>,
    c: CallInfo,
    nodes: Seq<GraphNode<FnNodeInfo>>,
    fs: Seq<FunctionFact>,
) -> Seq<GraphEdge<CallKind>> {
    let cq = resolve_callee(fs, c.callee@);
    let from = find_last(keys_of(nodes), c.caller@);
    let to = find_last(keys_of(nodes), cq);
    if from >= 0 && to >= 0 && from != to && !edges_has_pair(acc, from, to) {
        acc.push((GraphEdge { from: from as usize, to: to as usize, kind: c.kind }))
    } else {
        acc
    }
}

/// The edge list after the call facts from `i` on are folded over `acc`.
pub open spec fn spec_fn_edges(
    calls: Seq<CallInfo>,
    i: int,
    acc: Seq<GraphEdge<CallKind>>,
    nodes: Seq<GraphNode<FnNodeInfo>>,
    fs: Seq<FunctionFact>,
) -> Seq<GraphEdge<CallKind>>
    decreases calls.len() - i,
{
    if i < 0 || i >= calls.len() {
        acc
    } else {
        spec_fn_edges(calls, i + 1, call_edge_step(acc, calls[i], nodes, fs), nodes, fs)
    }
}

/// The qualified name of the last function fact whose short name is
/// `callee`, or `callee` itself when no fact carries it.
fn resolve_callee_exec(functions: &Vec<FunctionFact>, callee: &str) -> (r: String)
    ensures
        r@ == resolve_callee(functions@, callee@),
{
    let mut i: usize = functions.len();
    proof {
        assert(functions@.subrange(0, i as int) =~= functions@);
    }
    while i > 0
        invariant
            i <= functions@.len(),
            resolve_callee(functions@, callee@) == resolve_callee(
                functions@.subrange(0, i as int),
                callee@,
            ),
        decreases i,
    {
        proof {
            let pre = functions@.subrange(0, i as int);
            assert(pre.last() == functions@[i - 1]);
            assert(pre.drop_last() =~= functions@.subrange(0, i - 1));
        }
        if str_eq(functions[i - 1].def.name.as_str(), callee) {
            return functions[i - 1].def.qualified_name.clone();
        }
        i = i - 1;
    }
    proof {
        assert(functions@.subrange(0, 0) =~= Seq::<FunctionFact>::empty());
    }
    let mut out = String::new();
    out.append(callee);
    out
}

/// Assemble the call graph from function and call facts under `args`.
pub fn build_fn_graph(
    functions: &Vec<FunctionFact>,
    calls: &Vec<CallInfo>,
    args: &FnGraphArgs,
) -> (g: FnGraphData)
    ensures
        g.wf(),
        g.nodes@ == spec_fn_nodes(functions@, *args),
        g.edges@ == spec_fn_edges(calls@, 0, Seq::empty(), g.nodes@, functions@),
{
    let mut g: FnGraphData = Graph::new();
    proof {
        assert(g.nodes@ =~= spec_fn_nodes(functions@.subrange(0, 0), *args));
    }
    let mut i: usize = 0;
    while i < functions.len()
        invariant
            i <= functions@.len(),
            g.wf(),
            g.edges@.len() == 0,
            g.nodes@ == spec_fn_nodes(functions@.subrange(0, i as int), *args),
        decreases functions@.len() - i,
    {
        let f = &functions[i];
        let passes = (!args.public_only || f.def.is_public) && !matches_any_pattern(
            f.def.name.as_str(),
            &args.exclude,
        ) && !matches_any_pattern(f.def.qualified_name.as_str(), &args.exclude);
        if passes {
            let sig: Option<String> = if args.show_signatures {
                Some(f.def.signature.clone())
            } else {
                None
            };
            let info = FnNodeInfo {
                name: f.def.name.clone(),
                qualified_name: f.def.qualified_name.clone(),
                file_path: f.file.clone(),
                line: f.def.line,
                is_public: f.def.is_public,
                signature: sig,
                is_async: f.def.is_async,
            };
            g.push_node(f.def.qualified_name.clone(), info);
            proof {
                assert(g.nodes@.last() == fn_node_of(functions@[i as int], *args));
            }
        }
        i = i + 1;
        proof {
            let pre = functions@.subrange(0, i as int);
            assert(pre.drop_last() =~= functions@.subrange(0, i - 1));
            assert(pre.last() == functions@[i - 1]);
            assert(g.nodes@ == spec_fn_nodes(pre, *args));
        }
    }
    proof {
        assert(functions@.subrange(0, functions@.len() as int) =~= functions@);
    }
    let ghost nodes0 = g.nodes@;
    proof {
        assert(g.edges@ =~= Seq::<GraphEdge<CallKind>>::empty());
    }
    let mut c: usize = 0;
    while c < calls.len()
        invariant
            c <= calls@.len(),
            g.wf(),
            g.nodes@ == nodes0,
            nodes0 == spec_fn_nodes(functions@, *args),
            spec_fn_edges(calls@, c as int, g.edges@, nodes0, functions@) == spec_fn_edges(
                calls@,
                0,
                Seq::empty(),
                nodes0,
                functions@,
            ),
        decreases calls@.len() - c,
    {
        let call = &calls[c];
        let cq = resolve_callee_exec(functions, call.callee.as_str());
        let from_o = g.lookup(call.caller.as_str());
        let to_o = g.lookup(cq.as_str());
        let ghost pre_edges = g.edges@;
        match (from_o, to_o) {
            (Some(from), Some(to)) => {
                if from != to {
                    proof {
                        lemma_find_last(g.keys(), call.caller@);
                        lemma_find_last(g.keys(), cq@);
                    }
                    g.add_edge(from, to, call.kind);
                }
            },
            _ => {},
        }
        proof {
            assert(g.edges@ == call_edge_step(pre_edges, calls@[c as int], nodes0, functions@));
        }
        c = c + 1;
    }
    g
}

/// Whether `qn` ends with `::` followed by `focus`.
pub open spec fn scoped_suffix_matches(qn: Seq<char>, focus: Seq<char>) -> bool {
    qn.len() >= focus.len() + 2 && qn.subrange(qn.len() - focus.len() - 2, qn.len() as int)
        == seq![':', ':'] + focus
}

/// Whether a node seeds a call-graph focus: its short name or its qualified
/// name equals the focus key, or its qualified name ends in `::` plus the
/// key.
pub open spec fn fn_focus_seed(info: FnNodeInfo, focus: Seq<char>) -> bool {
    info.name@ == focus || info.qualified_name@ == focus || scoped_suffix_matches(
        info.qualified_name@,
        focus,
    )
}

/// The seed set of a call-graph focus.
pub open spec fn fn_focus_seeds(nodes: Seq<GraphNode<FnNodeInfo>>, focus: Seq<char>) -> Seq<bool> {
    Seq::new(nodes.len(), |i: int| fn_focus_seed(nodes[i].data, focus))
}

fn ends_with_scoped(qn: &str, focus: &str) -> (r: bool)
    ensures
        r == scoped_suffix_matches(qn@, focus@),
{
    let q = str_to_chars(qn);
    let f = str_to_chars(focus);
    let ghost suffix = seq![':', ':'] + focus@;
    let ql = q.len();
    let fl = f.len();
    if ql < 2 || fl > ql - 2 {
        return false;
    }
    let base = ql - fl - 2;
    if q[base] != ':' {
        proof {
            assert(qn@.subrange(base as int, qn@.len() as int)[0] == qn@[base as int]);
            assert(suffix[0] == ':');
        }
        return false;
    }
    if q[base + 1] != ':' {
        proof {
            assert(qn@.subrange(base as int, qn@.len() as int)[1] == qn@[base + 1]);
            assert(suffix[1] == ':');
        }
        return false;
    }
    let mut k: usize = 0;
    while k < fl
        invariant
            k <= fl,
            q@ == qn@,
            f@ == focus@,
            ql == q@.len(),
            fl == f@.len(),
            base + 2 + fl == ql,
            suffix == seq![':', ':'] + focus@,
            q@[base as int] == ':',
            q@[base + 1] == ':',
            forall|t: int| 0 <= t < k ==> q@[base + 2 + t] == focus@[t],
        decreases fl - k,
    {
        if q[base + 2 + k] != f[k] {
            proof {
                assert(suffix.len() == 2 + focus@.len());
                assert(qn@.subrange(base as int, qn@.len() as int)[2 + k] == qn@[base + 2 + k]);
                assert(suffix[2 + k] == focus@[k as int]);
            }
            return false;
        }
        k = k + 1;
    }
    proof {
        assert(qn@.subrange(base as int, qn@.len() as int) =~= suffix);
    }
    true
}

/// Reduce the call graph to the nodes within `max_depth` hops — in either
/// edge direction, unlimited when zero — of a node matching the focus key.
/// Without a matching node the graph is returned unchanged.
pub fn filter_fn_by_focus(graph_data: &mut FnGraphData, focus_fn: &str, max_depth: usize)
    requires
        old(graph_data).wf(),
    ensures
        final(graph_data).wf(),
        ({
            let seeds = fn_focus_seeds(old(graph_data).nodes@, focus_fn@);
            let m = Seq::new(
                old(graph_data).nodes@.len(),
                |v: int|
                    within_hops(
                        old(graph_data).edges@,
                        seeds,
                        v,
                        hop_bound(old(graph_data).nodes@.len(), max_depth),
                    ),
            );
            if (exists|i: int| 0 <= i < seeds.len() && seeds[i]) {
                final(graph_data).nodes@ == filter_nodes(old(graph_data).nodes@, m)
                    && final(graph_data).edges@ == filter_edges(old(graph_data).edges@, m)
            } else {
                *final(graph_data) == *old(graph_data)
            }
        }),
{
    let n = graph_data.nodes.len();
    let mut seeds: Vec<bool> = Vec::new();
    let mut any = false;
    let mut i: usize = 0;
    while i < n
        invariant
            i <= n,
            n == graph_data.nodes@.len(),
            *graph_data == *old(graph_data),
            graph_data.wf(),
            seeds@.len() == i,
            forall|p: int|
                0 <= p < i ==> seeds@[p] == fn_focus_seed(graph_data.nodes@[p].data, focus_fn@),
            any == (exists|p: int| 0 <= p < i && seeds@[p]),
        decreases n - i,
    {
        let ghost prev_seeds = seeds@;
        let info = &graph_data.nodes[i].data;
        let eq = str_eq(info.name.as_str(), focus_fn) || str_eq(
            info.qualified_name.as_str(),
            focus_fn,
        ) || ends_with_scoped(info.qualified_name.as_str(), focus_fn);
        seeds.push(eq);
        if eq {
            any = true;
        }
        proof {
            if eq {
                assert(seeds@[i as int]);
                assert(exists|p: int| 0 <= p < i + 1 && seeds@[p]);
            } else {
                if any {
                    let p2 = choose|p2: int| 0 <= p2 < i && prev_seeds[p2];
                    assert(seeds@[p2]);
                    assert(exists|p: int| 0 <= p < i + 1 && seeds@[p]);
                }
                if exists|p: int| 0 <= p < i + 1 && seeds@[p] {
                    let p2 = choose|p: int| 0 <= p < i + 1 && seeds@[p];
                    assert(p2 != i as int);
                    assert(prev_seeds[p2]);
                    assert(exists|p: int| 0 <= p < i && prev_seeds[p]);
                }
            }
        }
        i = i + 1;
    }
    if !any {
        proof {
            assert(seeds@ =~= fn_focus_seeds(old(graph_data).nodes@, focus_fn@));
        }
        return ;
    }
    proof {
        assert(seeds@ =~= fn_focus_seeds(old(graph_data).nodes@, focus_fn@));
    }
    let marked = mark_connected(graph_data, &seeds, max_depth);
    let ghost m = Seq::new(
        old(graph_data).nodes@.len(),
        |v: int|
            within_hops(
                old(graph_data).edges@,
                fn_focus_seeds(old(graph_data).nodes@, focus_fn@),
                v,
                hop_bound(old(graph_data).nodes@.len(), max_depth),
            ),
    );
    proof {
        assert(marked@ =~= m);
    }
    retain_marked(graph_data, &marked);
}

} // verus!
