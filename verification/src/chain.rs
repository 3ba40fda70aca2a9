//! Critical chains: among the zero-float tasks of a schedule, the chains in
//! which each task directly depends on the one before, from a task with no
//! zero-float predecessor to a task with no zero-float successor.

use vstd::prelude::*;

use crate::graph::{
    dep_relation, distinct_ids, edge_in, edges_within, has_cycle_of, has_dep_cycle,
    intern_edges, is_cycle_of, is_dep_edge, lemma_unmarked_behind_cycle, on_cycle_of, Dep,
};
use crate::parallel::{dep_exists, has_dep};
use crate::text::{lex_less, lex_lt, string_views};

verus! {

/// Whether `s` is one of the ids in `ids`.
pub open spec fn among(ids: Seq<String>, s: Seq<char>) -> bool {
    exists|i: int| 0 <= i < ids.len() && #[trigger] ids[i]@ == s
}

/// Whether `c` is a critical chain of the zero-float tasks `zf`: distinct
/// zero-float tasks, each depending directly on the one before, starting at
/// a task that no zero-float task precedes and ending at one that no
/// zero-float task follows.
pub open spec fn is_critical_chain(zf: Seq<String>, deps: Seq<Dep>, c: Seq<Seq<char>>) -> bool {
    &&& c.len() >= 1
    &&& c.no_duplicates()
    &&& forall|i: int| 0 <= i < c.len() ==> among(zf, #[trigger] c[i])
    &&& forall|i: int| 0 <= i < c.len() - 1 ==> #[trigger] has_dep(deps, c[i], c[i + 1])
    &&& !exists|w: Seq<char>| #[trigger] among(zf, w) && has_dep(deps, w, c[0])
    &&& !exists|w: Seq<char>| #[trigger] among(zf, w) && has_dep(deps, c.last(), w)
}

/// Whether `s` is a zero-float task with no zero-float predecessor.
pub open spec fn is_chain_start(zf: Seq<String>, deps: Seq<Dep>, s: Seq<char>) -> bool {
    among(zf, s) && !exists|w: Seq<char>| #[trigger] among(zf, w) && has_dep(deps, w, s)
}

/// Whether every two neighbours of `chain` are joined by a dependency.
pub open spec fn linked(deps: Seq<Dep>, chain: Seq<Seq<char>>) -> bool {
    forall|i: int| 0 <= i < chain.len() - 1 ==> #[trigger] has_dep(deps, chain[i], chain[i + 1])
}

/// Whether every adjacent pair of `chain` has a direct dependency. A chain
/// of fewer than two tasks is trivially a chain.
pub fn is_valid_chain(deps: &Vec<Dep>, chain: &Vec<String>) -> (r: bool)
    ensures
        r == linked(deps@, string_views(chain@)),
{
    if chain.len() < 2 {
        return true;
    }
    let mut i: usize = 0;
    while i + 1 < chain.len()
        invariant
            chain.len() >= 2,
            i + 1 <= chain.len(),
            forall|j: int|
                0 <= j < i ==> #[trigger] has_dep(
                    deps@,
                    string_views(chain@)[j],
                    string_views(chain@)[j + 1],
                ),
        decreases chain.len() - i,
    {
        if !dep_exists(deps, chain[i].as_str(), chain[i + 1].as_str()) {
            assert(!has_dep(deps@, string_views(chain@)[i as int], string_views(chain@)[i + 1]));
            return false;
        }
        i = i + 1;
    }
    true
}

// ---------------------------------------------------------------------------
// Enumeration over positions
// ---------------------------------------------------------------------------

/// The successor lists of the interned graph.
pub open spec fn succ_lists_ok(e: Seq<(usize, usize)>, n: int, succ: Seq<Vec<usize>>) -> bool {
    &&& succ.len() == n
    &&& forall|u: int, v: usize| 0 <= u < n ==> (#[trigger] succ[u]@.contains(v) <==> edge_in(e, u, v as int))
    &&& forall|u: int, k: int| 0 <= u < n && 0 <= k < succ[u]@.len() ==> #[trigger] succ[u]@[k] < n
}

/// Whether `q` is a simple walk through the successor lists.
pub open spec fn simple_walk(n: int, succ: Seq<Vec<usize>>, q: Seq<usize>) -> bool {
    &&& q.len() >= 1
    &&& q.no_duplicates()
    &&& forall|i: int| 0 <= i < q.len() ==> #[trigger] q[i] < n
    &&& forall|i: int| 0 <= i < q.len() - 1 ==> succ[q[i] as int]@.contains(#[trigger] q[i + 1])
}

/// Whether `q` continues the walk `path` up to a node with no successor.
pub open spec fn completes(n: int, succ: Seq<Vec<usize>>, path: Seq<usize>, q: Seq<usize>) -> bool {
    &&& simple_walk(n, succ, q)
    &&& q.len() >= path.len()
    &&& q.subrange(0, path.len() as int) == path
    &&& succ[q.last() as int]@.len() == 0
}

/// Whether one of the first `k` entries of `nexts` is `x`.
pub open spec fn first_step_among(nexts: Seq<usize>, k: int, x: usize) -> bool {
    exists|j: int| 0 <= j < k && #[trigger] nexts[j] == x
}

pub open spec fn walk_views(out: Seq<Vec<usize>>) -> Seq<Seq<usize>> {
    out.map_values(|v: Vec<usize>| v@)
}

proof fn lemma_distinct_len(s: Seq<usize>, n: int)
    requires
        s.no_duplicates(),
        forall|i: int| 0 <= i < s.len() ==> #[trigger] s[i] < n,
        n >= 0,
    ensures
        s.len() <= n,
{
    let si = s.map_values(|x: usize| x as int);
    assert(si.no_duplicates()) by {
        assert forall|i: int, j: int| 0 <= i < si.len() && 0 <= j < si.len() && i != j implies si[i]
            != si[j] by {
            assert(s[i] != s[j]);
        }
    }
    si.unique_seq_to_set();
    vstd::set_lib::lemma_int_range(0, n);
    assert(si.to_set().subset_of(vstd::set_lib::set_int_range(0, n))) by {
        assert forall|x: int| si.to_set().contains(x) implies vstd::set_lib::set_int_range(
            0,
            n,
        ).contains(x) by {
            let i = choose|i: int| 0 <= i < si.len() && si[i] == x;
            assert(s[i] < n);
        }
    }
    vstd::set_lib::lemma_len_subset(si.to_set(), vstd::set_lib::set_int_range(0, n));
}

fn contains_node(path: &Vec<usize>, x: usize) -> (r: bool)
    ensures
        r == path@.contains(x),
{
    let mut i: usize = 0;
    while i < path.len()
        invariant
            i <= path.len(),
            forall|j: int| 0 <= j < i ==> path@[j] != x,
        decreases path.len() - i,
    {
        if path[i] == x {
            return true;
        }
        i = i + 1;
    }
    false
}

/// Depth-first enumeration of every completion of `path`.
fn extend_walks(n: usize, succ: &Vec<Vec<usize>>, path: &mut Vec<usize>, out: &mut Vec<Vec<usize>>)
    requires
        succ@.len() == n,
        forall|u: int, k: int| 0 <= u < n && 0 <= k < succ@[u]@.len() ==> #[trigger] succ@[u]@[k] < n,
        simple_walk(n as int, succ@, old(path)@),
    ensures
        final(path)@ == old(path)@,
        walk_views(final(out)@).subrange(0, old(out)@.len() as int) == walk_views(old(out)@),
        final(out)@.len() >= old(out)@.len(),
        forall|i: int|
            old(out)@.len() <= i < final(out)@.len() ==> completes(
                n as int,
                succ@,
                old(path)@,
                #[trigger] walk_views(final(out)@)[i],
            ),
        forall|q: Seq<usize>|
            completes(n as int, succ@, old(path)@, q) ==> #[trigger] walk_views(final(out)@).contains(q),
    decreases n - old(path)@.len(),
{
    proof {
        lemma_distinct_len(path@, n as int);
    }
    let ghost p0 = path@;
    let ghost out0 = out@;
    let cur = path[path.len() - 1];
    let nexts = &succ[cur];
    if nexts.len() == 0 {
        let copy = path.clone();
        out.push(copy);
        proof {
            assert(walk_views(out@) =~= walk_views(out0).push(p0));
            assert(walk_views(out@).subrange(0, out0.len() as int) =~= walk_views(out0));
            assert(p0.subrange(0, p0.len() as int) =~= p0);
            assert(completes(n as int, succ@, p0, p0));
            assert forall|q: Seq<usize>| completes(n as int, succ@, p0, q) implies #[trigger] walk_views(
                out@,
            ).contains(q) by {
                if q.len() > p0.len() {
                    assert(q[p0.len() - 1] == p0[p0.len() - 1]) by {
                        assert(q.subrange(0, p0.len() as int)[p0.len() - 1] == p0[p0.len() - 1]);
                    }
                    assert(succ@[q[p0.len() - 1] as int]@.contains(q[(p0.len() - 1) + 1]));
                }
                assert(q =~= p0) by {
                    assert(q.subrange(0, p0.len() as int) == p0);
                }
                assert(walk_views(out@)[out0.len() as int] == p0);
            }
        }
        return ;
    }
    let mut k: usize = 0;
    while k < nexts.len()
        invariant
            succ@.len() == n,
            forall|u: int, kk: int| 0 <= u < n && 0 <= kk < succ@[u]@.len() ==> #[trigger] succ@[u]@[kk] < n,
            path@ == p0,
            p0 == old(path)@,
            simple_walk(n as int, succ@, p0),
            cur == p0.last(),
            cur < n,
            nexts@ == succ@[cur as int]@,
            k <= nexts.len(),
            out@.len() >= out0.len(),
            walk_views(out@).subrange(0, out0.len() as int) == walk_views(out0),
            forall|i: int|
                out0.len() <= i < out@.len() ==> completes(
                    n as int,
                    succ@,
                    p0,
                    #[trigger] walk_views(out@)[i],
                ),
            forall|q: Seq<usize>|
                #[trigger] completes(n as int, succ@, p0, q) && q.len() > p0.len() && first_step_among(
                    nexts@,
                    k as int,
                    q[p0.len() as int],
                ) ==> walk_views(out@).contains(q),
        decreases nexts.len() - k,
    {
        let s = nexts[k];
        let ghost out1 = out@;
        if !contains_node(path, s) {
            path.push(s);
            proof {
                assert(path@ == p0.push(s));
                assert(succ@[p0[p0.len() - 1] as int]@.contains(s)) by {
                    assert(nexts@[k as int] == s);
                }
                assert(simple_walk(n as int, succ@, p0.push(s))) by {
                    assert forall|i: int| 0 <= i < p0.len() + 1 - 1 implies succ@[p0.push(s)[i] as int]@.contains(
                        #[trigger] p0.push(s)[i + 1],
                    ) by {
                        if i < p0.len() - 1 {
                            assert(p0.push(s)[i] == p0[i]);
                            assert(p0.push(s)[i + 1] == p0[i + 1]);
                        }
                    }
                    assert(p0.push(s).no_duplicates()) by {
                        assert forall|a: int, b: int|
                            0 <= a < p0.len() + 1 && 0 <= b < p0.len() + 1 && a != b implies p0.push(s)[a]
                            != p0.push(s)[b] by {
                            if a == p0.len() && b < p0.len() {
                                assert(p0[b] != s);
                            } else if b == p0.len() && a < p0.len() {
                                assert(p0[a] != s);
                            }
                        }
                    }
                }
            }
            proof {
                lemma_distinct_len(path@, n as int);
            }
            extend_walks(n, succ, path, out);
            path.pop();
            proof {
                assert(path@ =~= p0);
                assert(walk_views(out@).subrange(0, out0.len() as int) =~= walk_views(out0)) by {
                    assert forall|i: int| 0 <= i < out0.len() implies walk_views(out@)[i] == walk_views(
                        out0,
                    )[i] by {
                        assert(walk_views(out@).subrange(0, out1.len() as int)[i] == walk_views(out1)[i]);
                        assert(walk_views(out1).subrange(0, out0.len() as int)[i] == walk_views(out0)[i]);
                    }
                }
                assert forall|i: int| out0.len() <= i < out@.len() implies completes(
                    n as int,
                    succ@,
                    p0,
                    #[trigger] walk_views(out@)[i],
                ) by {
                    if i < out1.len() {
                        assert(walk_views(out@).subrange(0, out1.len() as int)[i] == walk_views(out1)[i]);
                    } else {
                        let q = walk_views(out@)[i];
                        assert(completes(n as int, succ@, p0.push(s), q));
                        assert(q.subrange(0, p0.len() as int) =~= p0) by {
                            assert forall|j: int| 0 <= j < p0.len() implies q.subrange(0, p0.len() as int)[j] == p0[j] by {
                                assert(q.subrange(0, p0.len() as int + 1)[j] == p0.push(s)[j]);
                            }
                        }
                    }
                }
                assert forall|q: Seq<usize>|
                    #[trigger] completes(n as int, succ@, p0, q) && q.len() > p0.len() && first_step_among(
                        nexts@,
                        k + 1,
                        q[p0.len() as int],
                    ) implies walk_views(out@).contains(q) by {
                    let j = choose|j: int| 0 <= j < k + 1 && nexts@[j] == q[p0.len() as int];
                    if j < k {
                        assert(first_step_among(nexts@, k as int, q[p0.len() as int]));
                        assert(walk_views(out1).contains(q));
                        let ii = choose|ii: int| 0 <= ii < walk_views(out1).len() && walk_views(out1)[ii] == q;
                        assert(walk_views(out@).subrange(0, out1.len() as int)[ii] == walk_views(out1)[ii]);
                        assert(walk_views(out@)[ii] == q);
                    } else {
                        assert(q[p0.len() as int] == s);
                        assert(q.subrange(0, p0.len() as int + 1) =~= p0.push(s)) by {
                            assert forall|t: int| 0 <= t < p0.len() + 1 implies q.subrange(0, p0.len() as int + 1)[t] == p0.push(s)[t] by {
                                if t < p0.len() {
                                    assert(q.subrange(0, p0.len() as int)[t] == p0[t]);
                                }
                            }
                        }
                        assert(completes(n as int, succ@, p0.push(s), q));
                    }
                }
            }
        } else {
            proof {
                assert forall|q: Seq<usize>|
                    #[trigger] completes(n as int, succ@, p0, q) && q.len() > p0.len() && first_step_among(
                        nexts@,
                        k + 1,
                        q[p0.len() as int],
                    ) implies walk_views(out@).contains(q) by {
                    let j = choose|j: int| 0 <= j < k + 1 && nexts@[j] == q[p0.len() as int];
                    if j < k {
                        assert(first_step_among(nexts@, k as int, q[p0.len() as int]));
                    }
                    if j == k {
                        let t = choose|t: int| 0 <= t < p0.len() && p0[t] == s;
                        assert(q.subrange(0, p0.len() as int)[t] == p0[t]);
                        assert(q[t] == s);
                        assert(q[p0.len() as int] == s);
                        assert(false);
                    }
                }
            }
        }
        k = k + 1;
    }
    proof {
        assert forall|q: Seq<usize>| completes(n as int, succ@, p0, q) implies #[trigger] walk_views(
            out@,
        ).contains(q) by {
            if q.len() == p0.len() {
                assert(q =~= p0) by {
                    assert(q.subrange(0, p0.len() as int) == p0);
                }
                assert(succ@[cur as int]@.len() == 0);
            }
            assert(q.len() > p0.len());
            assert(q[p0.len() - 1] == cur) by {
                assert(q.subrange(0, p0.len() as int)[p0.len() - 1] == p0[p0.len() - 1]);
            }
            assert(succ@[q[p0.len() - 1] as int]@.contains(q[(p0.len() - 1) + 1]));
            let j = choose|j: int| 0 <= j < nexts@.len() && nexts@[j] == q[p0.len() as int];
            assert(nexts@[j] == q[p0.len() as int]);
            assert(first_step_among(nexts@, nexts@.len() as int, q[p0.len() as int]));
        }
    }
}

/// The successor lists of the `n` nodes of `e`, each in edge order.
fn successor_lists(n: usize, e: &Vec<(usize, usize)>) -> (succ: Vec<Vec<usize>>)
    requires
        edges_within(e@, n as int),
    ensures
        succ_lists_ok(e@, n as int, succ@),
{
    let mut succ: Vec<Vec<usize>> = Vec::new();
    let mut u: usize = 0;
    while u < n
        invariant
            u <= n,
            edges_within(e@, n as int),
            succ.len() == u,
            forall|x: int, v: usize| 0 <= x < u ==> (#[trigger] succ@[x]@.contains(v) <==> edge_in(e@, x, v as int)),
            forall|x: int, k: int| 0 <= x < u && 0 <= k < succ@[x]@.len() ==> #[trigger] succ@[x]@[k] < n,
        decreases n - u,
    {
        let mut list: Vec<usize> = Vec::new();
        let mut k: usize = 0;
        while k < e.len()
            invariant
                k <= e.len(),
                u < n,
                edges_within(e@, n as int),
                forall|j: int| 0 <= j < list.len() ==> #[trigger] list@[j] < n,
                forall|v: usize|
                    #[trigger] list@.contains(v) <==> exists|j: int|
                        0 <= j < k && #[trigger] e@[j].0 == u && e@[j].1 == v,
            decreases e.len() - k,
        {
            let (a, b) = e[k];
            if a == u {
                let ghost before = list@;
                list.push(b);
                proof {
                    assert(e@[k as int].1 < n);
                    assert forall|v: usize|
                        #[trigger] list@.contains(v) <==> exists|j: int|
                            0 <= j < k + 1 && #[trigger] e@[j].0 == u && e@[j].1 == v by {
                        if list@.contains(v) {
                            let i = choose|i: int| 0 <= i < list@.len() && list@[i] == v;
                            if i < before.len() {
                                assert(before.contains(v));
                            } else {
                                assert(e@[k as int].0 == u && e@[k as int].1 == v);
                            }
                        }
                        if exists|j: int| 0 <= j < k + 1 && #[trigger] e@[j].0 == u && e@[j].1 == v {
                            let j = choose|j: int| 0 <= j < k + 1 && #[trigger] e@[j].0 == u && e@[j].1 == v;
                            if j < k {
                                assert(before.contains(v));
                                let i = choose|i: int| 0 <= i < before.len() && before[i] == v;
                                assert(list@[i] == v);
                            } else {
                                assert(list@[before.len() as int] == v);
                            }
                        }
                    }
                }
            } else {
                proof {
                    assert forall|v: usize|
                        #[trigger] list@.contains(v) <==> exists|j: int|
                            0 <= j < k + 1 && #[trigger] e@[j].0 == u && e@[j].1 == v by {
                        if exists|j: int| 0 <= j < k + 1 && #[trigger] e@[j].0 == u && e@[j].1 == v {
                            let j = choose|j: int| 0 <= j < k + 1 && #[trigger] e@[j].0 == u && e@[j].1 == v;
                            if j == k {
                                assert(false);
                            }
                        }
                    }
                }
            }
            k = k + 1;
        }
        let ghost before = succ@;
        succ.push(list);
        proof {
            assert forall|x: int, v: usize| 0 <= x < u + 1 implies (#[trigger] succ@[x]@.contains(v) <==> edge_in(e@, x, v as int)) by {
                if x < u {
                    assert(succ@[x] == before[x]);
                } else {
                    if edge_in(e@, x, v as int) {
                        let j = choose|j: int| 0 <= j < e@.len() && #[trigger] e@[j].0 == x && e@[j].1 == v as int;
                        assert(e@[j].1 == v);
                    }
                }
            }
            assert forall|x: int, k: int| 0 <= x < u + 1 && 0 <= k < succ@[x]@.len() implies #[trigger] succ@[x]@[k] < n by {
                if x < u {
                    assert(succ@[x] == before[x]);
                }
            }
        }
        u = u + 1;
    }
    succ
}

/// Whether no node has `u` among its successors.
pub open spec fn no_predecessor(n: int, succ: Seq<Vec<usize>>, u: usize) -> bool {
    forall|v: int| 0 <= v < n ==> !(#[trigger] succ[v]@).contains(u)
}

fn has_no_predecessor(n: usize, succ: &Vec<Vec<usize>>, u: usize) -> (r: bool)
    requires
        succ@.len() == n,
    ensures
        r == no_predecessor(n as int, succ@, u),
{
    let mut v: usize = 0;
    while v < n
        invariant
            v <= n,
            succ@.len() == n,
            forall|x: int| 0 <= x < v ==> !(#[trigger] succ@[x]@).contains(u),
        decreases n - v,
    {
        if contains_node(&succ[v], u) {
            return false;
        }
        v = v + 1;
    }
    true
}

/// Every walk from a node without predecessor to a node without successor.
fn all_walks(n: usize, succ: &Vec<Vec<usize>>) -> (out: Vec<Vec<usize>>)
    requires
        succ@.len() == n,
        forall|u: int, k: int| 0 <= u < n && 0 <= k < succ@[u]@.len() ==> #[trigger] succ@[u]@[k] < n,
    ensures
        forall|i: int|
            0 <= i < out.len() ==> simple_walk(n as int, succ@, #[trigger] walk_views(out@)[i])
                && no_predecessor(n as int, succ@, walk_views(out@)[i][0])
                && succ@[walk_views(out@)[i].last() as int]@.len() == 0,
        forall|q: Seq<usize>|
            simple_walk(n as int, succ@, q) && #[trigger] no_predecessor(n as int, succ@, q[0])
                && succ@[q.last() as int]@.len() == 0 ==> walk_views(out@).contains(q),
{
    let mut out: Vec<Vec<usize>> = Vec::new();
    let mut u: usize = 0;
    while u < n
        invariant
            u <= n,
            succ@.len() == n,
            forall|x: int, k: int| 0 <= x < n && 0 <= k < succ@[x]@.len() ==> #[trigger] succ@[x]@[k] < n,
            forall|i: int|
                0 <= i < out.len() ==> simple_walk(n as int, succ@, #[trigger] walk_views(out@)[i])
                    && no_predecessor(n as int, succ@, walk_views(out@)[i][0])
                    && succ@[walk_views(out@)[i].last() as int]@.len() == 0,
            forall|q: Seq<usize>|
                simple_walk(n as int, succ@, q) && #[trigger] no_predecessor(n as int, succ@, q[0])
                    && succ@[q.last() as int]@.len() == 0 && q[0] < u ==> walk_views(out@).contains(q),
        decreases n - u,
    {
        if has_no_predecessor(n, succ, u) {
            let mut path: Vec<usize> = vec![u];
            let ghost out0 = out@;
            let ghost start = path@;
            assert(start =~= seq![u]);
            extend_walks(n, succ, &mut path, &mut out);
            proof {
                assert forall|i: int| 0 <= i < out.len() implies simple_walk(n as int, succ@, #[trigger] walk_views(out@)[i])
                    && no_predecessor(n as int, succ@, walk_views(out@)[i][0])
                    && succ@[walk_views(out@)[i].last() as int]@.len() == 0 by {
                    if i < out0.len() {
                        assert(walk_views(out@).subrange(0, out0.len() as int)[i] == walk_views(out0)[i]);
                    } else {
                        let q = walk_views(out@)[i];
                        assert(completes(n as int, succ@, start, q));
                        assert(q.subrange(0, 1)[0] == start[0]);
                    }
                }
                assert forall|q: Seq<usize>|
                    simple_walk(n as int, succ@, q) && #[trigger] no_predecessor(n as int, succ@, q[0])
                        && succ@[q.last() as int]@.len() == 0 && q[0] < u + 1 implies walk_views(out@).contains(q) by {
                    if q[0] < u {
                        let ii = choose|ii: int| 0 <= ii < walk_views(out0).len() && walk_views(out0)[ii] == q;
                        assert(walk_views(out@).subrange(0, out0.len() as int)[ii] == walk_views(out0)[ii]);
                        assert(walk_views(out@)[ii] == q);
                    } else {
                        assert(q.subrange(0, 1) =~= start);
                        assert(completes(n as int, succ@, start, q));
                    }
                }
            }
        } else {
            proof {
                assert forall|q: Seq<usize>|
                    simple_walk(n as int, succ@, q) && #[trigger] no_predecessor(n as int, succ@, q[0])
                        && succ@[q.last() as int]@.len() == 0 && q[0] < u + 1 implies walk_views(out@).contains(q) by {
                    if q[0] == u {
                        assert(false);
                    }
                }
            }
        }
        u = u + 1;
    }
    proof {
        assert forall|q: Seq<usize>|
            simple_walk(n as int, succ@, q) && #[trigger] no_predecessor(n as int, succ@, q[0])
                && succ@[q.last() as int]@.len() == 0 implies walk_views(out@).contains(q) by {
            assert(q[0] < n);
        }
    }
    out
}

/// The ids of the positions of a walk.
pub open spec fn walk_ids(zf: Seq<String>, q: Seq<usize>) -> Seq<Seq<char>> {
    q.map_values(|i: usize| zf[i as int]@)
}

/// The lexicographically least chain start, if there is one.
pub open spec fn least_start(zf: Seq<String>, deps: Seq<Dep>, s: Seq<char>) -> bool {
    is_chain_start(zf, deps, s) && forall|t: Seq<char>| #[trigger] is_chain_start(zf, deps, t) ==> !lex_lt(t, s)
}

/// The position of an id among the zero-float tasks.
spec fn index_of_id(zf: Seq<String>, x: Seq<char>) -> int {
    choose|j: int| 0 <= j < zf.len() && #[trigger] zf[j]@ == x
}

proof fn lemma_index_of_id(zf: Seq<String>, x: Seq<char>)
    requires
        among(zf, x),
    ensures
        0 <= index_of_id(zf, x) < zf.len(),
        zf[index_of_id(zf, x)]@ == x,
{
}

/// The successor lists describe the dependencies between zero-float tasks.
pub open spec fn lists_match_deps(zf: Seq<String>, deps: Seq<Dep>, succ: Seq<Vec<usize>>) -> bool {
    &&& succ.len() == zf.len()
    &&& forall|u: int, k: int| 0 <= u < zf.len() && 0 <= k < succ[u]@.len() ==> #[trigger] succ[u]@[k] < zf.len()
    &&& forall|u: int, v: usize|
        0 <= u < zf.len() && v < zf.len() ==> (#[trigger] succ[u]@.contains(v) <==> has_dep(
            deps,
            zf[u]@,
            zf[v as int]@,
        ))
}

proof fn lemma_start_matches(zf: Seq<String>, deps: Seq<Dep>, succ: Seq<Vec<usize>>, u: usize)
    requires
        distinct_ids(zf),
        lists_match_deps(zf, deps, succ),
        u < zf.len(),
    ensures
        no_predecessor(zf.len() as int, succ, u) <==> is_chain_start(zf, deps, zf[u as int]@),
{
    let n = zf.len() as int;
    if no_predecessor(n, succ, u) {
        if exists|w: Seq<char>| #[trigger] among(zf, w) && has_dep(deps, w, zf[u as int]@) {
            let w = choose|w: Seq<char>| #[trigger] among(zf, w) && has_dep(deps, w, zf[u as int]@);
            lemma_index_of_id(zf, w);
            let i = index_of_id(zf, w);
            assert(succ[i]@.contains(u));
            assert(!succ[i]@.contains(u));
        }
        assert(among(zf, zf[u as int]@));
    } else {
        let v = choose|v: int| 0 <= v < n && (#[trigger] succ[v]@).contains(u);
        assert(has_dep(deps, zf[v]@, zf[u as int]@));
        assert(among(zf, zf[v]@));
    }
}

proof fn lemma_sink_matches(zf: Seq<String>, deps: Seq<Dep>, succ: Seq<Vec<usize>>, u: usize)
    requires
        lists_match_deps(zf, deps, succ),
        zf.len() <= usize::MAX,
        u < zf.len(),
    ensures
        succ[u as int]@.len() == 0 <==> !exists|w: Seq<char>| #[trigger] among(zf, w) && has_dep(
            deps,
            zf[u as int]@,
            w,
        ),
{
    if succ[u as int]@.len() == 0 {
        if exists|w: Seq<char>| #[trigger] among(zf, w) && has_dep(deps, zf[u as int]@, w) {
            let w = choose|w: Seq<char>| #[trigger] among(zf, w) && has_dep(deps, zf[u as int]@, w);
            lemma_index_of_id(zf, w);
            let i = index_of_id(zf, w);
            assert((i as usize) as int == i);
            assert(succ[u as int]@.contains(i as usize));
        }
    } else {
        let v = succ[u as int]@[0];
        assert(succ[u as int]@.contains(v));
        assert(has_dep(deps, zf[u as int]@, zf[v as int]@));
        assert(among(zf, zf[v as int]@));
    }
}

proof fn lemma_walk_is_chain(zf: Seq<String>, deps: Seq<Dep>, succ: Seq<Vec<usize>>, q: Seq<usize>)
    requires
        distinct_ids(zf),
        zf.len() <= usize::MAX,
        lists_match_deps(zf, deps, succ),
        simple_walk(zf.len() as int, succ, q),
        no_predecessor(zf.len() as int, succ, q[0]),
        succ[q.last() as int]@.len() == 0,
    ensures
        is_critical_chain(zf, deps, walk_ids(zf, q)),
{
    let c = walk_ids(zf, q);
    assert(c.no_duplicates()) by {
        assert forall|a: int, b: int| 0 <= a < c.len() && 0 <= b < c.len() && a != b implies c[a] != c[b] by {
            assert(q[a] != q[b]);
            assert(q[a] < zf.len() && q[b] < zf.len());
        }
    }
    assert forall|i: int| 0 <= i < c.len() implies among(zf, #[trigger] c[i]) by {
        assert(q[i] < zf.len());
        assert(zf[q[i] as int]@ == c[i]);
    }
    assert forall|i: int| 0 <= i < c.len() - 1 implies #[trigger] has_dep(deps, c[i], c[i + 1]) by {
        assert(succ[q[i] as int]@.contains(q[i + 1]));
        assert(q[i] < zf.len() && q[i + 1] < zf.len());
    }
    lemma_start_matches(zf, deps, succ, q[0]);
    lemma_sink_matches(zf, deps, succ, q.last());
    assert(c[0] == zf[q[0] as int]@);
    assert(c.last() == zf[q.last() as int]@);
}

proof fn lemma_chain_is_walk(zf: Seq<String>, deps: Seq<Dep>, succ: Seq<Vec<usize>>, c: Seq<Seq<char>>)
    requires
        distinct_ids(zf),
        zf.len() <= usize::MAX,
        lists_match_deps(zf, deps, succ),
        is_critical_chain(zf, deps, c),
    ensures
        exists|q: Seq<usize>|
            simple_walk(zf.len() as int, succ, q) && no_predecessor(zf.len() as int, succ, q[0])
                && succ[q.last() as int]@.len() == 0 && walk_ids(zf, q) == c,
{
    let n = zf.len() as int;
    let q = Seq::new(c.len(), |i: int| index_of_id(zf, c[i]) as usize);
    assert forall|i: int| 0 <= i < c.len() implies (#[trigger] q[i]) < n && zf[q[i] as int]@ == c[i] by {
        assert(among(zf, c[i]));
        lemma_index_of_id(zf, c[i]);
        let x = index_of_id(zf, c[i]);
        assert(q[i] == x as usize);
        assert((x as usize) as int == x);
    }
    assert(walk_ids(zf, q) =~= c);
    assert(q.no_duplicates()) by {
        assert forall|a: int, b: int| 0 <= a < q.len() && 0 <= b < q.len() && a != b implies q[a] != q[b] by {
            assert(zf[q[a] as int]@ == c[a]);
            assert(zf[q[b] as int]@ == c[b]);
            assert(c[a] != c[b]);
        }
    }
    assert forall|i: int| 0 <= i < q.len() - 1 implies succ[q[i] as int]@.contains(#[trigger] q[i + 1]) by {
        assert(has_dep(deps, c[i], c[i + 1]));
        assert(zf[q[i] as int]@ == c[i]);
        assert(zf[q[i + 1] as int]@ == c[i + 1]);
    }
    assert(simple_walk(n, succ, q));
    lemma_start_matches(zf, deps, succ, q[0]);
    lemma_sink_matches(zf, deps, succ, q.last());
    assert(zf[q[0] as int]@ == c[0]);
    assert(zf[q.last() as int]@ == c.last());
}

/// Every critical chain, each as the walk of the graph finds it (a chain
/// may be found twice where a dependency is repeated); or, when there is
/// none, the least start on its own, or nothing.
fn candidate_walks(zero_float: &Vec<String>, deps: &Vec<Dep>) -> (r: Vec<Vec<String>>)
    requires
        distinct_ids(zero_float@),
    ensures
        forall|c: Seq<Seq<char>>|
            #[trigger] is_critical_chain(zero_float@, deps@, c) ==> exists|i: int|
                0 <= i < r.len() && string_views(#[trigger] r@[i]@) == c,
        (exists|c: Seq<Seq<char>>| is_critical_chain(zero_float@, deps@, c)) ==> forall|i: int|
            0 <= i < r.len() ==> is_critical_chain(zero_float@, deps@, string_views(#[trigger] r@[i]@)),
        !(exists|c: Seq<Seq<char>>| is_critical_chain(zero_float@, deps@, c)) ==> (
            (r.len() == 0 && !exists|s: Seq<char>| #[trigger] is_chain_start(zero_float@, deps@, s))
            || (r.len() == 1 && string_views(r@[0]@).len() == 1 && least_start(
                zero_float@,
                deps@,
                string_views(r@[0]@)[0],
            ))),
{
    let n = zero_float.len();
    let ghost zf = zero_float@;
    let e = intern_edges(zero_float, deps);
    let succ = successor_lists(n, &e);
    proof {
        assert forall|u: int, v: usize|
            0 <= u < n && v < n implies (#[trigger] succ@[u]@.contains(v) <==> has_dep(
                deps@,
                zf[u]@,
                zf[v as int]@,
            )) by {
            assert(succ@[u]@.contains(v) <==> edge_in(e@, u, v as int));
            assert(edge_in(e@, u, v as int) <==> is_dep_edge(zf, deps@, u, v as int));
        }
        assert(lists_match_deps(zf, deps@, succ@));
    }
    let walks = all_walks(n, &succ);
    if walks.len() == 0 {
        proof {
            if exists|c: Seq<Seq<char>>| is_critical_chain(zf, deps@, c) {
                let c = choose|c: Seq<Seq<char>>| is_critical_chain(zf, deps@, c);
                lemma_chain_is_walk(zf, deps@, succ@, c);
                let q = choose|q: Seq<usize>|
                    simple_walk(zf.len() as int, succ@, q) && no_predecessor(zf.len() as int, succ@, q[0])
                        && succ@[q.last() as int]@.len() == 0 && walk_ids(zf, q) == c;
                assert(walk_views(walks@).contains(q));
            }
        }
        let mut best: Option<usize> = None;
        let mut u: usize = 0;
        while u < n
            invariant
                u <= n,
                n == zero_float.len(),
                zf == zero_float@,
                distinct_ids(zf),
                lists_match_deps(zf, deps@, succ@),
                match best {
                    Some(b) => b < u && is_chain_start(zf, deps@, zf[b as int]@) && forall|x: int|
                        0 <= x < u && #[trigger] is_chain_start(zf, deps@, zf[x]@) ==> !lex_lt(zf[x]@, zf[b as int]@),
                    None => forall|x: int| 0 <= x < u ==> !#[trigger] is_chain_start(zf, deps@, zf[x]@),
                },
            decreases n - u,
        {
            let is_start = has_no_predecessor(n, &succ, u);
            proof {
                lemma_start_matches(zf, deps@, succ@, u);
            }
            if is_start {
                let better = match best {
                    None => true,
                    Some(b) => lex_less_str(&zero_float[u], &zero_float[b]),
                };
                if better {
                    proof {
                        if let Some(b) = best {
                            assert forall|x: int|
                                0 <= x < u + 1 && #[trigger] is_chain_start(zf, deps@, zf[x]@) implies !lex_lt(zf[x]@, zf[u as int]@) by {
                                if x < u {
                                    assert(!lex_lt(zf[x]@, zf[b as int]@));
                                    if lex_lt(zf[x]@, zf[u as int]@) {
                                        crate::text::lemma_lex_transitive(zf[x]@, zf[u as int]@, zf[b as int]@);
                                    }
                                } else {
                                    crate::text::lemma_lex_irreflexive(zf[u as int]@);
                                }
                            }
                        } else {
                            assert forall|x: int|
                                0 <= x < u + 1 && #[trigger] is_chain_start(zf, deps@, zf[x]@) implies !lex_lt(zf[x]@, zf[u as int]@) by {
                                crate::text::lemma_lex_irreflexive(zf[u as int]@);
                            }
                        }
                    }
                    best = Some(u);
                } else {
                    proof {
                        let b = best.unwrap();
                        assert forall|x: int|
                            0 <= x < u + 1 && #[trigger] is_chain_start(zf, deps@, zf[x]@) implies !lex_lt(zf[x]@, zf[b as int]@) by {
                            if x == u {
                            }
                        }
                    }
                }
            }
            u = u + 1;
        }
        match best {
            None => {
                proof {
                    assert forall|s: Seq<char>| #[trigger] is_chain_start(zf, deps@, s) implies false by {
                        lemma_index_of_id(zf, s);
                        let i = index_of_id(zf, s);
                        assert(is_chain_start(zf, deps@, zf[i]@));
                    }
                }
                return Vec::new();
            },
            Some(b) => {
                let single = vec![zero_float[b].clone()];
                let r = vec![single];
                proof {
                    assert(string_views(r@[0]@) =~= seq![zf[b as int]@]);
                    assert forall|t: Seq<char>| #[trigger] is_chain_start(zf, deps@, t) implies !lex_lt(t, zf[b as int]@) by {
                        lemma_index_of_id(zf, t);
                        let i = index_of_id(zf, t);
                        assert(is_chain_start(zf, deps@, zf[i]@));
                    }
                }
                return r;
            },
        }
    }
    let mut r: Vec<Vec<String>> = Vec::new();
    let mut i: usize = 0;
    while i < walks.len()
        invariant
            i <= walks.len(),
            n == zero_float.len(),
            zf == zero_float@,
            forall|j: int| 0 <= j < i ==> string_views(#[trigger] r@[j]@) == walk_ids(zf, walk_views(walks@)[j]),
            r.len() == i,
            forall|j: int| 0 <= j < walks.len() ==> simple_walk(n as int, succ@, #[trigger] walk_views(walks@)[j]),
        decreases walks.len() - i,
    {
        let w = &walks[i];
        assert(simple_walk(n as int, succ@, walk_views(walks@)[i as int]));
        let mut ids: Vec<String> = Vec::new();
        let mut t: usize = 0;
        while t < w.len()
            invariant
                t <= w.len(),
                n == zero_float.len(),
                zf == zero_float@,
                w@ == walk_views(walks@)[i as int],
                forall|x: int| 0 <= x < w.len() ==> #[trigger] w@[x] < n,
                string_views(ids@) == walk_ids(zf, w@.subrange(0, t as int)),
            decreases w.len() - t,
        {
            let ghost before = ids@;
            let x = w[t];
            ids.push(zero_float[x].clone());
            proof {
                assert(string_views(ids@) =~= string_views(before).push(zf[x as int]@));
                assert(w@.subrange(0, t + 1) =~= w@.subrange(0, t as int).push(x));
                assert(walk_ids(zf, w@.subrange(0, t as int).push(x)) =~= walk_ids(zf, w@.subrange(0, t as int)).push(zf[x as int]@));
            }
            t = t + 1;
        }
        assert(w@.subrange(0, w.len() as int) =~= w@);
        r.push(ids);
        i = i + 1;
    }
    proof {
        assert forall|c: Seq<Seq<char>>|
            #[trigger] is_critical_chain(zf, deps@, c) implies exists|j: int|
                0 <= j < r.len() && string_views(#[trigger] r@[j]@) == c by {
            lemma_chain_is_walk(zf, deps@, succ@, c);
            let q = choose|q: Seq<usize>|
                simple_walk(zf.len() as int, succ@, q) && no_predecessor(zf.len() as int, succ@, q[0])
                    && succ@[q.last() as int]@.len() == 0 && walk_ids(zf, q) == c;
            assert(walk_views(walks@).contains(q));
            let j = choose|j: int| 0 <= j < walk_views(walks@).len() && walk_views(walks@)[j] == q;
            assert(string_views(r@[j]@) == c);
        }
        assert forall|j: int| 0 <= j < r.len() implies is_critical_chain(zf, deps@, string_views(#[trigger] r@[j]@)) by {
            lemma_walk_is_chain(zf, deps@, succ@, walk_views(walks@)[j]);
        }
        assert(is_critical_chain(zf, deps@, string_views(r@[0]@)));
    }
    r
}

/// The chains of `r` as text.
pub open spec fn chain_views(r: Seq<Vec<String>>) -> Seq<Seq<Seq<char>>> {
    r.map_values(|v: Vec<String>| string_views(v@))
}

/// Whether two lists of strings hold the same texts in the same order.
pub fn same_strings(a: &Vec<String>, b: &Vec<String>) -> (r: bool)
    ensures
        r == (string_views(a@) == string_views(b@)),
{
    if a.len() != b.len() {
        assert(string_views(a@).len() != string_views(b@).len());
        return false;
    }
    let mut i: usize = 0;
    while i < a.len()
        invariant
            a.len() == b.len(),
            i <= a.len(),
            forall|j: int| 0 <= j < i ==> a@[j]@ == b@[j]@,
        decreases a.len() - i,
    {
        if !crate::text::str_eq(a[i].as_str(), b[i].as_str()) {
            assert(string_views(a@)[i as int] != string_views(b@)[i as int]);
            return false;
        }
        i = i + 1;
    }
    assert(string_views(a@) =~= string_views(b@));
    true
}

fn copy_chain(v: &Vec<String>) -> (r: Vec<String>)
    ensures
        string_views(r@) == string_views(v@),
{
    let mut r: Vec<String> = Vec::new();
    let mut i: usize = 0;
    while i < v.len()
        invariant
            i <= v.len(),
            string_views(r@) == string_views(v@).subrange(0, i as int),
        decreases v.len() - i,
    {
        let ghost before = r@;
        r.push(v[i].clone());
        assert(string_views(r@) =~= string_views(before).push(v@[i as int]@));
        assert(string_views(v@).subrange(0, i + 1) =~= string_views(v@).subrange(0, i as int).push(v@[i as int]@));
        i = i + 1;
    }
    assert(string_views(v@).subrange(0, v.len() as int) =~= string_views(v@));
    r
}

/// `r` with each chain kept at its first occurrence only.
fn without_repeats(r: &Vec<Vec<String>>) -> (out: Vec<Vec<String>>)
    ensures
        chain_views(out@).no_duplicates(),
        forall|c: Seq<Seq<char>>| chain_views(out@).contains(c) <==> chain_views(r@).contains(c),
        r.len() <= 1 ==> chain_views(out@) == chain_views(r@),
{
    let mut out: Vec<Vec<String>> = Vec::new();
    let mut i: usize = 0;
    while i < r.len()
        invariant
            i <= r.len(),
            chain_views(out@).no_duplicates(),
            forall|c: Seq<Seq<char>>| chain_views(out@).contains(c) <==> chain_views(r@).subrange(0, i as int).contains(c),
            i <= 1 ==> chain_views(out@) == chain_views(r@).subrange(0, i as int),
        decreases r.len() - i,
    {
        let mut seen = false;
        let mut j: usize = 0;
        while j < out.len()
            invariant
                i < r.len(),
                j <= out.len(),
                seen <==> exists|k: int| 0 <= k < j && chain_views(out@)[k] == chain_views(r@)[i as int],
            decreases out.len() - j,
        {
            let same = same_strings(&out[j], &r[i]);
            assert(chain_views(out@)[j as int] == string_views(out@[j as int]@));
            assert(chain_views(r@)[i as int] == string_views(r@[i as int]@));
            if same {
                seen = true;
            }
            j = j + 1;
        }
        let ghost pre = chain_views(r@).subrange(0, i as int);
        let ghost x = chain_views(r@)[i as int];
        assert(chain_views(r@).subrange(0, i + 1) =~= pre.push(x));
        if !seen {
            let ghost before = chain_views(out@);
            out.push(copy_chain(&r[i]));
            assert(chain_views(out@) =~= before.push(x));
            assert forall|a: int, b: int| 0 <= a < b < chain_views(out@).len() implies chain_views(out@)[a] != chain_views(out@)[b] by {
                if b == before.len() {
                    assert(chain_views(out@)[a] == before[a]);
                }
            }
            assert forall|c: Seq<Seq<char>>| chain_views(out@).contains(c) <==> pre.push(x).contains(c) by {
                if chain_views(out@).contains(c) {
                    let k = choose|k: int| 0 <= k < chain_views(out@).len() && chain_views(out@)[k] == c;
                    if k < before.len() {
                        assert(before.contains(c));
                        let m = choose|m: int| 0 <= m < pre.len() && pre[m] == c;
                        assert(pre.push(x)[m] == c);
                    } else {
                        assert(pre.push(x)[pre.len() as int] == c);
                    }
                }
                if pre.push(x).contains(c) {
                    let k = choose|k: int| 0 <= k < pre.push(x).len() && pre.push(x)[k] == c;
                    if k < pre.len() {
                        assert(pre.contains(c));
                        assert(before.contains(c));
                        let m = choose|m: int| 0 <= m < before.len() && before[m] == c;
                        assert(chain_views(out@)[m] == before[m]);
                        assert(chain_views(out@)[m] == c);
                    } else {
                        assert(chain_views(out@)[before.len() as int] == c);
                    }
                }
            }
        } else {
            assert forall|c: Seq<Seq<char>>| chain_views(out@).contains(c) <==> pre.push(x).contains(c) by {
                if pre.push(x).contains(c) {
                    let k = choose|k: int| 0 <= k < pre.push(x).len() && pre.push(x)[k] == c;
                    if k < pre.len() {
                        assert(pre.contains(c));
                    } else {
                        let m = choose|m: int| 0 <= m < j && chain_views(out@)[m] == x;
                        assert(chain_views(out@)[m] == c);
                    }
                }
                if chain_views(out@).contains(c) {
                    assert(pre.contains(c));
                    let m = choose|m: int| 0 <= m < pre.len() && pre[m] == c;
                    assert(pre.push(x)[m] == c);
                }
            }
        }
        i = i + 1;
    }
    assert(chain_views(r@).subrange(0, r.len() as int) =~= chain_views(r@));
    out
}

/// Zero-float tasks without a dependency cycle among them have a chain
/// start: a task that no zero-float task precedes.
pub proof fn lemma_acyclic_has_chain_start(zf: Seq<String>, deps: Seq<Dep>)
    requires
        zf.len() > 0,
        !has_dep_cycle(zf, deps),
    ensures
        exists|s: Seq<char>| #[trigger] is_chain_start(zf, deps, s),
{
    if !exists|s: Seq<char>| #[trigger] is_chain_start(zf, deps, s) {
        let edge = dep_relation(zf, deps);
        let done = Seq::new(zf.len(), |i: int| false);
        assert forall|v: int| 0 <= v < done.len() && !done[v] implies exists|u: int|
            0 <= u < done.len() && !done[u] && #[trigger] edge(u, v) by {
            assert(zf[v]@ == zf[v]@);
            assert(among(zf, zf[v]@));
            assert(!is_chain_start(zf, deps, zf[v]@));
            let w = choose|w: Seq<char>| #[trigger] among(zf, w) && has_dep(deps, w, zf[v]@);
            let u = choose|u: int| 0 <= u < zf.len() && #[trigger] zf[u]@ == w;
            let k = choose|k: int|
                0 <= k < deps.len() && #[trigger] deps[k].predecessor@ == w && deps[k].successor@ == zf[v]@;
            assert(deps[k].predecessor@ == zf[u]@);
            assert(is_dep_edge(zf, deps, u, v));
            assert(edge(u, v));
        }
        lemma_unmarked_behind_cycle(edge, done, 0);
        let u = choose|u: int| on_cycle_of(edge, u) && #[trigger] crate::graph::reaches_of(edge, u, 0);
        let c = choose|c: Seq<int>| is_cycle_of(edge, c) && c.contains(u);
        assert(has_cycle_of(edge));
    }
}

/// The candidate critical chains among the zero-float tasks `zero_float`:
/// every critical chain, each once; or, when there is none, the
/// lexicographically least task without a zero-float predecessor on its
/// own, or nothing when no such task exists. Each candidate is a non-empty,
/// linked chain of distinct zero-float tasks, and there is at least one
/// whenever the zero-float tasks are not empty and hold no dependency cycle.
pub fn critical_chain_candidates(zero_float: &Vec<String>, deps: &Vec<Dep>) -> (r: Vec<Vec<String>>)
    requires
        distinct_ids(zero_float@),
    ensures
        chain_views(r@).no_duplicates(),
        forall|i: int|
            0 <= i < r.len() ==> {
                let c = string_views(#[trigger] r@[i]@);
                &&& c.len() >= 1
                &&& c.no_duplicates()
                &&& forall|j: int| 0 <= j < c.len() ==> among(zero_float@, #[trigger] c[j])
                &&& linked(deps@, c)
            },
        zero_float@.len() > 0 && !has_dep_cycle(zero_float@, deps@) ==> r.len() > 0,
        forall|c: Seq<Seq<char>>|
            #[trigger] is_critical_chain(zero_float@, deps@, c) ==> exists|i: int|
                0 <= i < r.len() && string_views(#[trigger] r@[i]@) == c,
        (exists|c: Seq<Seq<char>>| is_critical_chain(zero_float@, deps@, c)) ==> forall|i: int|
            0 <= i < r.len() ==> is_critical_chain(zero_float@, deps@, string_views(#[trigger] r@[i]@)),
        !(exists|c: Seq<Seq<char>>| is_critical_chain(zero_float@, deps@, c)) ==> (
            (r.len() == 0 && !exists|s: Seq<char>| #[trigger] is_chain_start(zero_float@, deps@, s))
            || (r.len() == 1 && string_views(r@[0]@).len() == 1 && least_start(
                zero_float@,
                deps@,
                string_views(r@[0]@)[0],
            ))),
{
    let w = candidate_walks(zero_float, deps);
    let r = without_repeats(&w);
    proof {
        let zf = zero_float@;
        assert forall|i: int| 0 <= i < r.len() implies chain_views(r@)[i] == string_views(#[trigger] r@[i]@) by {}
        assert forall|i: int| 0 <= i < w.len() implies chain_views(w@)[i] == string_views(#[trigger] w@[i]@) by {}
        assert forall|c: Seq<Seq<char>>|
            #[trigger] is_critical_chain(zf, deps@, c) implies exists|i: int|
                0 <= i < r.len() && string_views(#[trigger] r@[i]@) == c by {
            let i = choose|i: int| 0 <= i < w.len() && string_views(#[trigger] w@[i]@) == c;
            assert(chain_views(w@)[i] == c);
            assert(chain_views(w@).contains(c));
            assert(chain_views(r@).contains(c));
            let k = choose|k: int| 0 <= k < chain_views(r@).len() && chain_views(r@)[k] == c;
            assert(string_views(r@[k]@) == c);
        }
        if exists|c: Seq<Seq<char>>| is_critical_chain(zf, deps@, c) {
            assert forall|i: int| 0 <= i < r.len() implies is_critical_chain(zf, deps@, string_views(#[trigger] r@[i]@)) by {
                assert(chain_views(r@).contains(chain_views(r@)[i]));
                assert(chain_views(w@).contains(chain_views(r@)[i]));
                let k = choose|k: int| 0 <= k < chain_views(w@).len() && chain_views(w@)[k] == chain_views(r@)[i];
                assert(is_critical_chain(zf, deps@, string_views(w@[k]@)));
            }
        } else {
            if w.len() == 1 {
                assert(chain_views(r@) == chain_views(w@));
                assert(chain_views(r@)[0] == chain_views(w@)[0]);
            }
            if zf.len() > 0 && !has_dep_cycle(zf, deps@) {
                lemma_acyclic_has_chain_start(zf, deps@);
            }
        }
    }
    r
}

/// Whether `a` orders strictly before `b`.
fn lex_less_str(a: &String, b: &String) -> (r: bool)
    ensures
        r == lex_lt(a@, b@),
{
    let x = crate::text::chars_of(a.as_str());
    let y = crate::text::chars_of(b.as_str());
    lex_less(&x, &y)
}

/// Every candidate chain of a plan whose zero-float tasks form a critical
/// chain is a valid chain: each task directly depends on the one before.
pub proof fn lemma_candidates_are_linked(zf: Seq<String>, deps: Seq<Dep>, c: Seq<Seq<char>>)
    requires
        is_critical_chain(zf, deps, c),
    ensures
        linked(deps, c),
{
}

} // verus!
