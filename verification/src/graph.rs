//! The dependency graph of a plan: tasks identified by their ids, and
//! dependencies from a predecessor to a successor. Cycle detection is the
//! peeling of tasks without pending predecessors (Kahn's method), proved
//! to leave tasks behind exactly when the graph has a cycle.

use vstd::prelude::*;

verus! {

/// A dependency between two tasks, by id.
#[derive(Debug, Clone)]
pub struct Dep {
    pub predecessor: String,
    pub successor: String,
}

/// Whether no id occurs twice.
pub open spec fn distinct_ids(ids: Seq<String>) -> bool {
    forall|i: int, j: int|
        0 <= i < ids.len() && 0 <= j < ids.len() && i != j ==> #[trigger] ids[i]@ != #[trigger] ids[j]@
}

/// Whether some dependency runs from task `u` to task `v` (positions in
/// `ids`).
pub open spec fn is_dep_edge(ids: Seq<String>, deps: Seq<Dep>, u: int, v: int) -> bool {
    &&& 0 <= u < ids.len()
    &&& 0 <= v < ids.len()
    &&& exists|k: int|
        0 <= k < deps.len() && #[trigger] deps[k].predecessor@ == ids[u]@ && deps[k].successor@
            == ids[v]@
}

/// Whether `c` is a closed walk of the relation `edge`: each element leads
/// to the next, and the last leads back to the first.
pub open spec fn is_cycle_of(edge: spec_fn(int, int) -> bool, c: Seq<int>) -> bool {
    &&& c.len() > 0
    &&& forall|i: int| 0 <= i < c.len() - 1 ==> #[trigger] edge(c[i], c[i + 1])
    &&& edge(c.last(), c[0])
}

/// Whether the relation `edge` has a cycle.
pub open spec fn has_cycle_of(edge: spec_fn(int, int) -> bool) -> bool {
    exists|c: Seq<int>| is_cycle_of(edge, c)
}

/// Whether `v` lies on a cycle of `edge`.
pub open spec fn on_cycle_of(edge: spec_fn(int, int) -> bool, v: int) -> bool {
    exists|c: Seq<int>| is_cycle_of(edge, c) && c.contains(v)
}

/// Whether a walk of `edge` leads from `u` to `v` (possibly of no step).
pub open spec fn reaches_of(edge: spec_fn(int, int) -> bool, u: int, v: int) -> bool {
    exists|p: Seq<int>|
        p.len() >= 1 && p[0] == u && p.last() == v && forall|i: int|
            0 <= i < p.len() - 1 ==> #[trigger] edge(p[i], p[i + 1])
}

/// Whether `v` lies on a cycle of `edge` or is reached from one.
pub open spec fn behind_cycle_of(edge: spec_fn(int, int) -> bool, v: int) -> bool {
    exists|u: int| on_cycle_of(edge, u) && reaches_of(edge, u, v)
}

/// The dependency relation between positions of `ids`.
pub open spec fn dep_relation(ids: Seq<String>, deps: Seq<Dep>) -> spec_fn(int, int) -> bool {
    |u: int, v: int| is_dep_edge(ids, deps, u, v)
}

/// Whether the dependencies between existing tasks form a cycle.
pub open spec fn has_dep_cycle(ids: Seq<String>, deps: Seq<Dep>) -> bool {
    has_cycle_of(dep_relation(ids, deps))
}

// ---------------------------------------------------------------------------
// Interned graph
// ---------------------------------------------------------------------------

/// Whether the pair list `e` holds the edge `u -> v`.
pub open spec fn edge_in(e: Seq<(usize, usize)>, u: int, v: int) -> bool {
    exists|k: int| 0 <= k < e.len() && #[trigger] e[k].0 == u && e[k].1 == v
}

pub open spec fn edge_relation(e: Seq<(usize, usize)>) -> spec_fn(int, int) -> bool {
    |u: int, v: int| edge_in(e, u, v)
}

/// Whether every edge of `e` joins two of the `n` nodes.
pub open spec fn edges_within(e: Seq<(usize, usize)>, n: int) -> bool {
    forall|k: int| 0 <= k < e.len() ==> (#[trigger] e[k]).0 < n && e[k].1 < n
}

/// The number of edges among `e[lo..hi]` that enter `v` from a node not
/// marked in `done`.
pub open spec fn live_in(e: Seq<(usize, usize)>, v: int, done: Seq<bool>, lo: int, hi: int) -> nat
    decreases hi - lo,
{
    if hi <= lo {
        0
    } else {
        live_in(e, v, done, lo, hi - 1) + if e[hi - 1].1 == v && !done[e[hi - 1].0 as int] {
            1nat
        } else {
            0nat
        }
    }
}

proof fn lemma_live_in_split(e: Seq<(usize, usize)>, v: int, done: Seq<bool>, lo: int, mid: int, hi: int)
    requires
        lo <= mid <= hi,
    ensures
        live_in(e, v, done, lo, hi) == live_in(e, v, done, lo, mid) + live_in(e, v, done, mid, hi),
    decreases hi - mid,
{
    if hi > mid {
        lemma_live_in_split(e, v, done, lo, mid, hi - 1);
    }
}

proof fn lemma_live_in_positive(e: Seq<(usize, usize)>, v: int, done: Seq<bool>, lo: int, hi: int, k: int)
    requires
        lo <= k < hi,
        e[k].1 == v,
        !done[e[k].0 as int],
    ensures
        live_in(e, v, done, lo, hi) > 0,
    decreases hi - lo,
{
    if k < hi - 1 {
        lemma_live_in_positive(e, v, done, lo, hi - 1, k);
    }
}

proof fn lemma_live_in_witness(e: Seq<(usize, usize)>, v: int, done: Seq<bool>, lo: int, hi: int)
    requires
        live_in(e, v, done, lo, hi) > 0,
    ensures
        exists|k: int| lo <= k < hi && #[trigger] e[k].1 == v && !done[e[k].0 as int],
    decreases hi - lo,
{
    if hi > lo {
        if e[hi - 1].1 == v && !done[e[hi - 1].0 as int] {
        } else {
            lemma_live_in_witness(e, v, done, lo, hi - 1);
        }
    }
}

proof fn lemma_live_in_same(e: Seq<(usize, usize)>, v: int, d1: Seq<bool>, d2: Seq<bool>, lo: int, hi: int)
    requires
        forall|k: int| lo <= k < hi ==> d1[e[k].0 as int] == d2[e[k].0 as int],
    ensures
        live_in(e, v, d1, lo, hi) == live_in(e, v, d2, lo, hi),
    decreases hi - lo,
{
    if hi > lo {
        lemma_live_in_same(e, v, d1, d2, lo, hi - 1);
    }
}

/// A node on a cycle has a predecessor on a cycle.
proof fn lemma_cycle_predecessor(edge: spec_fn(int, int) -> bool, w: int)
    requires
        on_cycle_of(edge, w),
    ensures
        exists|u: int| #[trigger] edge(u, w) && on_cycle_of(edge, u),
{
    let c = choose|c: Seq<int>| is_cycle_of(edge, c) && c.contains(w);
    let i = choose|i: int| 0 <= i < c.len() && c[i] == w;
    if i == 0 {
        let u = c.last();
        assert(c.contains(u));
        assert(edge(u, w));
    } else {
        let u = c[i - 1];
        assert(c.contains(u));
        assert(edge(c[i - 1], c[(i - 1) + 1]));
        assert(edge(u, w));
    }
}

/// A sequence of distinct values in `[0, n)` has at most `n` elements.
proof fn lemma_distinct_bounded_int(si: Seq<int>, n: int)
    requires
        si.no_duplicates(),
        forall|i: int| 0 <= i < si.len() ==> 0 <= #[trigger] si[i] < n,
        n >= 0,
    ensures
        si.len() <= n,
{
    si.unique_seq_to_set();
    vstd::set_lib::lemma_int_range(0, n);
    assert(si.to_set().subset_of(vstd::set_lib::set_int_range(0, n))) by {
        assert forall|x: int| si.to_set().contains(x) implies vstd::set_lib::set_int_range(
            0,
            n,
        ).contains(x) by {
            let i = choose|i: int| 0 <= i < si.len() && si[i] == x;
        }
    }
    vstd::set_lib::lemma_len_subset(si.to_set(), vstd::set_lib::set_int_range(0, n));
}

/// A sequence of distinct values below `n` has at most `n` elements.
proof fn lemma_distinct_bounded(s: Seq<usize>, n: int)
    requires
        s.no_duplicates(),
        forall|i: int| 0 <= i < s.len() ==> s[i] < n,
        n >= 0,
    ensures
        s.len() <= n,
{
    let si = s.map_values(|x: usize| x as int);
    assert(si.no_duplicates()) by {
        assert forall|i: int, j: int| 0 <= i < si.len() && 0 <= j < si.len() && i != j implies si[i]
            != si[j] by {
            assert(s[i] != s[j]);
        }
    }
    lemma_distinct_bounded_int(si, n);
}

/// The backward walk used to find a cycle: from `v0`, step to a predecessor
/// that is not marked in `done`.
spec fn back_walk(edge: spec_fn(int, int) -> bool, done: Seq<bool>, v0: int, k: nat) -> int
    decreases k,
{
    if k == 0 {
        v0
    } else {
        let prev = back_walk(edge, done, v0, (k - 1) as nat);
        choose|u: int| 0 <= u < done.len() && !done[u] && #[trigger] edge(u, prev)
    }
}

/// When every unmarked node has an unmarked predecessor, each unmarked node
/// is reached from a node on a cycle.
pub proof fn lemma_unmarked_behind_cycle(edge: spec_fn(int, int) -> bool, done: Seq<bool>, v0: int)
    requires
        0 <= v0 < done.len(),
        !done[v0],
        forall|v: int|
            0 <= v < done.len() && !done[v] ==> exists|u: int|
                0 <= u < done.len() && !done[u] && #[trigger] edge(u, v),
    ensures
        behind_cycle_of(edge, v0),
{
    let n = done.len() as int;
    assert forall|k: nat| #![trigger back_walk(edge, done, v0, k)]
        0 <= back_walk(edge, done, v0, k) < n && !done[back_walk(edge, done, v0, k)] by {
        lemma_back_walk_stays(edge, done, v0, k);
    }
    let w = Seq::new((n + 1) as nat, |k: int| back_walk(edge, done, v0, k as nat));
    assert(forall|k: int| 0 <= k < w.len() ==> 0 <= #[trigger] w[k] < n) by {
        assert forall|k: int| 0 <= k < w.len() implies 0 <= #[trigger] w[k] < n by {
            let _ = back_walk(edge, done, v0, k as nat);
        }
    }
    if w.no_duplicates() {
        lemma_distinct_bounded_int(w, n);
        assert(false);
    }
    let (i, j) = choose|i: int, j: int| 0 <= i < w.len() && 0 <= j < w.len() && i != j && w[i] == w[j];
    let (a, b) = if i < j { (i, j) } else { (j, i) };
    assert(w[a] == back_walk(edge, done, v0, a as nat));
    assert(w[b] == back_walk(edge, done, v0, b as nat));
    assert(back_walk(edge, done, v0, a as nat) == back_walk(edge, done, v0, b as nat));
    // c[t] = walk(b - t), for t in 0..b-a
    let c = Seq::new((b - a) as nat, |t: int| back_walk(edge, done, v0, (b - t) as nat));
    assert forall|t: int| 0 <= t < c.len() - 1 implies #[trigger] edge(c[t], c[t + 1]) by {
        lemma_back_walk_step(edge, done, v0, (b - t) as nat);
        assert(((b - t) as nat - 1) as nat == (b - (t + 1)) as nat);
    }
    lemma_back_walk_step(edge, done, v0, (a + 1) as nat);
    assert(c.last() == back_walk(edge, done, v0, (a + 1) as nat));
    assert(is_cycle_of(edge, c));
    let u = back_walk(edge, done, v0, a as nat);
    assert(c[0] == u);
    assert(c.contains(u));
    assert(on_cycle_of(edge, u));
    // the walk from u forward to v0: p[t] = walk(a - t)
    let p = Seq::new((a + 1) as nat, |t: int| back_walk(edge, done, v0, (a - t) as nat));
    assert forall|t: int| 0 <= t < p.len() - 1 implies #[trigger] edge(p[t], p[t + 1]) by {
        lemma_back_walk_step(edge, done, v0, (a - t) as nat);
        assert(((a - t) as nat - 1) as nat == (a - (t + 1)) as nat);
    }
    assert(p[0] == u);
    assert(p.last() == v0);
    assert(reaches_of(edge, u, v0));
}

/// Along a walk, marks cannot appear after an unmarked node when every
/// successor of an unmarked node is unmarked.
proof fn lemma_walk_unmarked(edge: spec_fn(int, int) -> bool, done: Seq<bool>, p: Seq<int>, k: int)
    requires
        p.len() >= 1,
        0 <= k < p.len(),
        forall|i: int| 0 <= i < p.len() - 1 ==> #[trigger] edge(p[i], p[i + 1]),
        forall|a: int, b: int| #[trigger] edge(a, b) ==> 0 <= a < done.len() && 0 <= b < done.len(),
        forall|a: int, b: int| #[trigger] edge(a, b) && !done[a] ==> !done[b],
        0 <= p[0] < done.len(),
        !done[p[0]],
    ensures
        0 <= p[k] < done.len(),
        !done[p[k]],
    decreases k,
{
    if k > 0 {
        lemma_walk_unmarked(edge, done, p, k - 1);
        assert(edge(p[k - 1], p[(k - 1) + 1]));
    }
}

proof fn lemma_back_walk_stays(edge: spec_fn(int, int) -> bool, done: Seq<bool>, v0: int, k: nat)
    requires
        0 <= v0 < done.len(),
        !done[v0],
        forall|v: int|
            0 <= v < done.len() && !done[v] ==> exists|u: int|
                0 <= u < done.len() && !done[u] && #[trigger] edge(u, v),
    ensures
        0 <= back_walk(edge, done, v0, k) < done.len(),
        !done[back_walk(edge, done, v0, k)],
    decreases k,
{
    if k > 0 {
        lemma_back_walk_stays(edge, done, v0, (k - 1) as nat);
    }
}

proof fn lemma_back_walk_step(edge: spec_fn(int, int) -> bool, done: Seq<bool>, v0: int, k: nat)
    requires
        k > 0,
        0 <= v0 < done.len(),
        !done[v0],
        forall|v: int|
            0 <= v < done.len() && !done[v] ==> exists|u: int|
                0 <= u < done.len() && !done[u] && #[trigger] edge(u, v),
    ensures
        edge(back_walk(edge, done, v0, k), back_walk(edge, done, v0, (k - 1) as nat)),
{
    lemma_back_walk_stays(edge, done, v0, (k - 1) as nat);
}

/// Peels the nodes without pending predecessors until none is left, and
/// marks the peeled ones. Exactly when the graph has a cycle some node stays
/// unmarked.
pub fn peel(n: usize, edges: &Vec<(usize, usize)>) -> (done: Vec<bool>)
    requires
        edges_within(edges@, n as int),
    ensures
        done.len() == n,
        forall|v: int| 0 <= v < n ==> (!done@[v] <==> behind_cycle_of(edge_relation(edges@), v)),
        (forall|v: int| 0 <= v < n ==> done@[v]) <==> !has_cycle_of(edge_relation(edges@)),
{
    let m = edges.len();
    let ghost e = edges@;
    let ghost rel = edge_relation(e);
    let mut indeg: Vec<usize> = Vec::new();
    let mut done: Vec<bool> = Vec::new();
    let mut v: usize = 0;
    while v < n
        invariant
            v <= n,
            indeg.len() == v,
            done.len() == v,
            forall|x: int| 0 <= x < v ==> indeg@[x] == 0 && !done@[x],
        decreases n - v,
    {
        indeg.push(0);
        done.push(false);
        v = v + 1;
    }
    let mut k: usize = 0;
    while k < m
        invariant
            m == e.len(),
            e == edges@,
            edges_within(e, n as int),
            k <= m,
            indeg.len() == n,
            done.len() == n,
            forall|x: int| 0 <= x < n ==> !done@[x],
            forall|x: int| 0 <= x < n ==> indeg@[x] == live_in(e, x, done@, 0, k as int),
        decreases m - k,
    {
        let w = edges[k].1;
        proof {
            assert(edges@[k as int].1 < n);
            assert forall|x: int| 0 <= x < n implies live_in(e, x, done@, 0, k + 1) == live_in(
                e,
                x,
                done@,
                0,
                k as int,
            ) + if x == w { 1nat } else { 0nat } by {
                assert(!done@[e[k as int].0 as int]);
            }
            assert(live_in(e, w as int, done@, 0, k as int) <= k) by {
                lemma_live_in_le(e, w as int, done@, 0, k as int);
            }
        }
        indeg.set(w, indeg[w] + 1);
        k = k + 1;
    }
    let mut queue: Vec<usize> = Vec::new();
    let mut v: usize = 0;
    while v < n
        invariant
            v <= n,
            indeg.len() == n,
            done.len() == n,
            forall|x: int| 0 <= x < n ==> !done@[x],
            forall|i: int| 0 <= i < queue.len() ==> queue@[i] < v,
            queue@.no_duplicates(),
            forall|x: int| 0 <= x < v ==> (indeg@[x] == 0 <==> queue@.contains(x as usize)),
            forall|i: int| 0 <= i < queue.len() ==> indeg@[queue@[i] as int] == 0,
        decreases n - v,
    {
        let ghost before = queue@;
        if indeg[v] == 0 {
            queue.push(v);
            proof {
                assert(queue@ == before.push(v));
                assert(queue@[queue.len() - 1] == v);
                assert forall|x: int| 0 <= x < v + 1 implies (indeg@[x] == 0 <==> queue@.contains(
                    x as usize,
                )) by {
                    if x < v && queue@.contains(x as usize) {
                        let i = choose|i: int| 0 <= i < queue.len() && queue@[i] == x as usize;
                        if i < before.len() {
                            assert(before.contains(x as usize));
                        }
                    }
                    if x < v && before.contains(x as usize) {
                        let i = choose|i: int| 0 <= i < before.len() && before[i] == x as usize;
                        assert(queue@[i] == x as usize);
                    }
                }
                assert(queue@.no_duplicates()) by {
                    assert forall|a: int, b: int|
                        0 <= a < queue.len() && 0 <= b < queue.len() && a != b implies queue@[a]
                        != queue@[b] by {
                        if a < before.len() && b < before.len() {
                        } else if a < before.len() {
                            assert(before[a] < v);
                        } else if b < before.len() {
                            assert(before[b] < v);
                        }
                    }
                }
            }
        }
        v = v + 1;
    }
    let mut head: usize = 0;
    proof {
        lemma_distinct_bounded(queue@, n as int);
        assert forall|i: int| 0 <= i < queue.len() implies !on_cycle_of(rel, queue@[i] as int) by {
            let q = queue@[i] as int;
            if on_cycle_of(rel, q) {
                lemma_cycle_predecessor(rel, q);
                let u = choose|u: int| #[trigger] rel(u, q) && on_cycle_of(rel, u);
                let j = choose|j: int| 0 <= j < e.len() && #[trigger] e[j].0 == u && e[j].1 == q;
                assert(e[j].0 < n);
                lemma_live_in_positive(e, q, done@, 0, m as int, j);
            }
        }
    }
    while head < queue.len()
        invariant
            m == e.len(),
            e == edges@,
            rel == edge_relation(e),
            edges_within(e, n as int),
            indeg.len() == n,
            done.len() == n,
            head <= queue.len() <= n,
            forall|i: int| 0 <= i < queue.len() ==> queue@[i] < n,
            queue@.no_duplicates(),
            forall|x: int| 0 <= x < n ==> indeg@[x] == live_in(e, x, done@, 0, m as int),
            forall|x: int| 0 <= x < n ==> (indeg@[x] == 0 <==> queue@.contains(x as usize)),
            forall|i: int| 0 <= i < head ==> done@[queue@[i] as int],
            forall|i: int| head <= i < queue.len() ==> !done@[queue@[i] as int],
            forall|x: int| 0 <= x < n && done@[x] ==> queue@.contains(x as usize),
            forall|i: int| 0 <= i < queue.len() ==> !on_cycle_of(rel, queue@[i] as int),
        decreases n - head,
    {
        let x = queue[head];
        let ghost old_done = done@;
        done.set(x, true);
        head = head + 1;
        let ghost new_done = done@;
        proof {
            assert forall|y: int| 0 <= y < n implies live_in(e, y, old_done, 0, m as int) == live_in(
                e,
                y,
                new_done,
                0,
                0,
            ) + live_in(e, y, old_done, 0, m as int) by {}
        }
        let mut k: usize = 0;
        while k < m
            invariant
                m == e.len(),
                e == edges@,
                rel == edge_relation(e),
                edges_within(e, n as int),
                indeg.len() == n,
                done.len() == n,
                done@ == new_done,
                x < n,
                old_done.len() == n,
                !old_done[x as int],
                new_done == old_done.update(x as int, true),
                0 < head <= queue.len(),
                queue@[head - 1] == x,
                forall|i: int| 0 <= i < queue.len() ==> queue@[i] < n,
                queue@.no_duplicates(),
                k <= m,
                forall|y: int|
                    0 <= y < n ==> indeg@[y] == live_in(e, y, new_done, 0, k as int) + live_in(
                        e,
                        y,
                        old_done,
                        k as int,
                        m as int,
                    ),
                forall|y: int| 0 <= y < n ==> (indeg@[y] == 0 <==> queue@.contains(y as usize)),
                forall|i: int| 0 <= i < head ==> done@[queue@[i] as int],
                forall|i: int| head <= i < queue.len() ==> !done@[queue@[i] as int],
                forall|y: int| 0 <= y < n && done@[y] ==> queue@.contains(y as usize),
                forall|i: int| 0 <= i < queue.len() ==> !on_cycle_of(rel, queue@[i] as int),
            decreases m - k,
        {
            let (src, w) = edges[k];
            let ghost q0 = queue@;
            let ghost i0 = indeg@;
            proof {
                assert(e[k as int] == (src, w));
                assert(src < n && w < n);
                assert forall|y: int| 0 <= y < n implies live_in(e, y, new_done, 0, k + 1) + live_in(
                    e,
                    y,
                    old_done,
                    k + 1,
                    m as int,
                ) == live_in(e, y, new_done, 0, k as int) + live_in(e, y, old_done, k as int, m as int)
                    - if src == x && y == w { 1int } else { 0int } by {
                    lemma_live_in_split(e, y, old_done, k as int, k + 1, m as int);
                    assert(live_in(e, y, old_done, k as int, k as int) == 0);
                    if src != x {
                        assert(new_done[src as int] == old_done[src as int]);
                    } else {
                        assert(new_done[src as int]);
                    }
                    assert(live_in(e, y, new_done, 0, k + 1) == live_in(e, y, new_done, 0, k as int) + if e[k as int].1 == y
                        && !new_done[e[k as int].0 as int] {
                        1nat
                    } else {
                        0nat
                    });
                    assert(live_in(e, y, old_done, k as int, k + 1) == if e[k as int].1 == y
                        && !old_done[e[k as int].0 as int] {
                        1nat
                    } else {
                        0nat
                    });
                }
            }
            if src == x {
                proof {
                    lemma_live_in_split(e, w as int, old_done, k as int, k + 1, m as int);
                    assert(live_in(e, w as int, old_done, k as int, k as int) == 0);
                    assert(live_in(e, w as int, old_done, k as int, k + 1) == 1);
                }
                indeg.set(w, indeg[w] - 1);
                if indeg[w] == 0 {
                    proof {
                        // every edge into w comes from a marked node
                        assert forall|u: int| #[trigger] rel(u, w as int) implies new_done[u] by {
                            let j = choose|j: int| 0 <= j < e.len() && #[trigger] e[j].0 == u && e[j].1 == w;
                            assert(e[j].0 < n);
                            if !new_done[u] {
                                if j < k + 1 {
                                    lemma_live_in_positive(e, w as int, new_done, 0, k + 1, j);
                                } else {
                                    if u == x as int {
                                        assert(new_done[u]);
                                    } else {
                                        assert(new_done[u] == old_done[u]);
                                    }
                                    assert(!old_done[u]);
                                    lemma_live_in_positive(e, w as int, old_done, k + 1, m as int, j);
                                }
                            }
                        }
                        if on_cycle_of(rel, w as int) {
                            lemma_cycle_predecessor(rel, w as int);
                            let u = choose|u: int| #[trigger] rel(u, w as int) && on_cycle_of(rel, u);
                            let j = choose|j: int| 0 <= j < e.len() && #[trigger] e[j].0 == u && e[j].1 == w;
                            assert(new_done[u]);
                            assert(u < n);
                            assert(queue@.contains(u as usize));
                            let qi = choose|qi: int| 0 <= qi < queue.len() && queue@[qi] == u as usize;
                            assert(!on_cycle_of(rel, queue@[qi] as int));
                        }
                        assert(!queue@.contains(w));
                    }
                    let ghost qb = queue@;
                    queue.push(w);
                    proof {
                        assert(queue@ == qb.push(w));
                        assert(queue@.no_duplicates()) by {
                            assert forall|a: int, b: int|
                                0 <= a < queue.len() && 0 <= b < queue.len() && a != b implies queue@[a]
                                != queue@[b] by {
                                if a == queue.len() - 1 && b < qb.len() {
                                    if qb[b] == w {
                                        assert(qb.contains(w));
                                    }
                                } else if b == queue.len() - 1 && a < qb.len() {
                                    if qb[a] == w {
                                        assert(qb.contains(w));
                                    }
                                }
                            }
                        }
                        assert(!new_done[w as int]);
                    }
                }
            }
            proof {
                assert(queue@ == q0 || queue@ == q0.push(w));
                assert forall|y: int| 0 <= y < n implies (indeg@[y] == 0 <==> queue@.contains(
                    y as usize,
                )) by {
                    if queue@ == q0.push(w) {
                        lemma_push_contains(q0, w, y as usize);
                    }
                }
                assert forall|y: int| 0 <= y < n && done@[y] implies queue@.contains(y as usize) by {
                    assert(q0.contains(y as usize));
                    if queue@ == q0.push(w) {
                        lemma_push_contains(q0, w, y as usize);
                    }
                }
            }
            k = k + 1;
        }
        proof {
            assert forall|y: int| 0 <= y < n implies indeg@[y] == live_in(e, y, done@, 0, m as int) by {
                assert(live_in(e, y, old_done, m as int, m as int) == 0);
            }
            lemma_distinct_bounded(queue@, n as int);
        }
    }
    proof {
        lemma_peel_outcome(e, n as int, done@, indeg@, queue@);
    }
    done
}

/// After peeling, every unmarked node has an unmarked predecessor.
proof fn lemma_peel_pending(e: Seq<(usize, usize)>, n: int, done: Seq<bool>, indeg: Seq<usize>, queue: Seq<usize>)
    requires
        0 <= n <= usize::MAX,
        edges_within(e, n),
        done.len() == n,
        indeg.len() == n,
        forall|x: int| 0 <= x < n ==> indeg[x] == live_in(e, x, done, 0, e.len() as int),
        forall|x: int| 0 <= x < n ==> (indeg[x] == 0 <==> queue.contains(x as usize)),
        forall|i: int| 0 <= i < queue.len() ==> done[queue[i] as int],
    ensures
        forall|y: int|
            0 <= y < n && !done[y] ==> exists|u: int|
                0 <= u < done.len() && !done[u] && #[trigger] edge_relation(e)(u, y),
{
    assert forall|y: int| 0 <= y < n && !done[y] implies exists|u: int|
        0 <= u < done.len() && !done[u] && #[trigger] edge_relation(e)(u, y) by {
        assert(indeg[y] != 0) by {
            if indeg[y] == 0 {
                assert(queue.contains(y as usize));
                let qi = choose|qi: int| 0 <= qi < queue.len() && queue[qi] == y as usize;
                assert(queue[qi] as int == y);
                assert(done[queue[qi] as int]);
            }
        }
        lemma_live_in_witness(e, y, done, 0, e.len() as int);
        let j = choose|j: int| 0 <= j < e.len() && #[trigger] e[j].1 == y && !done[e[j].0 as int];
        let u = e[j].0 as int;
        assert(e[j].0 < n);
        assert(edge_relation(e)(u, y));
    }
}

/// After peeling, a marked node has only marked predecessors.
proof fn lemma_peel_closed(e: Seq<(usize, usize)>, n: int, done: Seq<bool>, indeg: Seq<usize>, queue: Seq<usize>)
    requires
        0 <= n <= usize::MAX,
        edges_within(e, n),
        done.len() == n,
        indeg.len() == n,
        forall|x: int| 0 <= x < n ==> indeg[x] == live_in(e, x, done, 0, e.len() as int),
        forall|x: int| 0 <= x < n ==> (indeg[x] == 0 <==> queue.contains(x as usize)),
        forall|x: int| 0 <= x < n && done[x] ==> queue.contains(x as usize),
    ensures
        forall|a: int, b: int| #[trigger] edge_relation(e)(a, b) ==> 0 <= a < done.len() && 0 <= b < done.len(),
        forall|a: int, b: int| #[trigger] edge_relation(e)(a, b) && !done[a] ==> !done[b],
{
    let rel = edge_relation(e);
    assert forall|a: int, b: int| #[trigger] rel(a, b) implies 0 <= a < done.len() && 0 <= b
        < done.len() by {
        let j = choose|j: int| 0 <= j < e.len() && #[trigger] e[j].0 == a && e[j].1 == b;
        assert(e[j].0 < n && e[j].1 < n);
    }
    assert forall|a: int, b: int| #[trigger] rel(a, b) && !done[a] implies !done[b] by {
        let j = choose|j: int| 0 <= j < e.len() && #[trigger] e[j].0 == a && e[j].1 == b;
        assert(e[j].0 < n && e[j].1 < n);
        if done[b] {
            assert(indeg[b] == 0);
            lemma_live_in_positive(e, b, done, 0, e.len() as int, j);
        }
    }
}

/// A node on a cycle, or behind one, stays unmarked when marked nodes have
/// only marked predecessors and no node of a cycle is marked.
proof fn lemma_behind_unmarked(rel: spec_fn(int, int) -> bool, done: Seq<bool>, y: int)
    requires
        forall|a: int, b: int| #[trigger] rel(a, b) ==> 0 <= a < done.len() && 0 <= b < done.len(),
        forall|a: int, b: int| #[trigger] rel(a, b) && !done[a] ==> !done[b],
        forall|u: int| 0 <= u < done.len() && on_cycle_of(rel, u) ==> !done[u],
        behind_cycle_of(rel, y),
    ensures
        0 <= y < done.len(),
        !done[y],
{
    let u = choose|u: int| on_cycle_of(rel, u) && reaches_of(rel, u, y);
    let p = choose|p: Seq<int>|
        p.len() >= 1 && p[0] == u && p.last() == y && forall|i: int|
            0 <= i < p.len() - 1 ==> #[trigger] rel(p[i], p[i + 1]);
    let c = choose|c: Seq<int>| is_cycle_of(rel, c) && c.contains(u);
    let ci = choose|ci: int| 0 <= ci < c.len() && c[ci] == u;
    if ci == 0 {
        assert(rel(c.last(), c[0]));
    } else {
        assert(rel(c[ci - 1], c[(ci - 1) + 1]));
    }
    lemma_walk_unmarked(rel, done, p, p.len() - 1);
}

/// What the peeling leaves behind, once no node is waiting: the unmarked
/// nodes are exactly those on or behind a cycle.
proof fn lemma_peel_outcome(e: Seq<(usize, usize)>, n: int, done: Seq<bool>, indeg: Seq<usize>, queue: Seq<usize>)
    requires
        0 <= n <= usize::MAX,
        edges_within(e, n),
        done.len() == n,
        indeg.len() == n,
        forall|i: int| 0 <= i < queue.len() ==> queue[i] < n,
        forall|x: int| 0 <= x < n ==> indeg[x] == live_in(e, x, done, 0, e.len() as int),
        forall|x: int| 0 <= x < n ==> (indeg[x] == 0 <==> queue.contains(x as usize)),
        forall|i: int| 0 <= i < queue.len() ==> done[queue[i] as int],
        forall|x: int| 0 <= x < n && done[x] ==> queue.contains(x as usize),
        forall|i: int| 0 <= i < queue.len() ==> !on_cycle_of(edge_relation(e), queue[i] as int),
    ensures
        forall|v: int| 0 <= v < n ==> (!done[v] <==> behind_cycle_of(edge_relation(e), v)),
        (forall|v: int| 0 <= v < n ==> done[v]) <==> !has_cycle_of(edge_relation(e)),
{
    let rel = edge_relation(e);
    lemma_peel_pending(e, n, done, indeg, queue);
    lemma_peel_closed(e, n, done, indeg, queue);
    assert(rel == edge_relation(e));
    assert forall|u: int| 0 <= u < done.len() && on_cycle_of(rel, u) implies !done[u] by {
        if done[u] {
            assert(queue.contains(u as usize));
            let qi = choose|qi: int| 0 <= qi < queue.len() && queue[qi] == u as usize;
            assert(queue[qi] as int == u);
            assert(!on_cycle_of(rel, queue[qi] as int));
        }
    }
    lemma_peel_conclude(rel, done);
}

proof fn lemma_peel_node(rel: spec_fn(int, int) -> bool, done: Seq<bool>, y: int)
    requires
        0 <= y < done.len(),
        forall|y: int|
            0 <= y < done.len() && !done[y] ==> exists|u: int|
                0 <= u < done.len() && !done[u] && #[trigger] rel(u, y),
        forall|a: int, b: int| #[trigger] rel(a, b) ==> 0 <= a < done.len() && 0 <= b < done.len(),
        forall|a: int, b: int| #[trigger] rel(a, b) && !done[a] ==> !done[b],
        forall|u: int| 0 <= u < done.len() && on_cycle_of(rel, u) ==> !done[u],
    ensures
        !done[y] <==> behind_cycle_of(rel, y),
{
    if !done[y] {
        lemma_unmarked_behind_cycle(rel, done, y);
    }
    if behind_cycle_of(rel, y) {
        lemma_behind_unmarked(rel, done, y);
    }
}

/// The conclusion of the peeling argument, from its three facts.
proof fn lemma_peel_conclude(rel: spec_fn(int, int) -> bool, done: Seq<bool>)
    requires
        forall|y: int|
            0 <= y < done.len() && !done[y] ==> exists|u: int|
                0 <= u < done.len() && !done[u] && #[trigger] rel(u, y),
        forall|a: int, b: int| #[trigger] rel(a, b) ==> 0 <= a < done.len() && 0 <= b < done.len(),
        forall|a: int, b: int| #[trigger] rel(a, b) && !done[a] ==> !done[b],
        forall|u: int| 0 <= u < done.len() && on_cycle_of(rel, u) ==> !done[u],
    ensures
        forall|v: int| 0 <= v < done.len() ==> (!done[v] <==> behind_cycle_of(rel, v)),
        (forall|v: int| 0 <= v < done.len() ==> done[v]) <==> !has_cycle_of(rel),
{
    let n = done.len() as int;
    assert forall|y: int| 0 <= y < n implies (!done[y] <==> behind_cycle_of(rel, y)) by {
        lemma_peel_node(rel, done, y);
    }
    lemma_all_marked_acyclic(rel, done);
}

proof fn lemma_all_marked_acyclic(rel: spec_fn(int, int) -> bool, done: Seq<bool>)
    requires
        forall|a: int, b: int| #[trigger] rel(a, b) ==> 0 <= a < done.len() && 0 <= b < done.len(),
        forall|v: int| 0 <= v < done.len() ==> (!done[v] <==> behind_cycle_of(rel, v)),
    ensures
        (forall|v: int| 0 <= v < done.len() ==> done[v]) <==> !has_cycle_of(rel),
{
    if has_cycle_of(rel) {
        let c = choose|c: Seq<int>| is_cycle_of(rel, c);
        let x = c[0];
        assert(c.contains(x));
        assert(on_cycle_of(rel, x));
        assert(rel(c.last(), x));
        let p = seq![x];
        assert(p.len() >= 1 && p[0] == x && p.last() == x);
        assert(reaches_of(rel, x, x));
        assert(behind_cycle_of(rel, x));
        assert(!done[x]);
    }
    if exists|y: int| 0 <= y < done.len() && !done[y] {
        let y = choose|y: int| 0 <= y < done.len() && !done[y];
        assert(behind_cycle_of(rel, y));
        let u = choose|u: int| on_cycle_of(rel, u) && reaches_of(rel, u, y);
        let c = choose|c: Seq<int>| is_cycle_of(rel, c) && c.contains(u);
        assert(has_cycle_of(rel));
    }
}

proof fn lemma_push_contains(q: Seq<usize>, w: usize, y: usize)
    ensures
        q.push(w).contains(y) == (q.contains(y) || y == w),
{
    if q.contains(y) {
        let i = choose|i: int| 0 <= i < q.len() && q[i] == y;
        assert(q.push(w)[i] == y);
    }
    if y == w {
        assert(q.push(w)[q.len() as int] == y);
    }
    if q.push(w).contains(y) {
        let i = choose|i: int| 0 <= i < q.len() + 1 && q.push(w)[i] == y;
        if i < q.len() {
            assert(q[i] == y);
        }
    }
}

proof fn lemma_live_in_le(e: Seq<(usize, usize)>, v: int, done: Seq<bool>, lo: int, hi: int)
    requires
        lo <= hi,
    ensures
        live_in(e, v, done, lo, hi) <= hi - lo,
    decreases hi - lo,
{
    if hi > lo {
        lemma_live_in_le(e, v, done, lo, hi - 1);
    }
}

/// The views of the ids at the positions `0..k` that satisfy `keep`, in
/// order.
pub open spec fn ids_where(ids: Seq<String>, keep: spec_fn(int) -> bool, k: int) -> Seq<Seq<char>>
    decreases k,
{
    if k <= 0 {
        seq![]
    } else {
        let r = ids_where(ids, keep, k - 1);
        if keep(k - 1) {
            r.push(ids[k - 1]@)
        } else {
            r
        }
    }
}

proof fn lemma_ids_where_empty(ids: Seq<String>, keep: spec_fn(int) -> bool, k: int)
    requires
        k >= 0,
    ensures
        ids_where(ids, keep, k).len() == 0 <==> forall|i: int| 0 <= i < k ==> !#[trigger] keep(i),
    decreases k,
{
    if k > 0 {
        lemma_ids_where_empty(ids, keep, k - 1);
    }
}

/// The position of `id` among `ids`, if it is there.
pub fn position_of(ids: &Vec<String>, id: &str) -> (r: Option<usize>)
    ensures
        match r {
            Some(i) => i < ids.len() && ids@[i as int]@ == id@,
            None => forall|j: int| 0 <= j < ids.len() ==> ids@[j]@ != id@,
        },
{
    let mut i: usize = 0;
    while i < ids.len()
        invariant
            i <= ids.len(),
            forall|j: int| 0 <= j < i ==> ids@[j]@ != id@,
        decreases ids.len() - i,
    {
        if crate::text::str_eq(ids[i].as_str(), id) {
            return Some(i);
        }
        i = i + 1;
    }
    None
}

/// The dependencies between existing tasks, as pairs of positions.
pub fn intern_edges(ids: &Vec<String>, deps: &Vec<Dep>) -> (e: Vec<(usize, usize)>)
    requires
        distinct_ids(ids@),
    ensures
        edges_within(e@, ids.len() as int),
        forall|u: int, v: int| edge_in(e@, u, v) <==> is_dep_edge(ids@, deps@, u, v),
{
    let mut e: Vec<(usize, usize)> = Vec::new();
    let mut k: usize = 0;
    while k < deps.len()
        invariant
            distinct_ids(ids@),
            k <= deps.len(),
            edges_within(e@, ids.len() as int),
            forall|u: int, v: int|
                edge_in(e@, u, v) <==> (0 <= u < ids.len() && 0 <= v < ids.len() && exists|j: int|
                    0 <= j < k && #[trigger] deps@[j].predecessor@ == ids@[u]@
                        && deps@[j].successor@ == ids@[v]@),
        decreases deps.len() - k,
    {
        let pu = position_of(ids, deps[k].predecessor.as_str());
        let pv = position_of(ids, deps[k].successor.as_str());
        let ghost before = e@;
        match (pu, pv) {
            (Some(u0), Some(v0)) => {
                e.push((u0, v0));
                proof {
                    assert forall|u: int, v: int|
                        edge_in(e@, u, v) <==> (0 <= u < ids.len() && 0 <= v < ids.len() && exists|j: int|
                            0 <= j < k + 1 && #[trigger] deps@[j].predecessor@ == ids@[u]@
                                && deps@[j].successor@ == ids@[v]@) by {
                        if edge_in(e@, u, v) {
                            let i = choose|i: int| 0 <= i < e@.len() && #[trigger] e@[i].0 == u && e@[i].1 == v;
                            if i < before.len() {
                                assert(before[i] == e@[i]);
                                assert(edge_in(before, u, v));
                                let j = choose|j: int|
                                    0 <= j < k && #[trigger] deps@[j].predecessor@ == ids@[u]@
                                        && deps@[j].successor@ == ids@[v]@;
                                assert(0 <= j < k + 1);
                            } else {
                                assert(e@[i] == (u0, v0));
                                assert(u0 < ids.len() && v0 < ids.len());
                                assert(deps@[k as int].predecessor@ == ids@[u]@);
                                assert(deps@[k as int].successor@ == ids@[v]@);
                            }
                        }
                        if 0 <= u < ids.len() && 0 <= v < ids.len() && exists|j: int|
                            0 <= j < k + 1 && #[trigger] deps@[j].predecessor@ == ids@[u]@
                                && deps@[j].successor@ == ids@[v]@ {
                            let j = choose|j: int|
                                0 <= j < k + 1 && #[trigger] deps@[j].predecessor@ == ids@[u]@
                                    && deps@[j].successor@ == ids@[v]@;
                            if j < k {
                                assert(edge_in(before, u, v));
                                let i = choose|i: int| 0 <= i < before.len() && #[trigger] before[i].0 == u && before[i].1 == v;
                                assert(e@[i] == before[i]);
                                assert(e@[i].0 == u && e@[i].1 == v);
                                assert(edge_in(e@, u, v));
                            } else {
                                assert(ids@[u0 as int]@ == ids@[u]@);
                                assert(ids@[v0 as int]@ == ids@[v]@);
                                assert(u0 == u);
                                assert(v0 == v);
                                assert(e@[before.len() as int] == (u0, v0));
                                assert(e@[before.len() as int].0 == u && e@[before.len() as int].1 == v);
                                assert(edge_in(e@, u, v));
                            }
                        }
                    }
                }
            },
            _ => {
                proof {
                    assert forall|u: int, v: int|
                        edge_in(e@, u, v) <==> (0 <= u < ids.len() && 0 <= v < ids.len() && exists|j: int|
                            0 <= j < k + 1 && #[trigger] deps@[j].predecessor@ == ids@[u]@
                                && deps@[j].successor@ == ids@[v]@) by {
                        if 0 <= u < ids.len() && 0 <= v < ids.len() && exists|j: int|
                            0 <= j < k + 1 && #[trigger] deps@[j].predecessor@ == ids@[u]@
                                && deps@[j].successor@ == ids@[v]@ {
                            let j = choose|j: int|
                                0 <= j < k + 1 && #[trigger] deps@[j].predecessor@ == ids@[u]@
                                    && deps@[j].successor@ == ids@[v]@;
                            if j == k {
                                assert(false);
                            }
                        }
                    }
                }
            },
        }
        k = k + 1;
    }
    e
}

/// The tasks on a dependency cycle or depending, directly or not, on a task
/// on one, in plan order. It is empty exactly when the dependencies between
/// existing tasks have no cycle.
pub fn cycle_members(ids: &Vec<String>, deps: &Vec<Dep>) -> (r: Vec<String>)
    requires
        distinct_ids(ids@),
    ensures
        crate::text::string_views(r@) == ids_where(
            ids@,
            |v: int| behind_cycle_of(dep_relation(ids@, deps@), v),
            ids.len() as int,
        ),
        r@.len() == 0 <==> !has_dep_cycle(ids@, deps@),
{
    let e = intern_edges(ids, deps);
    let ghost rel = dep_relation(ids@, deps@);
    assert(edge_relation(e@) =~= rel);
    let done = peel(ids.len(), &e);
    let ghost keep = |v: int| behind_cycle_of(rel, v);
    let mut r: Vec<String> = Vec::new();
    let mut i: usize = 0;
    while i < ids.len()
        invariant
            i <= ids.len(),
            done.len() == ids.len(),
            keep == (|v: int| behind_cycle_of(rel, v)),
            forall|v: int| 0 <= v < ids.len() ==> (!done@[v] <==> behind_cycle_of(rel, v)),
            crate::text::string_views(r@) == ids_where(ids@, keep, i as int),
        decreases ids.len() - i,
    {
        if !done[i] {
            let ghost before = r@;
            r.push(ids[i].clone());
            assert(crate::text::string_views(r@) =~= crate::text::string_views(before).push(ids@[i as int]@));
        }
        i = i + 1;
    }
    proof {
        lemma_ids_where_empty(ids@, keep, ids.len() as int);
        assert(r@.len() == crate::text::string_views(r@).len());
        if r@.len() == 0 {
            assert forall|v: int| 0 <= v < ids.len() implies done@[v] by {
                assert(!keep(v));
            }
        } else {
            let v = choose|v: int| 0 <= v < ids.len() && #[trigger] keep(v);
            assert(!done@[v]);
        }
    }
    r
}

} // verus!
