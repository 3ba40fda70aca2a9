//! What the schedule queries report of a task's place in the dependency
//! graph: how many tasks wait directly on it (its fan-out, by which
//! bottlenecks are ranked), which tasks lie downstream of it (those a
//! what-if change can move), and whether a critical path changed.

use vstd::prelude::*;

use crate::chain::same_strings;
use crate::graph::Dep;
use crate::parallel::has_dep;
use crate::text::{str_eq, string_views};

verus! {

// ---------------------------------------------------------------------------
// Fan-out
// ---------------------------------------------------------------------------

/// How many of the first `k` dependencies run from `id`.
pub open spec fn successor_count(deps: Seq<Dep>, id: Seq<char>, k: int) -> nat
    decreases k,
{
    if k <= 0 {
        0
    } else {
        successor_count(deps, id, k - 1) + if deps[k - 1].predecessor@ == id {
            1nat
        } else {
            0nat
        }
    }
}

/// The fan-out of task `id`: how many dependencies lead from it to a task
/// that waits on it.
pub fn fan_out(deps: &Vec<Dep>, id: &str) -> (r: usize)
    ensures
        r == successor_count(deps@, id@, deps.len() as int),
{
    let mut n: usize = 0;
    let mut k: usize = 0;
    while k < deps.len()
        invariant
            k <= deps.len(),
            n == successor_count(deps@, id@, k as int),
            n <= k,
        decreases deps.len() - k,
    {
        if str_eq(deps[k].predecessor.as_str(), id) {
            n = n + 1;
        }
        k = k + 1;
    }
    n
}

// ---------------------------------------------------------------------------
// Downstream tasks
// ---------------------------------------------------------------------------

/// Whether each element of `p` is followed by one that depends on it.
pub open spec fn is_dep_path(deps: Seq<Dep>, p: Seq<Seq<char>>) -> bool {
    forall|i: int| 0 <= i < p.len() - 1 ==> #[trigger] has_dep(deps, p[i], p[i + 1])
}

/// Whether task `b` waits, directly or through other tasks, on task `a`.
pub open spec fn leads_to(deps: Seq<Dep>, a: Seq<char>, b: Seq<char>) -> bool {
    exists|p: Seq<Seq<char>>| #[trigger] is_dep_path(deps, p) && p.len() >= 2 && p[0] == a && p.last() == b
}

/// The tasks among the first `k` of `ids` that wait, directly or not, on
/// `start`, in plan order.
pub open spec fn downstream_of(ids: Seq<Seq<char>>, deps: Seq<Dep>, start: Seq<char>, k: int) -> Seq<Seq<char>>
    decreases k,
{
    if k <= 0 {
        seq![]
    } else if leads_to(deps, start, ids[k - 1]) {
        downstream_of(ids, deps, start, k - 1).push(ids[k - 1])
    } else {
        downstream_of(ids, deps, start, k - 1)
    }
}

/// How many of the first `k` marks are still unset.
spec fn unset(used: Seq<bool>, k: int) -> nat
    decreases k,
{
    if k <= 0 {
        0
    } else {
        unset(used, k - 1) + if used[k - 1] {
            0nat
        } else {
            1nat
        }
    }
}

proof fn lemma_unset_drops(used: Seq<bool>, j: int, k: int)
    requires
        0 <= j < used.len(),
        !used[j],
        0 <= k <= used.len(),
    ensures
        unset(used.update(j, true), k) + (if j < k {
            1int
        } else {
            0int
        }) == unset(used, k),
    decreases k,
{
    if k > 0 {
        lemma_unset_drops(used, j, k - 1);
    }
}

proof fn lemma_unset_bound(used: Seq<bool>, k: int)
    requires
        0 <= k <= used.len(),
    ensures
        unset(used, k) <= k,
    decreases k,
{
    if k > 0 {
        lemma_unset_bound(used, k - 1);
    }
}

fn contains_text(v: &Vec<String>, x: &str) -> (r: bool)
    ensures
        r == string_views(v@).contains(x@),
{
    let mut i: usize = 0;
    while i < v.len()
        invariant
            i <= v.len(),
            forall|j: int| 0 <= j < i ==> v@[j]@ != x@,
        decreases v.len() - i,
    {
        if str_eq(v[i].as_str(), x) {
            assert(string_views(v@)[i as int] == x@);
            return true;
        }
        i = i + 1;
    }
    proof {
        if string_views(v@).contains(x@) {
            let j = choose|j: int| 0 <= j < string_views(v@).len() && string_views(v@)[j] == x@;
            assert(v@[j]@ == x@);
        }
    }
    false
}

/// Whether dependency `d` starts at `start` or at a task of `reach`.
spec fn starts_inside(d: Dep, start: Seq<char>, reach: Seq<Seq<char>>) -> bool {
    d.predecessor@ == start || reach.contains(d.predecessor@)
}

proof fn lemma_closed_reach(deps: Seq<Dep>, start: Seq<char>, reach: Seq<Seq<char>>, p: Seq<Seq<char>>)
    requires
        forall|k: int|
            0 <= k < deps.len() && #[trigger] starts_inside(deps[k], start, reach) ==> reach.contains(
                deps[k].successor@,
            ),
        is_dep_path(deps, p),
        p.len() >= 2,
        p[0] == start,
    ensures
        reach.contains(p.last()),
    decreases p.len(),
{
    let n = p.len() as int;
    if n > 2 {
        let q = p.drop_last();
        assert forall|i: int| 0 <= i < q.len() - 1 implies #[trigger] has_dep(deps, q[i], q[i + 1]) by {
            assert(has_dep(deps, p[i], p[i + 1]));
        }
        lemma_closed_reach(deps, start, reach, q);
    }
    let i = n - 2;
    assert(has_dep(deps, p[i], p[i + 1]));
    let k = choose|k: int|
        0 <= k < deps.len() && #[trigger] deps[k].predecessor@ == p[i] && deps[k].successor@ == p[i + 1];
    assert(p[i + 1] == p.last());
    assert(starts_inside(deps[k], start, reach));
}

/// The tasks that lie downstream of `start`: those of `ids` that wait on it
/// directly or through other tasks, in plan order. A change to `start`'s
/// duration can move only these.
pub fn downstream_tasks(ids: &Vec<String>, deps: &Vec<Dep>, start: &str) -> (r: Vec<String>)
    ensures
        string_views(r@) == downstream_of(string_views(ids@), deps@, start@, ids.len() as int),
{
    let n = deps.len();
    let mut used: Vec<bool> = Vec::new();
    let mut i: usize = 0;
    while i < n
        invariant
            i <= n,
            n == deps.len(),
            used@ == Seq::new(i as nat, |j: int| false),
        decreases n - i,
    {
        used.push(false);
        i = i + 1;
        assert(used@ =~= Seq::new(i as nat, |j: int| false));
    }
    // `reach` gathers the successors of every dependency that starts at
    // `start` or at a task already gathered; a dependency is followed once.
    let mut reach: Vec<String> = Vec::new();
    let mut done = false;
    while !done
        invariant
            n == deps.len(),
            used.len() == n,
            forall|x: Seq<char>| #[trigger] string_views(reach@).contains(x) ==> leads_to(deps@, start@, x),
            forall|k: int|
                0 <= k < n && #[trigger] used@[k] ==> string_views(reach@).contains(deps@[k].successor@),
            done ==> forall|k: int|
                0 <= k < n && #[trigger] starts_inside(deps@[k], start@, string_views(reach@)) ==> used@[k],
        decreases unset(used@, n as int) + if done { 0int } else { 1int },
    {
        let mut found = false;
        let mut pick: usize = 0;
        let mut k: usize = 0;
        while k < n && !found
            invariant
                n == deps.len(),
                used.len() == n,
                k <= n,
                found ==> pick < n && !used@[pick as int] && starts_inside(
                    deps@[pick as int],
                    start@,
                    string_views(reach@),
                ),
                !found ==> forall|j: int|
                    0 <= j < k && #[trigger] starts_inside(deps@[j], start@, string_views(reach@)) ==> used@[j],
            decreases n - k + if found { 0int } else { 1int },
        {
            if !used[k] {
                let from = deps[k].predecessor.as_str();
                if str_eq(from, start) || contains_text(&reach, from) {
                    found = true;
                    pick = k;
                }
            }
            if !found {
                k = k + 1;
            }
        }
        if !found {
            done = true;
        } else {
            let ghost old_used = used@;
            let ghost old_reach = string_views(reach@);
            let d = &deps[pick];
            let s = d.successor.as_str();
            proof {
                let q = d.predecessor@;
                assert(has_dep(deps@, q, s@));
                if q == start@ {
                    let p = seq![start@, s@];
                    assert(is_dep_path(deps@, p));
                    assert(leads_to(deps@, start@, s@));
                } else {
                    assert(old_reach.contains(q));
                    assert(leads_to(deps@, start@, q));
                    let p = choose|p: Seq<Seq<char>>|
                        #[trigger] is_dep_path(deps@, p) && p.len() >= 2 && p[0] == start@ && p.last() == q;
                    let p2 = p.push(s@);
                    assert forall|i: int| 0 <= i < p2.len() - 1 implies #[trigger] has_dep(deps@, p2[i], p2[i + 1]) by {
                        if i < p.len() - 1 {
                            assert(has_dep(deps@, p[i], p[i + 1]));
                        }
                    }
                    assert(is_dep_path(deps@, p2));
                    assert(leads_to(deps@, start@, s@));
                }
            }
            let present = contains_text(&reach, s);
            if !present {
                reach.push(d.successor.clone());
                assert(string_views(reach@) =~= old_reach.push(s@));
                assert(string_views(reach@)[old_reach.len() as int] == s@);
                assert forall|x: Seq<char>| #[trigger] string_views(reach@).contains(x) implies leads_to(deps@, start@, x) by {
                    if x != s@ {
                        let j = choose|j: int| 0 <= j < string_views(reach@).len() && string_views(reach@)[j] == x;
                        assert(old_reach[j] == x);
                        assert(old_reach.contains(x));
                    }
                }
                assert forall|k: int| 0 <= k < n && #[trigger] used@[k] implies string_views(reach@).contains(
                    deps@[k].successor@,
                ) by {
                    let j = choose|j: int| 0 <= j < old_reach.len() && old_reach[j] == deps@[k].successor@;
                    assert(string_views(reach@)[j] == deps@[k].successor@);
                }
            }
            used.set(pick, true);
            proof {
                lemma_unset_drops(old_used, pick as int, n as int);
                assert(used@ == old_used.update(pick as int, true));
                assert(string_views(reach@).contains(s@));
            }
        }
    }
    proof {
        lemma_unset_bound(used@, n as int);
    }
    let ghost rv = string_views(reach@);
    assert forall|x: Seq<char>| leads_to(deps@, start@, x) <==> rv.contains(x) by {
        if leads_to(deps@, start@, x) {
            let p = choose|p: Seq<Seq<char>>|
                #[trigger] is_dep_path(deps@, p) && p.len() >= 2 && p[0] == start@ && p.last() == x;
            assert forall|k: int|
                0 <= k < deps.len() && #[trigger] starts_inside(deps@[k], start@, rv) implies rv.contains(
                    deps@[k].successor@,
                ) by {
                assert(used@[k]);
            }
            lemma_closed_reach(deps@, start@, rv, p);
        }
    }
    let ghost iv = string_views(ids@);
    let mut r: Vec<String> = Vec::new();
    let mut m: usize = 0;
    while m < ids.len()
        invariant
            m <= ids.len(),
            iv == string_views(ids@),
            rv == string_views(reach@),
            forall|x: Seq<char>| leads_to(deps@, start@, x) <==> #[trigger] rv.contains(x),
            string_views(r@) == downstream_of(iv, deps@, start@, m as int),
        decreases ids.len() - m,
    {
        assert(iv[m as int] == ids@[m as int]@);
        if contains_text(&reach, ids[m].as_str()) {
            let ghost before = r@;
            r.push(ids[m].clone());
            assert(string_views(r@) =~= string_views(before).push(iv[m as int]));
        }
        m = m + 1;
    }
    r
}

// ---------------------------------------------------------------------------
// Critical path comparison
// ---------------------------------------------------------------------------

/// Whether the critical path after a change differs from the one before:
/// other tasks, or the same tasks in another order.
pub fn critical_path_changed(before: &Vec<String>, after: &Vec<String>) -> (r: bool)
    ensures
        r == (string_views(before@) != string_views(after@)),
{
    !same_strings(before, after)
}

} // verus!
