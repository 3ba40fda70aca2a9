//! Parallel groups: every task is dispatched once, in rounds. Each round
//! takes the earliest start among the tasks not yet dispatched, and of the
//! tasks starting then, those that wait on none of the others.

use vstd::prelude::*;

use crate::graph::{has_cycle_of, is_cycle_of, Dep};
use crate::text::{str_eq, string_views};

verus! {

/// A task with the key of its earliest start. The key orders starts: equal
/// keys are equal starts, and a smaller key an earlier start.
#[derive(Debug, Clone)]
pub struct ScheduledTask {
    pub id: String,
    pub start_key: i64,
}

/// Tasks that may run side by side, numbered from 1 in order of start.
#[derive(Debug, Clone)]
pub struct ParallelGroup {
    pub number: usize,
    pub tasks: Vec<String>,
    pub start_key: i64,
}

/// Whether a dependency runs from `a` to `b`.
pub open spec fn has_dep(deps: Seq<Dep>, a: Seq<char>, b: Seq<char>) -> bool {
    exists|k: int|
        0 <= k < deps.len() && #[trigger] deps[k].predecessor@ == a && deps[k].successor@ == b
}

/// Whether every id occurs once.
pub open spec fn distinct_task_ids(tasks: Seq<ScheduledTask>) -> bool {
    forall|i: int, j: int|
        0 <= i < tasks.len() && 0 <= j < tasks.len() && i != j ==> #[trigger] tasks[i].id@
            != #[trigger] tasks[j].id@
}

/// Whether a dependency runs from `a` to `b`.
pub fn dep_exists(deps: &Vec<Dep>, a: &str, b: &str) -> (r: bool)
    ensures
        r == has_dep(deps@, a@, b@),
{
    let mut k: usize = 0;
    while k < deps.len()
        invariant
            k <= deps.len(),
            forall|j: int|
                #![trigger deps@[j]]
                0 <= j < k ==> !(deps@[j].predecessor@ == a@ && deps@[j].successor@ == b@),
        decreases deps.len() - k,
    {
        let d = &deps[k];
        let x = str_eq(d.predecessor.as_str(), a);
        let y = str_eq(d.successor.as_str(), b);
        if x && y {
            return true;
        }
        k = k + 1;
    }
    false
}


// ---------------------------------------------------------------------------
// The rounds of dispatch, as spec functions over a mask of dispatched tasks
// ---------------------------------------------------------------------------

/// Whether task `i` is not dispatched yet and starts at `key`.
pub open spec fn pending(tasks: Seq<ScheduledTask>, placed: Seq<bool>, key: i64, i: int) -> bool {
    0 <= i < tasks.len() && !placed[i] && tasks[i].start_key == key
}

/// Whether task `i` depends on another pending task with its start.
pub open spec fn waits_on_pending(tasks: Seq<ScheduledTask>, deps: Seq<Dep>, placed: Seq<bool>, i: int) -> bool {
    exists|o: int|
        #[trigger] pending(tasks, placed, tasks[i].start_key, o) && tasks[o].id@ != tasks[i].id@
            && has_dep(deps, tasks[o].id@, tasks[i].id@)
}

/// Whether task `i` is pending at `key` and waits on no other pending task.
pub open spec fn ready(tasks: Seq<ScheduledTask>, deps: Seq<Dep>, placed: Seq<bool>, key: i64, i: int) -> bool {
    pending(tasks, placed, key, i) && !waits_on_pending(tasks, deps, placed, i)
}

/// Whether some task is ready at `key`.
pub open spec fn some_ready(tasks: Seq<ScheduledTask>, deps: Seq<Dep>, placed: Seq<bool>, key: i64) -> bool {
    exists|i: int| #[trigger] ready(tasks, deps, placed, key, i)
}

/// Whether the round at `key` takes task `i`: the ready tasks; when the
/// pending tasks all wait on one another, all of them.
pub open spec fn chosen(tasks: Seq<ScheduledTask>, deps: Seq<Dep>, placed: Seq<bool>, key: i64, i: int) -> bool {
    if some_ready(tasks, deps, placed, key) {
        ready(tasks, deps, placed, key, i)
    } else {
        pending(tasks, placed, key, i)
    }
}

/// The ids of the tasks among the first `k` that the round takes, in order.
pub open spec fn chosen_ids(tasks: Seq<ScheduledTask>, deps: Seq<Dep>, placed: Seq<bool>, key: i64, k: int) -> Seq<Seq<char>>
    decreases k,
{
    if k <= 0 {
        seq![]
    } else if chosen(tasks, deps, placed, key, k - 1) {
        chosen_ids(tasks, deps, placed, key, k - 1).push(tasks[k - 1].id@)
    } else {
        chosen_ids(tasks, deps, placed, key, k - 1)
    }
}

/// The earliest start among the first `k` tasks not dispatched yet.
pub open spec fn least_pending_key(tasks: Seq<ScheduledTask>, placed: Seq<bool>, k: int) -> Option<i64>
    decreases k,
{
    if k <= 0 {
        None
    } else {
        let r = least_pending_key(tasks, placed, k - 1);
        if placed[k - 1] {
            r
        } else {
            match r {
                None => Some(tasks[k - 1].start_key),
                Some(m) => Some(if tasks[k - 1].start_key < m { tasks[k - 1].start_key } else { m }),
            }
        }
    }
}

/// The mask after the round at `key`.
pub open spec fn place(tasks: Seq<ScheduledTask>, deps: Seq<Dep>, placed: Seq<bool>, key: i64) -> Seq<bool> {
    Seq::new(placed.len(), |i: int| placed[i] || chosen(tasks, deps, placed, key, i))
}

/// The rounds from mask `placed` on, at most `fuel` of them: each a start
/// key and the ids dispatched then.
pub open spec fn dispatch(tasks: Seq<ScheduledTask>, deps: Seq<Dep>, placed: Seq<bool>, fuel: nat) -> Seq<(i64, Seq<Seq<char>>)>
    decreases fuel,
{
    if fuel == 0 {
        seq![]
    } else {
        match least_pending_key(tasks, placed, tasks.len() as int) {
            None => seq![],
            Some(key) => seq![(key, chosen_ids(tasks, deps, placed, key, tasks.len() as int))]
                + dispatch(tasks, deps, place(tasks, deps, placed, key), (fuel - 1) as nat),
        }
    }
}

/// No task dispatched yet.
pub open spec fn none_placed(n: nat) -> Seq<bool> {
    Seq::new(n, |i: int| false)
}

/// The rounds of dispatch of a plan.
pub open spec fn dispatch_plan(tasks: Seq<ScheduledTask>, deps: Seq<Dep>) -> Seq<(i64, Seq<Seq<char>>)> {
    dispatch(tasks, deps, none_placed(tasks.len()), tasks.len())
}

/// A group as its start key and ids.
pub open spec fn group_view(g: ParallelGroup) -> (i64, Seq<Seq<char>>) {
    (g.start_key, string_views(g.tasks@))
}

/// The groups as start keys and ids.
pub open spec fn group_views(gs: Seq<ParallelGroup>) -> Seq<(i64, Seq<Seq<char>>)> {
    gs.map_values(|g: ParallelGroup| group_view(g))
}

// ---------------------------------------------------------------------------
// Computing the rounds
// ---------------------------------------------------------------------------

fn least_key(tasks: &Vec<ScheduledTask>, placed: &Vec<bool>) -> (r: Option<i64>)
    requires
        placed.len() == tasks.len(),
    ensures
        r == least_pending_key(tasks@, placed@, tasks.len() as int),
{
    let mut r: Option<i64> = None;
    let mut i: usize = 0;
    while i < tasks.len()
        invariant
            i <= tasks.len(),
            placed.len() == tasks.len(),
            r == least_pending_key(tasks@, placed@, i as int),
        decreases tasks.len() - i,
    {
        if !placed[i] {
            let k = tasks[i].start_key;
            r = match r {
                None => Some(k),
                Some(m) => Some(if k < m { k } else { m }),
            };
        }
        i = i + 1;
    }
    r
}

fn is_ready(tasks: &Vec<ScheduledTask>, deps: &Vec<Dep>, placed: &Vec<bool>, key: i64, i: usize) -> (r: bool)
    requires
        placed.len() == tasks.len(),
        i < tasks.len(),
    ensures
        r == ready(tasks@, deps@, placed@, key, i as int),
{
    if placed[i] || tasks[i].start_key != key {
        return false;
    }
    let mut o: usize = 0;
    while o < tasks.len()
        invariant
            placed.len() == tasks.len(),
            i < tasks.len(),
            o <= tasks.len(),
            tasks@[i as int].start_key == key,
            forall|j: int|
                0 <= j < o ==> !(#[trigger] pending(tasks@, placed@, key, j) && tasks@[j].id@
                    != tasks@[i as int].id@ && has_dep(deps@, tasks@[j].id@, tasks@[i as int].id@)),
        decreases tasks.len() - o,
    {
        if !placed[o] && tasks[o].start_key == key && !str_eq(tasks[o].id.as_str(), tasks[i].id.as_str())
            && dep_exists(deps, tasks[o].id.as_str(), tasks[i].id.as_str()) {
            assert(pending(tasks@, placed@, tasks@[i as int].start_key, o as int));
            return false;
        }
        o = o + 1;
    }
    true
}

/// The parallel groups of a plan, numbered from 1: in each round, the
/// earliest start among the tasks not yet dispatched, and the tasks starting
/// then that wait on no other such task; tasks that wait on one another
/// all round go together. Every task is dispatched in exactly one group,
/// and no group is empty.
pub fn compute_parallel_groups(tasks: &Vec<ScheduledTask>, deps: &Vec<Dep>) -> (groups: Vec<ParallelGroup>)
    ensures
        forall|i: int| 0 <= i < groups.len() ==> (#[trigger] groups@[i]).number == i + 1,
        group_views(groups@) == dispatch_plan(tasks@, deps@),
        forall|i: int| 0 <= i < groups.len() ==> (#[trigger] groups@[i]).tasks.len() > 0,
{
    let n = tasks.len();
    let mut placed: Vec<bool> = Vec::new();
    let mut i: usize = 0;
    while i < n
        invariant
            i <= n,
            n == tasks.len(),
            placed@ == Seq::new(i as nat, |j: int| false),
        decreases n - i,
    {
        placed.push(false);
        i = i + 1;
        assert(placed@ =~= Seq::new(i as nat, |j: int| false));
    }
    let ghost whole = dispatch_plan(tasks@, deps@);
    let mut groups: Vec<ParallelGroup> = Vec::new();
    let mut fuel: usize = n;
    let mut done = false;
    while fuel > 0 && !done
        invariant
            n == tasks.len(),
            placed.len() == n,
            fuel <= n,
            groups.len() + fuel == n,
            whole == dispatch_plan(tasks@, deps@),
            whole == group_views(groups@) + if done { seq![] } else { dispatch(tasks@, deps@, placed@, fuel as nat) },
            forall|g: int| 0 <= g < groups.len() ==> (#[trigger] groups@[g]).number == g + 1,
        decreases 2 * fuel + if done { 0int } else { 1int },
    {
        match least_key(tasks, &placed) {
            None => {
                done = true;
                assert(group_views(groups@) + seq![] =~= group_views(groups@));
            },
            Some(key) => {
                let mut any = false;
                let mut k: usize = 0;
                while k < n
                    invariant
                        n == tasks.len(),
                        placed.len() == n,
                        k <= n,
                        any <==> exists|j: int| 0 <= j < k && #[trigger] ready(tasks@, deps@, placed@, key, j),
                    decreases n - k,
                {
                    if is_ready(tasks, deps, &placed, key, k) {
                        any = true;
                    }
                    k = k + 1;
                }
                assert(any == some_ready(tasks@, deps@, placed@, key));
                let mut ids: Vec<String> = Vec::new();
                let mut next: Vec<bool> = Vec::new();
                let mut m: usize = 0;
                while m < n
                    invariant
                        n == tasks.len(),
                        placed.len() == n,
                        m <= n,
                        any == some_ready(tasks@, deps@, placed@, key),
                        string_views(ids@) == chosen_ids(tasks@, deps@, placed@, key, m as int),
                        next@ == place(tasks@, deps@, placed@, key).subrange(0, m as int),
                    decreases n - m,
                {
                    let take = if any {
                        is_ready(tasks, deps, &placed, key, m)
                    } else {
                        !placed[m] && tasks[m].start_key == key
                    };
                    assert(take == chosen(tasks@, deps@, placed@, key, m as int));
                    if take {
                        let ghost before = ids@;
                        ids.push(tasks[m].id.clone());
                        assert(string_views(ids@) =~= string_views(before).push(tasks@[m as int].id@));
                    }
                    next.push(placed[m] || take);
                    m = m + 1;
                    assert(next@ =~= place(tasks@, deps@, placed@, key).subrange(0, m as int));
                }
                assert(next@ =~= place(tasks@, deps@, placed@, key));
                let ghost old_views = group_views(groups@);
                let ghost rest = dispatch(tasks@, deps@, place(tasks@, deps@, placed@, key), (fuel - 1) as nat);
                let gr = ParallelGroup { number: groups.len() + 1, tasks: ids, start_key: key };
                groups.push(gr);
                assert(group_views(groups@) =~= old_views.push((key, chosen_ids(tasks@, deps@, placed@, key, n as int))));
                assert(old_views + dispatch(tasks@, deps@, placed@, fuel as nat) =~= group_views(groups@) + rest);
                placed = next;
                fuel = fuel - 1;
            },
        }
    }
    if !done {
        assert(group_views(groups@) + dispatch(tasks@, deps@, placed@, 0) =~= group_views(groups@));
    }
    proof {
        assert forall|i: int| 0 <= i < groups.len() implies (#[trigger] groups@[i]).tasks.len() > 0 by {
            lemma_groups_nonempty(tasks@, deps@, i);
            assert(group_views(groups@)[i] == group_view(groups@[i]));
            assert(string_views(groups@[i].tasks@).len() == groups@[i].tasks@.len());
        }
    }
    groups
}

// ---------------------------------------------------------------------------
// Every task is dispatched exactly once
// ---------------------------------------------------------------------------

/// The number of tasks among the first `k` not dispatched yet.
pub open spec fn count_unplaced(placed: Seq<bool>, k: int) -> nat
    decreases k,
{
    if k <= 0 {
        0
    } else {
        count_unplaced(placed, k - 1) + if placed[k - 1] { 0nat } else { 1nat }
    }
}

proof fn lemma_least_key(tasks: Seq<ScheduledTask>, placed: Seq<bool>, k: int)
    requires
        placed.len() == tasks.len(),
        0 <= k <= tasks.len(),
    ensures
        least_pending_key(tasks, placed, k) is None <==> forall|i: int| 0 <= i < k ==> placed[i],
        least_pending_key(tasks, placed, k) matches Some(m) ==> exists|i: int|
            0 <= i < k && !placed[i] && tasks[i].start_key == m,
        least_pending_key(tasks, placed, k) matches Some(m) ==> forall|i: int|
            0 <= i < k && !placed[i] ==> m <= tasks[i].start_key,
    decreases k,
{
    if k > 0 {
        lemma_least_key(tasks, placed, k - 1);
    }
}

proof fn lemma_count(a: Seq<bool>, b: Seq<bool>, k: int)
    requires
        a.len() == b.len(),
        0 <= k <= a.len(),
        forall|i: int| 0 <= i < k && a[i] ==> b[i],
    ensures
        count_unplaced(b, k) <= count_unplaced(a, k),
        (exists|i: int| 0 <= i < k && !a[i] && b[i]) ==> count_unplaced(b, k) < count_unplaced(a, k),
    decreases k,
{
    if k > 0 {
        lemma_count(a, b, k - 1);
        if exists|i: int| 0 <= i < k && !a[i] && b[i] {
            let i = choose|i: int| 0 <= i < k && !a[i] && b[i];
            if i < k - 1 {
                assert(exists|j: int| 0 <= j < k - 1 && !a[j] && b[j]);
            }
        }
    }
}

proof fn lemma_count_zero(placed: Seq<bool>, k: int)
    requires
        0 <= k <= placed.len(),
        count_unplaced(placed, k) == 0,
    ensures
        forall|i: int| 0 <= i < k ==> placed[i],
    decreases k,
{
    if k > 0 {
        lemma_count_zero(placed, k - 1);
    }
}

proof fn lemma_chosen_ids(tasks: Seq<ScheduledTask>, deps: Seq<Dep>, placed: Seq<bool>, key: i64, k: int)
    requires
        0 <= k <= tasks.len(),
    ensures
        forall|x: Seq<char>| #[trigger] chosen_ids(tasks, deps, placed, key, k).contains(x) <==> exists|i: int|
            0 <= i < k && chosen(tasks, deps, placed, key, i) && tasks[i].id@ == x,
    decreases k,
{
    if k > 0 {
        lemma_chosen_ids(tasks, deps, placed, key, k - 1);
        let p = chosen_ids(tasks, deps, placed, key, k - 1);
        let q = chosen_ids(tasks, deps, placed, key, k);
        assert forall|x: Seq<char>| #[trigger] q.contains(x) implies exists|i: int|
            0 <= i < k && chosen(tasks, deps, placed, key, i) && tasks[i].id@ == x by {
            let j = choose|j: int| 0 <= j < q.len() && q[j] == x;
            if j < p.len() {
                assert(q[j] == p[j]);
                assert(p.contains(x));
                let i = choose|i: int| 0 <= i < k - 1 && chosen(tasks, deps, placed, key, i) && tasks[i].id@ == x;
                assert(0 <= i < k && chosen(tasks, deps, placed, key, i) && tasks[i].id@ == x);
            } else {
                assert(chosen(tasks, deps, placed, key, k - 1) && tasks[k - 1].id@ == x);
            }
        }
        assert forall|x: Seq<char>| (exists|i: int|
            0 <= i < k && chosen(tasks, deps, placed, key, i) && tasks[i].id@ == x) implies #[trigger] q.contains(x) by {
            let i = choose|i: int| 0 <= i < k && chosen(tasks, deps, placed, key, i) && tasks[i].id@ == x;
            if i < k - 1 {
                assert(exists|i2: int| 0 <= i2 < k - 1 && chosen(tasks, deps, placed, key, i2) && tasks[i2].id@ == x);
                assert(p.contains(x));
                let j = choose|j: int| 0 <= j < p.len() && p[j] == x;
                if chosen(tasks, deps, placed, key, k - 1) {
                    assert(q[j] == x);
                }
            } else {
                assert(q[p.len() as int] == x);
            }
        }
    }
}

/// What one round of dispatch does to the mask: it adds the tasks taken,
/// at least one when some task is pending.
proof fn lemma_round(tasks: Seq<ScheduledTask>, deps: Seq<Dep>, placed: Seq<bool>, key: i64)
    requires
        placed.len() == tasks.len(),
        least_pending_key(tasks, placed, tasks.len() as int) == Some(key),
    ensures
        forall|i: int| 0 <= i < tasks.len() ==> (#[trigger] place(tasks, deps, placed, key)[i] <==> (placed[i]
            || chosen(tasks, deps, placed, key, i))),
        forall|i: int| 0 <= i < tasks.len() && #[trigger] chosen(tasks, deps, placed, key, i) ==> !placed[i]
            && tasks[i].start_key == key,
        count_unplaced(place(tasks, deps, placed, key), tasks.len() as int) < count_unplaced(placed, tasks.len() as int),
        exists|i: int| 0 <= i < tasks.len() && #[trigger] chosen(tasks, deps, placed, key, i),
{
    let n = tasks.len() as int;
    let nx = place(tasks, deps, placed, key);
    lemma_least_key(tasks, placed, n);
    let i0 = choose|i: int| 0 <= i < n && !placed[i] && tasks[i].start_key == key;
    assert(pending(tasks, placed, key, i0));
    let w = if some_ready(tasks, deps, placed, key) {
        choose|i: int| #[trigger] ready(tasks, deps, placed, key, i)
    } else {
        i0
    };
    assert(chosen(tasks, deps, placed, key, w));
    assert(0 <= w < n);
    assert(!placed[w] && nx[w]);
    lemma_count(placed, nx, n);
}

/// Whether no two tasks share an id.
pub open spec fn ids_distinct(tasks: Seq<ScheduledTask>) -> bool {
    forall|i: int, j: int|
        0 <= i < tasks.len() && 0 <= j < tasks.len() && i != j ==> #[trigger] tasks[i].id@ != #[trigger] tasks[j].id@
}

proof fn lemma_dispatch_partition(tasks: Seq<ScheduledTask>, deps: Seq<Dep>, placed: Seq<bool>, fuel: nat)
    requires
        placed.len() == tasks.len(),
        ids_distinct(tasks),
        count_unplaced(placed, tasks.len() as int) <= fuel,
    ensures
        ({
            let d = dispatch(tasks, deps, placed, fuel);
            &&& forall|i: int| #![trigger tasks[i]] 0 <= i < tasks.len() && !placed[i] ==> exists|g: int|
                0 <= g < d.len() && (#[trigger] d[g]).1.contains(tasks[i].id@)
            &&& forall|g: int, x: Seq<char>| 0 <= g < d.len() && #[trigger] d[g].1.contains(x) ==> exists|i: int|
                0 <= i < tasks.len() && !placed[i] && tasks[i].id@ == x && tasks[i].start_key == d[g].0
            &&& forall|g1: int, g2: int, x: Seq<char>|
                0 <= g1 < d.len() && 0 <= g2 < d.len() && #[trigger] d[g1].1.contains(x) && #[trigger] d[g2].1.contains(x)
                    ==> g1 == g2
        }),
    decreases fuel,
{
    let n = tasks.len() as int;
    let d = dispatch(tasks, deps, placed, fuel);
    lemma_least_key(tasks, placed, n);
    if fuel == 0 {
        lemma_count_zero(placed, n);
    } else {
        match least_pending_key(tasks, placed, n) {
            None => {},
            Some(key) => {
                let nx = place(tasks, deps, placed, key);
                lemma_round(tasks, deps, placed, key);
                lemma_dispatch_partition(tasks, deps, nx, (fuel - 1) as nat);
                lemma_chosen_ids(tasks, deps, placed, key, n);
                let ids = chosen_ids(tasks, deps, placed, key, n);
                let r = dispatch(tasks, deps, nx, (fuel - 1) as nat);
                assert(d == seq![(key, ids)] + r);
                assert(d[0] == (key, ids));
                assert forall|g: int| 1 <= g < d.len() implies d[g] == r[g - 1] by {}
                assert forall|i: int| 0 <= i < n && !placed[i] implies exists|g: int|
                    0 <= g < d.len() && (#[trigger] d[g]).1.contains(tasks[i].id@) by {
                    if chosen(tasks, deps, placed, key, i) {
                        assert(ids.contains(tasks[i].id@));
                        assert(d[0].1.contains(tasks[i].id@));
                    } else {
                        assert(!nx[i]);
                        let g = choose|g: int| 0 <= g < r.len() && (#[trigger] r[g]).1.contains(tasks[i].id@);
                        assert(d[g + 1] == r[g]);
                    }
                }
                assert forall|g: int, x: Seq<char>| 0 <= g < d.len() && #[trigger] d[g].1.contains(x) implies exists|i: int|
                    0 <= i < n && !placed[i] && tasks[i].id@ == x && tasks[i].start_key == d[g].0 by {
                    if g == 0 {
                        let i = choose|i: int| 0 <= i < n && chosen(tasks, deps, placed, key, i) && tasks[i].id@ == x;
                        assert(!placed[i] && tasks[i].start_key == key);
                    } else {
                        assert(d[g] == r[g - 1]);
                        assert(r[g - 1].1.contains(x));
                        let i = choose|i: int| 0 <= i < n && !nx[i] && tasks[i].id@ == x && tasks[i].start_key == r[g - 1].0;
                        assert(!placed[i]);
                    }
                }
                assert forall|g1: int, g2: int, x: Seq<char>|
                    0 <= g1 < d.len() && 0 <= g2 < d.len() && #[trigger] d[g1].1.contains(x) && #[trigger] d[g2].1.contains(x)
                        implies g1 == g2 by {
                    if g1 == 0 && g2 > 0 {
                        let i = choose|i: int| 0 <= i < n && chosen(tasks, deps, placed, key, i) && tasks[i].id@ == x;
                        assert(d[g2] == r[g2 - 1]);
                        assert(r[g2 - 1].1.contains(x));
                        let j = choose|j: int| 0 <= j < n && !nx[j] && tasks[j].id@ == x && tasks[j].start_key == r[g2 - 1].0;
                        assert(nx[i]);
                    } else if g2 == 0 && g1 > 0 {
                        let i = choose|i: int| 0 <= i < n && chosen(tasks, deps, placed, key, i) && tasks[i].id@ == x;
                        assert(d[g1] == r[g1 - 1]);
                        assert(r[g1 - 1].1.contains(x));
                        let j = choose|j: int| 0 <= j < n && !nx[j] && tasks[j].id@ == x && tasks[j].start_key == r[g1 - 1].0;
                        assert(nx[i]);
                    } else if g1 > 0 && g2 > 0 {
                        assert(d[g1] == r[g1 - 1]);
                        assert(d[g2] == r[g2 - 1]);
                        assert(r[g1 - 1].1.contains(x) && r[g2 - 1].1.contains(x));
                    }
                }
            },
        }
    }
}

/// Every task of a plan is dispatched in exactly one parallel group (ids
/// being distinct), every group holds only tasks of the plan, and all the
/// tasks of a group start at its start key.
pub proof fn lemma_every_task_dispatched_once(tasks: Seq<ScheduledTask>, deps: Seq<Dep>)
    requires
        ids_distinct(tasks),
    ensures
        ({
            let d = dispatch_plan(tasks, deps);
            &&& forall|i: int| #![trigger tasks[i]] 0 <= i < tasks.len() ==> exists|g: int|
                0 <= g < d.len() && (#[trigger] d[g]).1.contains(tasks[i].id@)
            &&& forall|g1: int, g2: int, x: Seq<char>|
                0 <= g1 < d.len() && 0 <= g2 < d.len() && #[trigger] d[g1].1.contains(x) && #[trigger] d[g2].1.contains(x)
                    ==> g1 == g2
            &&& forall|g: int, x: Seq<char>| 0 <= g < d.len() && #[trigger] d[g].1.contains(x) ==> exists|i: int|
                0 <= i < tasks.len() && tasks[i].id@ == x && tasks[i].start_key == d[g].0
        }),
{
    let z = none_placed(tasks.len());
    assert forall|i: int| 0 <= i < tasks.len() implies !z[i] by {}
    lemma_count_bound(z, tasks.len() as int);
    lemma_dispatch_partition(tasks, deps, z, tasks.len());
    let d = dispatch_plan(tasks, deps);
    assert forall|i: int| #![trigger tasks[i]] 0 <= i < tasks.len() implies exists|g: int|
        0 <= g < d.len() && (#[trigger] d[g]).1.contains(tasks[i].id@) by {
        assert(!z[i]);
    }
}

proof fn lemma_count_bound(placed: Seq<bool>, k: int)
    requires
        0 <= k <= placed.len(),
    ensures
        count_unplaced(placed, k) <= k,
    decreases k,
{
    if k > 0 {
        lemma_count_bound(placed, k - 1);
    }
}

// ---------------------------------------------------------------------------
// Independence and order of the groups
// ---------------------------------------------------------------------------

/// A dependency between two different tasks with the same start, by task
/// position.
pub open spec fn same_start_edge(tasks: Seq<ScheduledTask>, deps: Seq<Dep>) -> spec_fn(int, int) -> bool {
    |u: int, v: int|
        0 <= u < tasks.len() && 0 <= v < tasks.len() && tasks[u].start_key == tasks[v].start_key
            && tasks[u].id@ != tasks[v].id@ && has_dep(deps, tasks[u].id@, tasks[v].id@)
}

/// A pending task that task `j` waits on, when there is one.
spec fn blocker(tasks: Seq<ScheduledTask>, deps: Seq<Dep>, placed: Seq<bool>, key: i64, j: int) -> int {
    choose|o: int|
        pending(tasks, placed, key, o) && tasks[o].id@ != tasks[j].id@ && has_dep(deps, tasks[o].id@, tasks[j].id@)
}

/// Following blockers back `k` steps from task `i`.
spec fn back(tasks: Seq<ScheduledTask>, deps: Seq<Dep>, placed: Seq<bool>, key: i64, i: int, k: nat) -> int
    decreases k,
{
    if k == 0 {
        i
    } else {
        blocker(tasks, deps, placed, key, back(tasks, deps, placed, key, i, (k - 1) as nat))
    }
}

proof fn lemma_back(tasks: Seq<ScheduledTask>, deps: Seq<Dep>, placed: Seq<bool>, key: i64, i: int, k: nat)
    requires
        pending(tasks, placed, key, i),
        !some_ready(tasks, deps, placed, key),
    ensures
        pending(tasks, placed, key, back(tasks, deps, placed, key, i, k)),
        k > 0 ==> same_start_edge(tasks, deps)(
            back(tasks, deps, placed, key, i, k),
            back(tasks, deps, placed, key, i, (k - 1) as nat),
        ),
    decreases k,
{
    if k > 0 {
        lemma_back(tasks, deps, placed, key, i, (k - 1) as nat);
        let j = back(tasks, deps, placed, key, i, (k - 1) as nat);
        assert(!ready(tasks, deps, placed, key, j));
        assert(waits_on_pending(tasks, deps, placed, j));
        assert(tasks[j].start_key == key);
        let o = choose|o: int|
            #[trigger] pending(tasks, placed, tasks[j].start_key, o) && tasks[o].id@ != tasks[j].id@
                && has_dep(deps, tasks[o].id@, tasks[j].id@);
        assert(pending(tasks, placed, key, o) && tasks[o].id@ != tasks[j].id@ && has_dep(
            deps,
            tasks[o].id@,
            tasks[j].id@,
        ));
    }
}

proof fn lemma_pigeonhole(w: Seq<int>, n: int)
    requires
        0 <= n < w.len(),
        forall|k: int| 0 <= k < w.len() ==> 0 <= #[trigger] w[k] < n,
    ensures
        exists|a: int, b: int| 0 <= a < b < w.len() && w[a] == w[b],
{
    if !(exists|a: int, b: int| 0 <= a < b < w.len() && w[a] == w[b]) {
        assert(w.no_duplicates()) by {
            assert forall|i: int, j: int| 0 <= i < w.len() && 0 <= j < w.len() && i != j implies w[i] != w[j] by {
                if i < j {
                    assert(!(w[i] == w[j]));
                } else {
                    assert(!(w[j] == w[i]));
                }
            }
        }
        w.unique_seq_to_set();
        vstd::set_lib::lemma_int_range(0, n);
        assert(w.to_set().subset_of(vstd::set_lib::set_int_range(0, n))) by {
            assert forall|x: int| w.to_set().contains(x) implies vstd::set_lib::set_int_range(0, n).contains(x) by {
                let i = choose|i: int| 0 <= i < w.len() && w[i] == x;
                assert(0 <= w[i] < n);
            }
        }
        vstd::set_lib::lemma_len_subset(w.to_set(), vstd::set_lib::set_int_range(0, n));
    }
}

/// When the tasks with the same start have no dependency cycle, some
/// pending task waits on no other.
proof fn lemma_ready_exists(tasks: Seq<ScheduledTask>, deps: Seq<Dep>, placed: Seq<bool>, key: i64, i: int)
    requires
        placed.len() == tasks.len(),
        !has_cycle_of(same_start_edge(tasks, deps)),
        pending(tasks, placed, key, i),
    ensures
        some_ready(tasks, deps, placed, key),
{
    if !some_ready(tasks, deps, placed, key) {
        let n = tasks.len() as int;
        let edge = same_start_edge(tasks, deps);
        let w = Seq::new((n + 1) as nat, |k: int| back(tasks, deps, placed, key, i, k as nat));
        assert forall|k: int| 0 <= k < w.len() implies 0 <= #[trigger] w[k] < n by {
            lemma_back(tasks, deps, placed, key, i, k as nat);
        }
        lemma_pigeonhole(w, n);
        let (a, b) = choose|a: int, b: int| 0 <= a < b < w.len() && w[a] == w[b];
        let c = Seq::new((b - a) as nat, |j: int| w[b - j]);
        assert forall|j: int| 0 <= j < c.len() - 1 implies #[trigger] edge(c[j], c[j + 1]) by {
            lemma_back(tasks, deps, placed, key, i, (b - j) as nat);
            assert(c[j] == w[b - j] && c[j + 1] == w[b - j - 1]);
        }
        lemma_back(tasks, deps, placed, key, i, (a + 1) as nat);
        assert(c.last() == w[a + 1]);
        assert(c[0] == w[b]);
        assert(edge(c.last(), c[0]));
        assert(is_cycle_of(edge, c));
    }
}

proof fn lemma_dispatch_independent(tasks: Seq<ScheduledTask>, deps: Seq<Dep>, placed: Seq<bool>, fuel: nat)
    requires
        placed.len() == tasks.len(),
        !has_cycle_of(same_start_edge(tasks, deps)),
    ensures
        ({
            let d = dispatch(tasks, deps, placed, fuel);
            forall|g: int, a: Seq<char>, b: Seq<char>|
                0 <= g < d.len() && #[trigger] d[g].1.contains(a) && #[trigger] d[g].1.contains(b) && a != b
                    ==> !has_dep(deps, a, b)
        }),
    decreases fuel,
{
    let n = tasks.len() as int;
    let d = dispatch(tasks, deps, placed, fuel);
    if fuel > 0 {
        match least_pending_key(tasks, placed, n) {
            None => {},
            Some(key) => {
                let nx = place(tasks, deps, placed, key);
                lemma_dispatch_independent(tasks, deps, nx, (fuel - 1) as nat);
                lemma_chosen_ids(tasks, deps, placed, key, n);
                lemma_least_key(tasks, placed, n);
                let i0 = choose|i: int| 0 <= i < n && !placed[i] && tasks[i].start_key == key;
                lemma_ready_exists(tasks, deps, placed, key, i0);
                let ids = chosen_ids(tasks, deps, placed, key, n);
                let r = dispatch(tasks, deps, nx, (fuel - 1) as nat);
                assert(d == seq![(key, ids)] + r);
                assert forall|g: int, a: Seq<char>, b: Seq<char>|
                    0 <= g < d.len() && #[trigger] d[g].1.contains(a) && #[trigger] d[g].1.contains(b) && a != b
                        implies !has_dep(deps, a, b) by {
                    if g == 0 {
                        assert(d[0].1 == ids);
                        let ia = choose|ia: int| 0 <= ia < n && chosen(tasks, deps, placed, key, ia) && tasks[ia].id@ == a;
                        let ib = choose|ib: int| 0 <= ib < n && chosen(tasks, deps, placed, key, ib) && tasks[ib].id@ == b;
                        assert(ready(tasks, deps, placed, key, ib));
                        if has_dep(deps, a, b) {
                            assert(pending(tasks, placed, tasks[ib].start_key, ia));
                            assert(waits_on_pending(tasks, deps, placed, ib));
                        }
                    } else {
                        assert(d[g] == r[g - 1]);
                        assert(r[g - 1].1.contains(a) && r[g - 1].1.contains(b));
                    }
                }
            },
        }
    }
}

/// Within a parallel group no task depends on another task of the group,
/// provided the tasks that start together have no dependency cycle among
/// them.
pub proof fn lemma_group_independent(tasks: Seq<ScheduledTask>, deps: Seq<Dep>, g: int, a: Seq<char>, b: Seq<char>)
    requires
        !has_cycle_of(same_start_edge(tasks, deps)),
        0 <= g < dispatch_plan(tasks, deps).len(),
        dispatch_plan(tasks, deps)[g].1.contains(a),
        dispatch_plan(tasks, deps)[g].1.contains(b),
        a != b,
    ensures
        !has_dep(deps, a, b),
{
    lemma_dispatch_independent(tasks, deps, none_placed(tasks.len()), tasks.len());
}

proof fn lemma_dispatch_order(
    tasks: Seq<ScheduledTask>,
    deps: Seq<Dep>,
    placed: Seq<bool>,
    fuel: nat,
    p: Seq<char>,
    s: Seq<char>,
    ga: int,
    gb: int,
)
    requires
        placed.len() == tasks.len(),
        ids_distinct(tasks),
        count_unplaced(placed, tasks.len() as int) <= fuel,
        !has_cycle_of(same_start_edge(tasks, deps)),
        forall|i: int, j: int|
            0 <= i < tasks.len() && 0 <= j < tasks.len() && has_dep(deps, #[trigger] tasks[i].id@, #[trigger] tasks[j].id@)
                ==> tasks[i].start_key <= tasks[j].start_key,
        has_dep(deps, p, s),
        p != s,
        0 <= ga < dispatch(tasks, deps, placed, fuel).len(),
        0 <= gb < dispatch(tasks, deps, placed, fuel).len(),
        dispatch(tasks, deps, placed, fuel)[ga].1.contains(p),
        dispatch(tasks, deps, placed, fuel)[gb].1.contains(s),
    ensures
        ga < gb,
    decreases fuel,
{
    let n = tasks.len() as int;
    let d = dispatch(tasks, deps, placed, fuel);
    if fuel > 0 {
        match least_pending_key(tasks, placed, n) {
            None => {},
            Some(key) => {
                let nx = place(tasks, deps, placed, key);
                let ids = chosen_ids(tasks, deps, placed, key, n);
                let r = dispatch(tasks, deps, nx, (fuel - 1) as nat);
                assert(d == seq![(key, ids)] + r);
                lemma_round(tasks, deps, placed, key);
                lemma_chosen_ids(tasks, deps, placed, key, n);
                lemma_least_key(tasks, placed, n);
                if ga == 0 && gb == 0 {
                    lemma_dispatch_independent(tasks, deps, placed, fuel);
                    assert(d[0].1.contains(p) && d[0].1.contains(s));
                } else if gb == 0 {
                    let i0 = choose|i: int| 0 <= i < n && !placed[i] && tasks[i].start_key == key;
                    lemma_ready_exists(tasks, deps, placed, key, i0);
                    assert(d[0].1 == ids);
                    let js = choose|j: int| 0 <= j < n && chosen(tasks, deps, placed, key, j) && tasks[j].id@ == s;
                    assert(ready(tasks, deps, placed, key, js));
                    lemma_dispatch_partition(tasks, deps, nx, (fuel - 1) as nat);
                    assert(d[ga] == r[ga - 1]);
                    assert(r[ga - 1].1.contains(p));
                    let ip = choose|i: int| 0 <= i < n && !nx[i] && tasks[i].id@ == p && tasks[i].start_key == r[ga - 1].0;
                    assert(!placed[ip]);
                    assert(key <= tasks[ip].start_key);
                    assert(tasks[ip].start_key <= tasks[js].start_key);
                    assert(pending(tasks, placed, tasks[js].start_key, ip));
                    assert(waits_on_pending(tasks, deps, placed, js));
                } else if ga > 0 {
                    lemma_dispatch_order(tasks, deps, nx, (fuel - 1) as nat, p, s, ga - 1, gb - 1);
                    assert(d[ga] == r[ga - 1]);
                    assert(d[gb] == r[gb - 1]);
                }
            },
        }
    }
}

/// Dispatching the groups in order respects every dependency: when no task
/// starts before a task it depends on (as the critical path method schedules
/// them) and the tasks that start together have no dependency cycle, the
/// group of a predecessor comes before the group of its successor.
pub proof fn lemma_groups_respect_dependencies(
    tasks: Seq<ScheduledTask>,
    deps: Seq<Dep>,
    p: Seq<char>,
    s: Seq<char>,
    ga: int,
    gb: int,
)
    requires
        ids_distinct(tasks),
        !has_cycle_of(same_start_edge(tasks, deps)),
        forall|i: int, j: int|
            0 <= i < tasks.len() && 0 <= j < tasks.len() && has_dep(deps, #[trigger] tasks[i].id@, #[trigger] tasks[j].id@)
                ==> tasks[i].start_key <= tasks[j].start_key,
        has_dep(deps, p, s),
        p != s,
        0 <= ga < dispatch_plan(tasks, deps).len(),
        0 <= gb < dispatch_plan(tasks, deps).len(),
        dispatch_plan(tasks, deps)[ga].1.contains(p),
        dispatch_plan(tasks, deps)[gb].1.contains(s),
    ensures
        ga < gb,
{
    let z = none_placed(tasks.len());
    lemma_count_bound(z, tasks.len() as int);
    lemma_dispatch_order(tasks, deps, z, tasks.len(), p, s, ga, gb);
}

proof fn lemma_dispatch_keys(tasks: Seq<ScheduledTask>, deps: Seq<Dep>, placed: Seq<bool>, fuel: nat)
    requires
        placed.len() == tasks.len(),
    ensures
        ({
            let d = dispatch(tasks, deps, placed, fuel);
            forall|g: int| 0 <= g < d.len() - 1 ==> (#[trigger] d[g]).0 <= d[g + 1].0
        }),
    decreases fuel,
{
    let n = tasks.len() as int;
    let d = dispatch(tasks, deps, placed, fuel);
    if fuel > 0 {
        match least_pending_key(tasks, placed, n) {
            None => {},
            Some(key) => {
                let nx = place(tasks, deps, placed, key);
                let ids = chosen_ids(tasks, deps, placed, key, n);
                let r = dispatch(tasks, deps, nx, (fuel - 1) as nat);
                assert(d == seq![(key, ids)] + r);
                lemma_dispatch_keys(tasks, deps, nx, (fuel - 1) as nat);
                lemma_round(tasks, deps, placed, key);
                lemma_least_key(tasks, placed, n);
                lemma_least_key(tasks, nx, n);
                if r.len() > 0 {
                    let (k1, _) = r[0];
                    assert(fuel - 1 > 0);
                    assert(least_pending_key(tasks, nx, n) == Some(k1));
                    let i = choose|i: int| 0 <= i < n && !nx[i] && tasks[i].start_key == k1;
                    assert(!placed[i]);
                }
                assert forall|g: int| 0 <= g < d.len() - 1 implies (#[trigger] d[g]).0 <= d[g + 1].0 by {
                    if g == 0 {
                        assert(d[1] == r[0]);
                    } else {
                        assert(d[g] == r[g - 1]);
                        assert(d[g + 1] == r[g]);
                    }
                }
            },
        }
    }
}

/// The groups come in order of start: each starts no earlier than the one
/// before it.
pub proof fn lemma_group_starts_rise(tasks: Seq<ScheduledTask>, deps: Seq<Dep>, g: int)
    requires
        0 <= g < dispatch_plan(tasks, deps).len() - 1,
    ensures
        dispatch_plan(tasks, deps)[g].0 <= dispatch_plan(tasks, deps)[g + 1].0,
{
    lemma_dispatch_keys(tasks, deps, none_placed(tasks.len()), tasks.len());
}

proof fn lemma_dispatch_nonempty(tasks: Seq<ScheduledTask>, deps: Seq<Dep>, placed: Seq<bool>, fuel: nat)
    requires
        placed.len() == tasks.len(),
    ensures
        ({
            let d = dispatch(tasks, deps, placed, fuel);
            forall|g: int| 0 <= g < d.len() ==> (#[trigger] d[g]).1.len() > 0
        }),
    decreases fuel,
{
    let n = tasks.len() as int;
    let d = dispatch(tasks, deps, placed, fuel);
    if fuel > 0 {
        match least_pending_key(tasks, placed, n) {
            None => {},
            Some(key) => {
                let nx = place(tasks, deps, placed, key);
                let ids = chosen_ids(tasks, deps, placed, key, n);
                let r = dispatch(tasks, deps, nx, (fuel - 1) as nat);
                assert(d == seq![(key, ids)] + r);
                lemma_dispatch_nonempty(tasks, deps, nx, (fuel - 1) as nat);
                lemma_round(tasks, deps, placed, key);
                lemma_chosen_ids(tasks, deps, placed, key, n);
                let w = choose|i: int| 0 <= i < n && #[trigger] chosen(tasks, deps, placed, key, i);
                assert(ids.contains(tasks[w].id@));
                assert forall|g: int| 0 <= g < d.len() implies (#[trigger] d[g]).1.len() > 0 by {
                    if g == 0 {
                        assert(d[0] == (key, ids));
                    } else {
                        assert(d[g] == r[g - 1]);
                    }
                }
            },
        }
    }
}

/// No parallel group is empty: each round dispatches at least one task.
pub proof fn lemma_groups_nonempty(tasks: Seq<ScheduledTask>, deps: Seq<Dep>, g: int)
    requires
        0 <= g < dispatch_plan(tasks, deps).len(),
    ensures
        dispatch_plan(tasks, deps)[g].1.len() > 0,
{
    lemma_dispatch_nonempty(tasks, deps, none_placed(tasks.len()), tasks.len());
}

} // verus!
