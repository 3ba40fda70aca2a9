//! What sprint planning reads of a plan and reports back: each task's
//! blockers and priority, the tasks left out of a sprint, and the people
//! affected by an overcommitted day.

use vstd::prelude::*;

use crate::graph::Dep;
use crate::kinds::{activity_priority, task_priority, TaskPriority};
use crate::text::{contains_str, lemma_lex_total, lemma_lex_transitive, lex_less, lex_lt, str_eq, string_views};

verus! {

/// The predecessors of task `id` among `deps`, in dependency order.
pub open spec fn blockers(deps: Seq<Dep>, id: Seq<char>) -> Seq<Seq<char>>
    decreases deps.len(),
{
    if deps.len() == 0 {
        seq![]
    } else if deps.last().successor@ == id {
        blockers(deps.drop_last(), id).push(deps.last().predecessor@)
    } else {
        blockers(deps.drop_last(), id)
    }
}

/// The tasks that block task `id`: the predecessors of its dependencies.
pub fn blocked_by(deps: &Vec<Dep>, id: &str) -> (r: Vec<String>)
    ensures
        string_views(r@) == blockers(deps@, id@),
{
    let mut r: Vec<String> = Vec::new();
    let mut i: usize = 0;
    while i < deps.len()
        invariant
            i <= deps.len(),
            string_views(r@) == blockers(deps@.subrange(0, i as int), id@),
        decreases deps.len() - i,
    {
        assert(deps@.subrange(0, i + 1).drop_last() =~= deps@.subrange(0, i as int));
        if str_eq(deps[i].successor.as_str(), id) {
            let ghost before = r@;
            r.push(deps[i].predecessor.clone());
            assert(string_views(r@) =~= string_views(before).push(deps@[i as int].predecessor@));
        }
        i = i + 1;
    }
    assert(deps@.subrange(0, deps.len() as int) =~= deps@);
    r
}

/// What sprint planning reads of a task: its id, its `priority` field when
/// that holds a string, and its description.
#[derive(Debug, Clone)]
pub struct SprintActivity {
    pub id: String,
    pub priority_field: Option<String>,
    pub description: Option<String>,
}

/// A task as sprint planning sees it: who blocks it and how urgent it is.
#[derive(Debug, Clone)]
pub struct SprintTask {
    pub id: String,
    pub blocked_by: Vec<String>,
    pub priority: TaskPriority,
}

/// The text of an optional string.
pub open spec fn opt_view(s: Option<String>) -> Option<Seq<char>> {
    match s {
        Some(x) => Some(x@),
        None => None,
    }
}

/// Whether `t` is the sprint view of activity `a` under `deps`.
pub open spec fn sprint_view_of(t: SprintTask, a: SprintActivity, deps: Seq<Dep>) -> bool {
    &&& t.id@ == a.id@
    &&& string_views(t.blocked_by@) == blockers(deps, a.id@)
    &&& t.priority == task_priority(opt_view(a.priority_field), opt_view(a.description))
}

/// The sprint view of each activity, in order.
pub fn sprint_tasks(acts: &Vec<SprintActivity>, deps: &Vec<Dep>) -> (r: Vec<SprintTask>)
    ensures
        r.len() == acts.len(),
        forall|i: int| 0 <= i < acts.len() ==> sprint_view_of(#[trigger] r@[i], acts@[i], deps@),
{
    let mut r: Vec<SprintTask> = Vec::new();
    let mut i: usize = 0;
    while i < acts.len()
        invariant
            i <= acts.len(),
            r.len() == i,
            forall|k: int| 0 <= k < i ==> sprint_view_of(#[trigger] r@[k], acts@[k], deps@),
        decreases acts.len() - i,
    {
        let a = &acts[i];
        let field: Option<&str> = match &a.priority_field {
            Some(p) => Some(p.as_str()),
            None => None,
        };
        let desc: Option<&str> = match &a.description {
            Some(d) => Some(d.as_str()),
            None => None,
        };
        let priority = activity_priority(field, desc);
        let t = SprintTask { id: a.id.clone(), blocked_by: blocked_by(deps, a.id.as_str()), priority };
        r.push(t);
        i = i + 1;
    }
    r
}

/// A task's id and whether it is done.
#[derive(Debug, Clone)]
pub struct TaskProgress {
    pub id: String,
    pub completed: bool,
}

/// The open tasks among the first `k` of `tasks` that `selected` leaves
/// out, in order.
pub open spec fn left_out(tasks: Seq<TaskProgress>, selected: Seq<Seq<char>>, k: int) -> Seq<Seq<char>>
    decreases k,
{
    if k <= 0 {
        seq![]
    } else if !tasks[k - 1].completed && !selected.contains(tasks[k - 1].id@) {
        left_out(tasks, selected, k - 1).push(tasks[k - 1].id@)
    } else {
        left_out(tasks, selected, k - 1)
    }
}

/// The tasks a sprint drops: those not completed and not selected.
pub fn dropped_tasks(tasks: &Vec<TaskProgress>, selected: &Vec<String>) -> (r: Vec<String>)
    ensures
        string_views(r@) == left_out(tasks@, string_views(selected@), tasks.len() as int),
{
    let mut r: Vec<String> = Vec::new();
    let mut i: usize = 0;
    while i < tasks.len()
        invariant
            i <= tasks.len(),
            string_views(r@) == left_out(tasks@, string_views(selected@), i as int),
        decreases tasks.len() - i,
    {
        let t = &tasks[i];
        if !t.completed && !contains_str(selected, t.id.as_str()) {
            let ghost before = r@;
            r.push(t.id.clone());
            assert(string_views(r@) =~= string_views(before).push(t.id@));
        }
        i = i + 1;
    }
    r
}

/// `descoped` followed by the ids of `extra` it does not hold yet, each
/// once, in order.
pub open spec fn merged(descoped: Seq<Seq<char>>, extra: Seq<Seq<char>>) -> Seq<Seq<char>>
    decreases extra.len(),
{
    if extra.len() == 0 {
        descoped
    } else {
        let m = merged(descoped, extra.drop_last());
        if m.contains(extra.last()) {
            m
        } else {
            m.push(extra.last())
        }
    }
}

/// Adds to the descoped tasks those the schedule could not fit, skipping
/// any already there.
pub fn merge_unscheduled(descoped: &mut Vec<String>, unscheduled: &Vec<String>)
    ensures
        string_views(final(descoped)@) == merged(string_views(old(descoped)@), string_views(unscheduled@)),
{
    let ghost start = string_views(descoped@);
    let mut i: usize = 0;
    while i < unscheduled.len()
        invariant
            i <= unscheduled.len(),
            string_views(descoped@) == merged(start, string_views(unscheduled@.subrange(0, i as int))),
        decreases unscheduled.len() - i,
    {
        assert(string_views(unscheduled@.subrange(0, i + 1)).drop_last() =~= string_views(
            unscheduled@.subrange(0, i as int),
        ));
        let id = &unscheduled[i];
        if !contains_str(descoped, id.as_str()) {
            let ghost before = descoped@;
            descoped.push(id.clone());
            assert(string_views(descoped@) =~= string_views(before).push(id@));
        }
        i = i + 1;
    }
    assert(unscheduled@.subrange(0, unscheduled.len() as int) =~= unscheduled@);
}

// ---------------------------------------------------------------------------
// Overcommitment: the people affected
// ---------------------------------------------------------------------------

/// A task's id and the person it is assigned to, if any.
#[derive(Debug, Clone)]
pub struct TaskOwner {
    pub id: String,
    pub assignee: Option<String>,
}

/// The assignee of the last task of `owners` with id `id`, if that task has
/// one (a later entry for an id replaces an earlier one).
pub open spec fn owner_of(owners: Seq<TaskOwner>, id: Seq<char>) -> Option<Seq<char>>
    decreases owners.len(),
{
    if owners.len() == 0 {
        None
    } else if owners.last().id@ == id {
        opt_view(owners.last().assignee)
    } else {
        owner_of(owners.drop_last(), id)
    }
}

/// Whether `s` is strictly increasing: sorted, and nothing twice.
pub open spec fn strictly_sorted(s: Seq<Seq<char>>) -> bool {
    forall|i: int, j: int| 0 <= i < j < s.len() ==> lex_lt(#[trigger] s[i], #[trigger] s[j])
}

/// Whether `a` is the assignee of a task that some warning names.
pub open spec fn affected(warnings: Seq<Seq<String>>, owners: Seq<TaskOwner>, a: Seq<char>) -> bool {
    exists|w: int, t: int|
        0 <= w < warnings.len() && 0 <= t < warnings[w].len() && #[trigger] owner_of(owners, warnings[w][t]@)
            == Some(a)
}

fn owner_lookup(owners: &Vec<TaskOwner>, id: &str) -> (r: Option<String>)
    ensures
        opt_view(r) == owner_of(owners@, id@),
{
    let mut r: Option<String> = None;
    let mut found = false;
    let mut i: usize = 0;
    while i < owners.len()
        invariant
            i <= owners.len(),
            found ==> opt_view(r) == owner_of(owners@.subrange(0, i as int), id@),
            !found ==> r is None && owner_of(owners@.subrange(0, i as int), id@) is None
                && forall|k: int| 0 <= k < i ==> (#[trigger] owners@[k]).id@ != id@,
        decreases owners.len() - i,
    {
        assert(owners@.subrange(0, i + 1).drop_last() =~= owners@.subrange(0, i as int));
        if str_eq(owners[i].id.as_str(), id) {
            r = owners[i].assignee.clone();
            found = true;
        } else if found {
            proof { lemma_owner_of_skip(owners@.subrange(0, i + 1), id@); }
        }
        i = i + 1;
    }
    assert(owners@.subrange(0, owners.len() as int) =~= owners@);
    r
}

proof fn lemma_owner_of_skip(owners: Seq<TaskOwner>, id: Seq<char>)
    requires
        owners.len() > 0,
        owners.last().id@ != id,
    ensures
        owner_of(owners, id) == owner_of(owners.drop_last(), id),
{
}

/// Puts `a` into the strictly sorted `v`, unless it is there already.
fn insert_sorted(v: &mut Vec<String>, a: String)
    requires
        strictly_sorted(string_views(old(v)@)),
    ensures
        strictly_sorted(string_views(final(v)@)),
        forall|x: Seq<char>| string_views(final(v)@).contains(x) <==> (string_views(old(v)@).contains(x) || x == a@),
{
    let av = crate::text::chars_of(a.as_str());
    let mut i: usize = 0;
    while i < v.len()
        invariant
            i <= v.len(),
            v@ == old(v)@,
            av@ == a@,
            strictly_sorted(string_views(v@)),
            forall|k: int| 0 <= k < i ==> lex_lt(#[trigger] string_views(v@)[k], a@),
        ensures
            i <= v.len(),
            forall|k: int| 0 <= k < i ==> lex_lt(#[trigger] string_views(v@)[k], a@),
            i < v.len() ==> lex_lt(a@, string_views(v@)[i as int]),
        decreases v.len() - i,
    {
        let cur = crate::text::chars_of(v[i].as_str());
        if str_eq(v[i].as_str(), a.as_str()) {
            proof {
                assert(string_views(v@)[i as int] == a@);
                assert(string_views(v@).contains(a@));
            }
            return;
        }
        if lex_less(&av, &cur) {
            break;
        }
        proof {
            lemma_lex_total(string_views(v@)[i as int], a@);
        }
        i = i + 1;
    }
    let ghost before = v@;
    v.insert(i, a);
    proof {
        let sv = string_views(before);
        let nv = string_views(v@);
        assert(nv =~= sv.subrange(0, i as int).push(a@) + sv.subrange(i as int, sv.len() as int));
        assert forall|p: int, q: int| 0 <= p < q < nv.len() implies lex_lt(#[trigger] nv[p], #[trigger] nv[q]) by {
            if q < i {
            } else if q == i {
            } else if p < i {
                if q - 1 > i {
                    lemma_lex_transitive(a@, sv[i as int], sv[q - 1]);
                }
                lemma_lex_transitive(nv[p], a@, nv[q]);
            } else if p == i {
                if q - 1 > i {
                    lemma_lex_transitive(a@, sv[i as int], sv[q - 1]);
                }
            } else {
            }
        }
        assert forall|x: Seq<char>| nv.contains(x) <==> (sv.contains(x) || x == a@) by {
            if nv.contains(x) {
                let k = choose|k: int| 0 <= k < nv.len() && nv[k] == x;
                if k < i {
                    assert(sv[k] == x);
                } else if k > i {
                    assert(sv[k - 1] == x);
                }
            }
            if sv.contains(x) {
                let k = choose|k: int| 0 <= k < sv.len() && sv[k] == x;
                if k < i {
                    assert(nv[k] == x);
                } else {
                    assert(nv[k + 1] == x);
                }
            }
            if x == a@ {
                assert(nv[i as int] == x);
            }
        }
    }
}

/// The people affected by overcommitted days: the assignees of the tasks
/// the warnings name, each once, in sorted order.
pub fn affected_assignees(warnings: &Vec<Vec<String>>, owners: &Vec<TaskOwner>) -> (r: Vec<String>)
    ensures
        strictly_sorted(string_views(r@)),
        forall|a: Seq<char>| string_views(r@).contains(a) <==> affected(warnings@.map_values(|w: Vec<String>| w@), owners@, a),
{
    let ghost ws = warnings@.map_values(|w: Vec<String>| w@);
    let mut r: Vec<String> = Vec::new();
    let mut w: usize = 0;
    while w < warnings.len()
        invariant
            w <= warnings.len(),
            ws == warnings@.map_values(|w: Vec<String>| w@),
            strictly_sorted(string_views(r@)),
            forall|a: Seq<char>| string_views(r@).contains(a) <==> affected(ws.subrange(0, w as int), owners@, a),
        decreases warnings.len() - w,
    {
        let ids = &warnings[w];
        let mut t: usize = 0;
        while t < ids.len()
            invariant
                w < warnings.len(),
                ids == warnings@[w as int],
                t <= ids.len(),
                ws == warnings@.map_values(|w: Vec<String>| w@),
                strictly_sorted(string_views(r@)),
                forall|a: Seq<char>| string_views(r@).contains(a) <==> (affected(ws.subrange(0, w as int), owners@, a)
                    || exists|k: int| 0 <= k < t && #[trigger] owner_of(owners@, ids@[k]@) == Some(a)),
            decreases ids.len() - t,
        {
            match owner_lookup(owners, ids[t].as_str()) {
                Some(a) => {
                    let ghost av = a@;
                    insert_sorted(&mut r, a);
                    assert forall|x: Seq<char>| string_views(r@).contains(x) <==> (affected(ws.subrange(0, w as int), owners@, x)
                        || exists|k: int| 0 <= k < t + 1 && #[trigger] owner_of(owners@, ids@[k]@) == Some(x)) by {
                        if x == av {
                            assert(owner_of(owners@, ids@[t as int]@) == Some(x));
                        }
                        if exists|k: int| 0 <= k < t + 1 && #[trigger] owner_of(owners@, ids@[k]@) == Some(x) {
                            let k = choose|k: int| 0 <= k < t + 1 && #[trigger] owner_of(owners@, ids@[k]@) == Some(x);
                            if k < t {
                            } else {
                                assert(x == av);
                            }
                        }
                    }
                },
                None => {
                    assert forall|x: Seq<char>| string_views(r@).contains(x) <==> (affected(ws.subrange(0, w as int), owners@, x)
                        || exists|k: int| 0 <= k < t + 1 && #[trigger] owner_of(owners@, ids@[k]@) == Some(x)) by {
                        if exists|k: int| 0 <= k < t + 1 && #[trigger] owner_of(owners@, ids@[k]@) == Some(x) {
                            let k = choose|k: int| 0 <= k < t + 1 && #[trigger] owner_of(owners@, ids@[k]@) == Some(x);
                            assert(k < t);
                        }
                    }
                },
            }
            t = t + 1;
        }
        proof {
            let pre = ws.subrange(0, w as int);
            let nxt = ws.subrange(0, w + 1);
            assert forall|a: Seq<char>| affected(nxt, owners@, a) <==> (affected(pre, owners@, a)
                || exists|k: int| 0 <= k < ids.len() && #[trigger] owner_of(owners@, ids@[k]@) == Some(a)) by {
                if affected(nxt, owners@, a) {
                    let (wi, ti) = choose|wi: int, ti: int|
                        0 <= wi < nxt.len() && 0 <= ti < nxt[wi].len() && #[trigger] owner_of(owners@, nxt[wi][ti]@) == Some(a);
                    if wi < w {
                        assert(pre[wi] == nxt[wi]);
                        assert(owner_of(owners@, pre[wi][ti]@) == Some(a));
                    } else {
                        assert(nxt[wi] == ids@);
                        assert(owner_of(owners@, ids@[ti]@) == Some(a));
                    }
                }
                if affected(pre, owners@, a) {
                    let (wi, ti) = choose|wi: int, ti: int|
                        0 <= wi < pre.len() && 0 <= ti < pre[wi].len() && #[trigger] owner_of(owners@, pre[wi][ti]@) == Some(a);
                    assert(nxt[wi] == pre[wi]);
                    assert(owner_of(owners@, nxt[wi][ti]@) == Some(a));
                }
                if exists|k: int| 0 <= k < ids.len() && #[trigger] owner_of(owners@, ids@[k]@) == Some(a) {
                    let k = choose|k: int| 0 <= k < ids.len() && #[trigger] owner_of(owners@, ids@[k]@) == Some(a);
                    assert(nxt[w as int] == ids@);
                    assert(owner_of(owners@, nxt[w as int][k]@) == Some(a));
                }
            }
        }
        w = w + 1;
    }
    assert(ws.subrange(0, warnings.len() as int) =~= ws);
    r
}


/// The tasks blocking `id` are exactly the predecessors of the dependencies
/// into `id`, one entry per such dependency, in dependency order.
pub proof fn lemma_blockers_are_predecessors(deps: Seq<Dep>, id: Seq<char>)
    ensures
        forall|x: Seq<char>| #[trigger] blockers(deps, id).contains(x) <==> exists|k: int|
            0 <= k < deps.len() && (#[trigger] deps[k]).successor@ == id && deps[k].predecessor@ == x,
    decreases deps.len(),
{
    if deps.len() > 0 {
        let init = deps.drop_last();
        lemma_blockers_are_predecessors(init, id);
        let b = blockers(deps, id);
        let p = blockers(init, id);
        let n = deps.len() as int;
        assert forall|k: int| 0 <= k < init.len() implies #[trigger] init[k] == deps[k] by {}
        assert forall|x: Seq<char>| #[trigger] b.contains(x) implies exists|k: int|
            0 <= k < deps.len() && (#[trigger] deps[k]).successor@ == id && deps[k].predecessor@ == x by {
            let m = choose|m: int| 0 <= m < b.len() && b[m] == x;
            if m < p.len() {
                assert(b[m] == p[m]);
                assert(p.contains(x));
                let k = choose|k: int| 0 <= k < init.len() && (#[trigger] init[k]).successor@ == id
                    && init[k].predecessor@ == x;
                assert(deps[k] == init[k]);
            } else {
                assert(deps[n - 1].successor@ == id && deps[n - 1].predecessor@ == x);
            }
        }
        assert forall|x: Seq<char>| (exists|k: int|
            0 <= k < deps.len() && (#[trigger] deps[k]).successor@ == id && deps[k].predecessor@ == x) implies #[trigger] b.contains(x) by {
            let k = choose|k: int| 0 <= k < deps.len() && (#[trigger] deps[k]).successor@ == id
                && deps[k].predecessor@ == x;
            if k < n - 1 {
                assert(init[k] == deps[k]);
                assert(p.contains(x));
                let m = choose|m: int| 0 <= m < p.len() && p[m] == x;
                if deps.last().successor@ == id {
                    assert(b[m] == p[m]);
                }
            } else {
                assert(b[p.len() as int] == x);
            }
        }
    }
}

/// The tasks a sprint drops are exactly the open tasks that were not
/// selected: no completed task and no selected task is ever dropped.
pub proof fn lemma_dropped_are_open_unselected(tasks: Seq<TaskProgress>, selected: Seq<Seq<char>>, k: int)
    requires
        0 <= k <= tasks.len(),
    ensures
        forall|x: Seq<char>| #[trigger] left_out(tasks, selected, k).contains(x) <==> (!selected.contains(x)
            && exists|i: int| 0 <= i < k && (#[trigger] tasks[i]).id@ == x && !tasks[i].completed),
    decreases k,
{
    if k > 0 {
        lemma_dropped_are_open_unselected(tasks, selected, k - 1);
        let p = left_out(tasks, selected, k - 1);
        let r = left_out(tasks, selected, k);
        assert forall|x: Seq<char>| #[trigger] r.contains(x) implies (!selected.contains(x) && exists|i: int|
            0 <= i < k && (#[trigger] tasks[i]).id@ == x && !tasks[i].completed) by {
            let m = choose|m: int| 0 <= m < r.len() && r[m] == x;
            if m < p.len() {
                assert(r[m] == p[m]);
                assert(p.contains(x));
            } else {
                assert(tasks[k - 1].id@ == x);
            }
        }
        assert forall|x: Seq<char>| (!selected.contains(x) && exists|i: int|
            0 <= i < k && (#[trigger] tasks[i]).id@ == x && !tasks[i].completed) implies #[trigger] r.contains(x) by {
            let i = choose|i: int| 0 <= i < k && (#[trigger] tasks[i]).id@ == x && !tasks[i].completed;
            if i < k - 1 {
                assert(p.contains(x));
                let m = choose|m: int| 0 <= m < p.len() && p[m] == x;
                if !tasks[k - 1].completed && !selected.contains(tasks[k - 1].id@) {
                    assert(r[m] == p[m]);
                }
            } else {
                assert(r[p.len() as int] == x);
            }
        }
    }
}

/// Merging keeps the descoped tasks first and as they were, then adds each
/// unscheduled task that is not there yet, once: the result holds exactly
/// the tasks of both, and nothing added appears twice or repeats a
/// descoped task.
pub proof fn lemma_merge_keeps_and_adds_once(descoped: Seq<Seq<char>>, extra: Seq<Seq<char>>)
    ensures
        merged(descoped, extra).len() >= descoped.len(),
        merged(descoped, extra).subrange(0, descoped.len() as int) == descoped,
        forall|x: Seq<char>| #[trigger] merged(descoped, extra).contains(x) <==> (descoped.contains(x)
            || extra.contains(x)),
        forall|i: int, j: int|
            0 <= i < j < merged(descoped, extra).len() && descoped.len() <= j ==> #[trigger] merged(
                descoped,
                extra,
            )[i] != #[trigger] merged(descoped, extra)[j],
    decreases extra.len(),
{
    if extra.len() > 0 {
        let init = extra.drop_last();
        lemma_merge_keeps_and_adds_once(descoped, init);
        let m = merged(descoped, init);
        let r = merged(descoped, extra);
        let e = extra.last();
        assert forall|x: Seq<char>| init.contains(x) implies #[trigger] extra.contains(x) by {
            let i = choose|i: int| 0 <= i < init.len() && init[i] == x;
            assert(extra[i] == x);
        }
        assert(extra[extra.len() - 1] == e);
        assert forall|x: Seq<char>| #[trigger] extra.contains(x) implies init.contains(x) || x == e by {
            let i = choose|i: int| 0 <= i < extra.len() && extra[i] == x;
            if i < extra.len() - 1 {
                assert(init[i] == x);
            }
        }
        if m.contains(e) {
            assert(r == m);
        } else {
            assert(r == m.push(e));
            assert(r.subrange(0, descoped.len() as int) =~= m.subrange(0, descoped.len() as int));
            assert forall|x: Seq<char>| #[trigger] r.contains(x) <==> (descoped.contains(x) || extra.contains(x)) by {
                if r.contains(x) {
                    let i = choose|i: int| 0 <= i < r.len() && r[i] == x;
                    if i < m.len() {
                        assert(m[i] == x);
                        assert(m.contains(x));
                    }
                }
                if m.contains(x) {
                    let i = choose|i: int| 0 <= i < m.len() && m[i] == x;
                    assert(r[i] == x);
                }
                if x == e {
                    assert(r[m.len() as int] == x);
                }
            }
            assert forall|i: int, j: int|
                0 <= i < j < r.len() && descoped.len() <= j implies #[trigger] r[i] != #[trigger] r[j] by {
                if j == m.len() {
                    assert(r[i] == m[i]);
                    assert(m.contains(m[i]));
                } else {
                    assert(r[i] == m[i] && r[j] == m[j]);
                }
            }
        }
    } else {
        assert(descoped.subrange(0, descoped.len() as int) =~= descoped);
    }
}

} // verus!
