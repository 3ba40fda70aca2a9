//! What the optimizer, the leveler and the earned-value report decide from
//! a schedule: the execution hint and suggested order, which dependencies
//! fast-tracking rewrites, why a task was moved, and the data date.

use vstd::prelude::*;

use crate::dates::CalendarDate;
use crate::graph::Dep;
use crate::kinds::DependencyType;
use crate::text::{decimal, decimal_chars, join, join_strings, str_eq, string_of, string_views};

verus! {

// ---------------------------------------------------------------------------
// Execution hint and suggested order
// ---------------------------------------------------------------------------

/// The first sentence of the execution hint: which tasks to start with.
pub open spec fn start_clause(ready: Seq<Seq<char>>) -> Seq<char> {
    if ready.len() == 0 {
        "No ready tasks."@
    } else if ready.len() == 1 {
        "Start with: "@ + ready[0] + "."@
    } else {
        "Start with: "@ + join(ready, ", "@) + " (run in parallel)."@
    }
}

/// The second sentence of the execution hint: the critical path to follow.
pub open spec fn path_clause(critical_path: Seq<Seq<char>>) -> Seq<char> {
    if critical_path.len() == 0 {
        seq![]
    } else {
        " Then proceed through critical path: "@ + join(critical_path, " → "@)
    }
}

/// The hint an agent gets after optimizing: the ready tasks of the first
/// parallel group, then the critical path.
pub fn execution_hint(next_ready: &Vec<String>, critical_path: &Vec<String>) -> (r: String)
    ensures
        r@ == start_clause(string_views(next_ready@)) + path_clause(string_views(critical_path@)),
{
    let start = if next_ready.len() == 0 {
        String::from_str("No ready tasks.")
    } else if next_ready.len() == 1 {
        String::from_str("Start with: ").concat(next_ready[0].as_str()).concat(".")
    } else {
        String::from_str("Start with: ").concat(join_strings(next_ready, ", ").as_str()).concat(
            " (run in parallel).",
        )
    };
    if critical_path.len() == 0 {
        assert(start@ =~= start@ + path_clause(string_views(critical_path@)));
        start
    } else {
        start.concat(" Then proceed through critical path: ").concat(
            join_strings(critical_path, " → ").as_str(),
        )
    }
}

/// The line of group `n` in the suggested order.
pub open spec fn order_line(n: nat, group: Seq<Seq<char>>) -> Seq<char> {
    "group"@ + decimal(n) + ": "@ + join(group, " || "@)
}

/// The suggested order: one line per parallel group, numbered from 1.
pub fn suggested_order(groups: &Vec<Vec<String>>) -> (r: Vec<String>)
    requires
        groups.len() < usize::MAX,
    ensures
        r.len() == groups.len(),
        forall|i: int| 0 <= i < r.len() ==> (#[trigger] r@[i])@ == order_line((i + 1) as nat, string_views(groups@[i]@)),
{
    let mut r: Vec<String> = Vec::new();
    let mut i: usize = 0;
    while i < groups.len()
        invariant
            i <= groups.len() < usize::MAX,
            r.len() == i,
            forall|k: int| 0 <= k < i ==> (#[trigger] r@[k])@ == order_line((k + 1) as nat, string_views(groups@[k]@)),
        decreases groups.len() - i,
    {
        let n = decimal_chars(i + 1);
        let line = String::from_str("group").concat(string_of(&n).as_str()).concat(": ").concat(
            join_strings(&groups[i], " || ").as_str(),
        );
        r.push(line);
        i = i + 1;
    }
    r
}

// ---------------------------------------------------------------------------
// Fast-tracking
// ---------------------------------------------------------------------------

/// A dependency with its type.
#[derive(Debug, Clone)]
pub struct TypedDep {
    pub predecessor: String,
    pub successor: String,
    pub kind: DependencyType,
}

/// What fast-tracking reads of a task: whether it is critical and whether
/// its duration is positive.
#[derive(Debug, Clone)]
pub struct ActivityFacts {
    pub id: String,
    pub critical: bool,
    pub positive_duration: bool,
}

/// The facts of the first task of `acts` with id `id`, if any.
pub open spec fn facts_of(acts: Seq<ActivityFacts>, id: Seq<char>) -> Option<ActivityFacts>
    decreases acts.len(),
{
    if acts.len() == 0 {
        None
    } else if acts[0].id@ == id {
        Some(acts[0])
    } else {
        facts_of(acts.drop_first(), id)
    }
}

/// Whether fast-tracking can overlap dependency `d`: a finish-to-start link
/// between two existing critical tasks whose predecessor takes time.
pub open spec fn fast_trackable(acts: Seq<ActivityFacts>, d: TypedDep) -> bool {
    &&& d.kind == DependencyType::FinishToStart
    &&& facts_of(acts, d.predecessor@) matches Some(p)
    &&& facts_of(acts, d.successor@) matches Some(s)
    &&& p.critical && s.critical && p.positive_duration
}

/// The positions among the first `k` dependencies that fast-tracking
/// overlaps, in order.
pub open spec fn fast_track_positions(acts: Seq<ActivityFacts>, deps: Seq<TypedDep>, k: int) -> Seq<usize>
    decreases k,
{
    if k <= 0 {
        seq![]
    } else if fast_trackable(acts, deps[k - 1]) {
        fast_track_positions(acts, deps, k - 1).push((k - 1) as usize)
    } else {
        fast_track_positions(acts, deps, k - 1)
    }
}

fn find_facts(acts: &Vec<ActivityFacts>, id: &str) -> (r: Option<usize>)
    ensures
        match facts_of(acts@, id@) {
            None => r is None,
            Some(f) => (r matches Some(i) && i < acts.len() && acts@[i as int] == f),
        },
{
    let mut i: usize = 0;
    assert(acts@.subrange(0, acts.len() as int) =~= acts@);
    while i < acts.len()
        invariant
            i <= acts.len(),
            facts_of(acts@, id@) == facts_of(acts@.subrange(i as int, acts.len() as int), id@),
        decreases acts.len() - i,
    {
        let ghost rest = acts@.subrange(i as int, acts.len() as int);
        assert(rest.drop_first() =~= acts@.subrange(i + 1, acts.len() as int));
        if str_eq(acts[i].id.as_str(), id) {
            return Some(i);
        }
        i = i + 1;
    }
    None
}

/// The dependencies that fast-tracking overlaps, by position, in order.
pub fn fast_track_candidates(acts: &Vec<ActivityFacts>, deps: &Vec<TypedDep>) -> (r: Vec<usize>)
    ensures
        r@ == fast_track_positions(acts@, deps@, deps.len() as int),
{
    let mut r: Vec<usize> = Vec::new();
    let mut k: usize = 0;
    while k < deps.len()
        invariant
            k <= deps.len(),
            r@ == fast_track_positions(acts@, deps@, k as int),
        decreases deps.len() - k,
    {
        let d = &deps[k];
        let fs = match d.kind {
            DependencyType::FinishToStart => true,
            _ => false,
        };
        if fs {
            match (find_facts(acts, d.predecessor.as_str()), find_facts(acts, d.successor.as_str())) {
                (Some(p), Some(s)) => {
                    if acts[p].critical && acts[s].critical && acts[p].positive_duration {
                        r.push(k);
                    }
                },
                _ => {},
            }
        }
        k = k + 1;
    }
    r
}

proof fn lemma_fast_track_prefix(acts: Seq<ActivityFacts>, deps: Seq<TypedDep>, k: int)
    requires
        0 <= k <= deps.len() <= usize::MAX,
    ensures
        ({
            let r = fast_track_positions(acts, deps, k);
            &&& forall|i: int| #![trigger r[i]] 0 <= i < r.len() ==> {
                let d = deps[r[i] as int];
                &&& 0 <= r[i] < k
                &&& d.kind == DependencyType::FinishToStart
                &&& facts_of(acts, d.predecessor@) is Some
                &&& facts_of(acts, d.predecessor@)->0.critical
                &&& facts_of(acts, d.predecessor@)->0.positive_duration
                &&& facts_of(acts, d.successor@) is Some
                &&& facts_of(acts, d.successor@)->0.critical
            }
            &&& forall|i: int, j: int| 0 <= i < j < r.len() ==> r[i] < r[j]
            &&& forall|j: int| #![trigger deps[j]] 0 <= j < k && deps[j].kind == DependencyType::FinishToStart
                && facts_of(acts, deps[j].predecessor@) is Some
                && facts_of(acts, deps[j].predecessor@)->0.critical
                && facts_of(acts, deps[j].predecessor@)->0.positive_duration
                && facts_of(acts, deps[j].successor@) is Some
                && facts_of(acts, deps[j].successor@)->0.critical ==> r.contains(j as usize)
        }),
    decreases k,
{
    if k > 0 {
        lemma_fast_track_prefix(acts, deps, k - 1);
        let p = fast_track_positions(acts, deps, k - 1);
        let r = fast_track_positions(acts, deps, k);
        let d = deps[k - 1];
        assert(((k - 1) as usize) as int == k - 1);
        if fast_trackable(acts, d) {
            assert(r == p.push((k - 1) as usize));
            assert forall|i: int| #![trigger r[i]] 0 <= i < r.len() implies {
                let d = deps[r[i] as int];
                &&& 0 <= r[i] < k
                &&& d.kind == DependencyType::FinishToStart
                &&& facts_of(acts, d.predecessor@) is Some
                &&& facts_of(acts, d.predecessor@)->0.critical
                &&& facts_of(acts, d.predecessor@)->0.positive_duration
                &&& facts_of(acts, d.successor@) is Some
                &&& facts_of(acts, d.successor@)->0.critical
            } by {
                if i < p.len() {
                    assert(r[i] == p[i]);
                } else {
                    assert(r[i] == (k - 1) as usize);
                }
            }
            assert forall|a: int, b: int| 0 <= a < b < r.len() implies r[a] < r[b] by {
                if b < p.len() {
                    assert(r[a] == p[a] && r[b] == p[b]);
                } else {
                    assert(r[a] == p[a]);
                }
            }
            assert forall|j: int| #![trigger deps[j]] 0 <= j < k && deps[j].kind == DependencyType::FinishToStart
                && facts_of(acts, deps[j].predecessor@) is Some
                && facts_of(acts, deps[j].predecessor@)->0.critical
                && facts_of(acts, deps[j].predecessor@)->0.positive_duration
                && facts_of(acts, deps[j].successor@) is Some
                && facts_of(acts, deps[j].successor@)->0.critical implies r.contains(j as usize) by {
                if j < k - 1 {
                    let i = choose|i: int| 0 <= i < p.len() && p[i] == j as usize;
                    assert(r[i] == p[i]);
                } else {
                    assert(r[p.len() as int] == (k - 1) as usize);
                }
            }
        } else {
            assert(r == p);
            if d.kind == DependencyType::FinishToStart
                && facts_of(acts, d.predecessor@) is Some
                && facts_of(acts, d.predecessor@)->0.critical
                && facts_of(acts, d.predecessor@)->0.positive_duration
                && facts_of(acts, d.successor@) is Some
                && facts_of(acts, d.successor@)->0.critical {
                assert(fast_trackable(acts, d));
            }
        }
    }
}

/// Fast-tracking only overlaps finish-to-start links between two critical
/// tasks whose predecessor takes time, and it overlaps every such link,
/// once, in the order of the dependencies: a dependency out of a task that
/// is not critical is never fast-tracked.
pub proof fn lemma_fast_track_links_critical_tasks(acts: Seq<ActivityFacts>, deps: Seq<TypedDep>)
    requires
        deps.len() <= usize::MAX,
    ensures
        ({
            let r = fast_track_positions(acts, deps, deps.len() as int);
            &&& forall|i: int| #![trigger r[i]] 0 <= i < r.len() ==> {
                let d = deps[r[i] as int];
                &&& 0 <= r[i] < deps.len()
                &&& d.kind == DependencyType::FinishToStart
                &&& facts_of(acts, d.predecessor@) is Some
                &&& facts_of(acts, d.predecessor@)->0.critical
                &&& facts_of(acts, d.predecessor@)->0.positive_duration
                &&& facts_of(acts, d.successor@) is Some
                &&& facts_of(acts, d.successor@)->0.critical
            }
            &&& forall|i: int, j: int| 0 <= i < j < r.len() ==> r[i] < r[j]
            &&& forall|j: int| #![trigger deps[j]] 0 <= j < deps.len() && deps[j].kind == DependencyType::FinishToStart
                && facts_of(acts, deps[j].predecessor@) is Some
                && facts_of(acts, deps[j].predecessor@)->0.critical
                && facts_of(acts, deps[j].predecessor@)->0.positive_duration
                && facts_of(acts, deps[j].successor@) is Some
                && facts_of(acts, deps[j].successor@)->0.critical ==> r.contains(j as usize)
        }),
{
    lemma_fast_track_prefix(acts, deps, deps.len() as int);
}

/// The first position among `moves` of a move from `from` to `to`.
pub open spec fn first_move(moves: Seq<Dep>, from: Seq<char>, to: Seq<char>) -> Option<int>
    decreases moves.len(),
{
    if moves.len() == 0 {
        None
    } else if moves[0].predecessor@ == from && moves[0].successor@ == to {
        Some(0)
    } else {
        match first_move(moves.drop_first(), from, to) {
            Some(i) => Some(i + 1),
            None => None,
        }
    }
}

/// The rewrites among the first `k` dependencies: each finish-to-start
/// dependency that a move names becomes start-to-start with the lag of the
/// first such move.
pub open spec fn rewrites(deps: Seq<TypedDep>, moves: Seq<Dep>, k: int) -> Seq<(usize, usize)>
    decreases k,
{
    if k <= 0 {
        seq![]
    } else {
        let d = deps[k - 1];
        match first_move(moves, d.predecessor@, d.successor@) {
            Some(m) if d.kind == DependencyType::FinishToStart => rewrites(deps, moves, k - 1).push(
                ((k - 1) as usize, m as usize),
            ),
            _ => rewrites(deps, moves, k - 1),
        }
    }
}

fn find_move(moves: &Vec<Dep>, from: &str, to: &str) -> (r: Option<usize>)
    ensures
        match first_move(moves@, from@, to@) {
            None => r is None,
            Some(m) => r == Some(m as usize) && m < moves.len(),
        },
{
    let mut i: usize = 0;
    assert(moves@.subrange(0, moves.len() as int) =~= moves@);
    while i < moves.len()
        invariant
            i <= moves.len(),
            first_move(moves@, from@, to@) == match first_move(moves@.subrange(i as int, moves.len() as int), from@, to@) {
                Some(m) => Some(m + i),
                None => None,
            },
        decreases moves.len() - i,
    {
        let ghost rest = moves@.subrange(i as int, moves.len() as int);
        assert(rest.drop_first() =~= moves@.subrange(i + 1, moves.len() as int));
        if str_eq(moves[i].predecessor.as_str(), from) && str_eq(moves[i].successor.as_str(), to) {
            return Some(i);
        }
        i = i + 1;
    }
    None
}

/// Which dependencies applying fast-track moves rewrites, each with the
/// move whose overlap becomes its lag: `(dependency, move)` positions.
pub fn fast_track_rewrites(deps: &Vec<TypedDep>, moves: &Vec<Dep>) -> (r: Vec<(usize, usize)>)
    ensures
        r@ == rewrites(deps@, moves@, deps.len() as int),
{
    let mut r: Vec<(usize, usize)> = Vec::new();
    let mut k: usize = 0;
    while k < deps.len()
        invariant
            k <= deps.len(),
            r@ == rewrites(deps@, moves@, k as int),
        decreases deps.len() - k,
    {
        let d = &deps[k];
        let fs = match d.kind {
            DependencyType::FinishToStart => true,
            _ => false,
        };
        if fs {
            match find_move(moves, d.predecessor.as_str(), d.successor.as_str()) {
                Some(m) => {
                    r.push((k, m));
                },
                None => {},
            }
        }
        k = k + 1;
    }
    r
}

// ---------------------------------------------------------------------------
// Resource leveling
// ---------------------------------------------------------------------------

/// A resource over-allocation found before leveling: the resource, the day
/// (as `YYYY-MM-DD`) and the tasks that contributed to it.
#[derive(Debug, Clone)]
pub struct LevelConflict {
    pub resource: String,
    pub date: String,
    pub contributors: Vec<String>,
}

/// The ids of `ids` other than `id`, in order.
pub open spec fn others(ids: Seq<Seq<char>>, id: Seq<char>) -> Seq<Seq<char>>
    decreases ids.len(),
{
    if ids.len() == 0 {
        seq![]
    } else if ids.last() == id {
        others(ids.drop_last(), id)
    } else {
        others(ids.drop_last(), id).push(ids.last())
    }
}

/// The reason given by conflict `c` for moving task `id`.
pub open spec fn conflict_reason(c: LevelConflict, id: Seq<char>) -> Seq<char> {
    let o = others(string_views(c.contributors@), id);
    if o.len() == 0 {
        "Resource '"@ + c.resource@ + "' over-allocated on "@ + c.date@
    } else {
        "Resource '"@ + c.resource@ + "' conflict with '"@ + join(o, ", "@) + "'"@
    }
}

/// Why task `id` was moved: the first conflict it contributed to, or a
/// general shift when it contributed to none.
pub open spec fn move_reason(conflicts: Seq<LevelConflict>, id: Seq<char>) -> Seq<char>
    decreases conflicts.len(),
{
    if conflicts.len() == 0 {
        "Resource leveling shift"@
    } else if string_views(conflicts[0].contributors@).contains(id) {
        conflict_reason(conflicts[0], id)
    } else {
        move_reason(conflicts.drop_first(), id)
    }
}

/// The reason a task was moved comes from the earliest conflict it
/// contributed to: when conflict `i` lists `id` and no conflict before it
/// does, the reason is conflict `i`'s.
pub proof fn lemma_reason_from_first_conflict(conflicts: Seq<LevelConflict>, id: Seq<char>, i: int)
    requires
        0 <= i < conflicts.len(),
        string_views(conflicts[i].contributors@).contains(id),
        forall|j: int| 0 <= j < i ==> !string_views(#[trigger] conflicts[j].contributors@).contains(id),
    ensures
        move_reason(conflicts, id) == conflict_reason(conflicts[i], id),
    decreases i,
{
    if i > 0 {
        let rest = conflicts.drop_first();
        assert(!string_views(conflicts[0].contributors@).contains(id));
        assert forall|j: int| 0 <= j < i - 1 implies !string_views(#[trigger] rest[j].contributors@).contains(id) by {
            assert(rest[j] == conflicts[j + 1]);
        }
        assert(rest[i - 1] == conflicts[i]);
        lemma_reason_from_first_conflict(rest, id, i - 1);
    }
}

/// A task that contributed to no conflict was moved by a general shift.
pub proof fn lemma_reason_without_conflict(conflicts: Seq<LevelConflict>, id: Seq<char>)
    requires
        forall|j: int| 0 <= j < conflicts.len() ==> !string_views(#[trigger] conflicts[j].contributors@).contains(id),
    ensures
        move_reason(conflicts, id) == "Resource leveling shift"@,
    decreases conflicts.len(),
{
    if conflicts.len() > 0 {
        let rest = conflicts.drop_first();
        assert(!string_views(conflicts[0].contributors@).contains(id));
        assert forall|j: int| 0 <= j < rest.len() implies !string_views(#[trigger] rest[j].contributors@).contains(id) by {
            assert(rest[j] == conflicts[j + 1]);
        }
        lemma_reason_without_conflict(rest, id);
    }
}

fn others_of(ids: &Vec<String>, id: &str) -> (r: Vec<String>)
    ensures
        string_views(r@) == others(string_views(ids@), id@),
{
    let mut r: Vec<String> = Vec::new();
    let mut i: usize = 0;
    while i < ids.len()
        invariant
            i <= ids.len(),
            string_views(r@) == others(string_views(ids@.subrange(0, i as int)), id@),
        decreases ids.len() - i,
    {
        let ghost pre = ids@.subrange(0, i as int);
        assert(string_views(ids@.subrange(0, i + 1)).drop_last() =~= string_views(pre));
        if !str_eq(ids[i].as_str(), id) {
            let ghost before = r@;
            r.push(ids[i].clone());
            assert(string_views(r@) =~= string_views(before).push(ids@[i as int]@));
        }
        i = i + 1;
    }
    assert(ids@.subrange(0, ids.len() as int) =~= ids@);
    r
}

/// Why leveling moved task `activity_id`.
pub fn reason_for_move(activity_id: &str, conflicts: &Vec<LevelConflict>) -> (r: String)
    ensures
        r@ == move_reason(conflicts@, activity_id@),
{
    let mut i: usize = 0;
    assert(conflicts@.subrange(0, conflicts.len() as int) =~= conflicts@);
    while i < conflicts.len()
        invariant
            i <= conflicts.len(),
            move_reason(conflicts@, activity_id@) == move_reason(
                conflicts@.subrange(i as int, conflicts.len() as int),
                activity_id@,
            ),
        decreases conflicts.len() - i,
    {
        let ghost rest = conflicts@.subrange(i as int, conflicts.len() as int);
        assert(rest.drop_first() =~= conflicts@.subrange(i + 1, conflicts.len() as int));
        let c = &conflicts[i];
        if crate::text::contains_str(&c.contributors, activity_id) {
            let o = others_of(&c.contributors, activity_id);
            if o.len() == 0 {
                return String::from_str("Resource '").concat(c.resource.as_str()).concat(
                    "' over-allocated on ",
                ).concat(c.date.as_str());
            }
            return String::from_str("Resource '").concat(c.resource.as_str()).concat(
                "' conflict with '",
            ).concat(join_strings(&o, ", ").as_str()).concat("'");
        }
        i = i + 1;
    }
    String::from_str("Resource leveling shift")
}

/// The message with which leveling stops before any analysis, if it does:
/// a plan without tasks, or one without resources or assignments.
pub fn level_precheck(activities: usize, resources: usize, assignments: usize) -> (r: Option<String>)
    ensures
        activities == 0 ==> (r matches Some(m) && m@ == "No activities in plan. Nothing to level."@),
        activities != 0 && (resources == 0 || assignments == 0) ==> (r matches Some(m) && m@
            == "No resource over-allocation detected. Plan is already level."@),
        activities != 0 && resources != 0 && assignments != 0 ==> r is None,
{
    if activities == 0 {
        Some(String::from_str("No activities in plan. Nothing to level."))
    } else if resources == 0 || assignments == 0 {
        Some(String::from_str("No resource over-allocation detected. Plan is already level."))
    } else {
        None
    }
}

// ---------------------------------------------------------------------------
// Earned value: the data date
// ---------------------------------------------------------------------------

/// Whether date `a` is strictly later than date `b`.
pub open spec fn later(a: CalendarDate, b: CalendarDate) -> bool {
    a.year > b.year || (a.year == b.year && (a.month > b.month || (a.month == b.month && a.day > b.day)))
}

/// The latest of the dates given among the first `k` entries, keeping the
/// earliest of equal ones.
pub open spec fn latest_of(dates: Seq<Option<CalendarDate>>, k: int) -> Option<CalendarDate>
    decreases k,
{
    if k <= 0 {
        None
    } else {
        let p = latest_of(dates, k - 1);
        match dates[k - 1] {
            None => p,
            Some(d) => match p {
                None => Some(d),
                Some(cur) => if later(d, cur) {
                    Some(d)
                } else {
                    Some(cur)
                },
            },
        }
    }
}

fn is_later(a: &CalendarDate, b: &CalendarDate) -> (r: bool)
    ensures
        r == later(*a, *b),
{
    a.year > b.year || (a.year == b.year && (a.month > b.month || (a.month == b.month && a.day > b.day)))
}

/// The latest of the dates given; none when no date is given.
fn latest_date(dates: &Vec<Option<CalendarDate>>) -> (r: Option<CalendarDate>)
    ensures
        r == latest_of(dates@, dates.len() as int),
        r is None <==> forall|i: int| 0 <= i < dates.len() ==> (#[trigger] dates@[i]) is None,
        r matches Some(d) ==> (exists|i: int| 0 <= i < dates.len() && #[trigger] dates@[i] == Some(d)),
        r matches Some(d) ==> (forall|i: int| 0 <= i < dates.len() && (#[trigger] dates@[i]) is Some ==> !later(dates@[i]->0, d)),
{
    let mut latest: Option<CalendarDate> = None;
    let mut i: usize = 0;
    while i < dates.len()
        invariant
            i <= dates.len(),
            latest == latest_of(dates@, i as int),
            latest is None <==> forall|j: int| 0 <= j < i ==> (#[trigger] dates@[j]) is None,
            latest matches Some(d) ==> (exists|j: int| 0 <= j < i && #[trigger] dates@[j] == Some(d)),
            latest matches Some(d) ==> (forall|j: int| 0 <= j < i && (#[trigger] dates@[j]) is Some ==> !later(dates@[j]->0, d)),
        decreases dates.len() - i,
    {
        match dates[i] {
            None => {},
            Some(d) => {
                let replace = match latest {
                    None => true,
                    Some(cur) => is_later(&d, &cur),
                };
                if replace {
                    latest = Some(d);
                }
            },
        }
        assert(dates@[i as int] == dates[i as int]);
        i = i + 1;
    }
    latest
}

/// The dates of a task that decide the data date.
#[derive(Debug, Clone, Copy)]
pub struct ActivityDates {
    pub actual_finish: Option<CalendarDate>,
    pub actual_start: Option<CalendarDate>,
    pub planned_finish: Option<CalendarDate>,
}

/// The actual finishes of `acts`, in order.
pub open spec fn finishes(acts: Seq<ActivityDates>) -> Seq<Option<CalendarDate>> {
    acts.map_values(|a: ActivityDates| a.actual_finish)
}

/// The actual starts of `acts`, in order.
pub open spec fn starts(acts: Seq<ActivityDates>) -> Seq<Option<CalendarDate>> {
    acts.map_values(|a: ActivityDates| a.actual_start)
}

/// The planned finishes of `acts`, in order.
pub open spec fn planned_finishes(acts: Seq<ActivityDates>) -> Seq<Option<CalendarDate>> {
    acts.map_values(|a: ActivityDates| a.planned_finish)
}

/// The data date by order of preference: the latest actual finish; else
/// the latest actual start; else the latest planned finish; else none.
pub open spec fn preferred_data_date(acts: Seq<ActivityDates>) -> Option<CalendarDate> {
    let f = latest_of(finishes(acts), acts.len() as int);
    let s = latest_of(starts(acts), acts.len() as int);
    let p = latest_of(planned_finishes(acts), acts.len() as int);
    if f is Some {
        f
    } else if s is Some {
        s
    } else {
        p
    }
}

/// The data date of an earned-value report: the latest actual finish of the
/// tasks, or when no task has finished the latest actual start, or when
/// none has started the latest planned finish; none when no task has any of
/// these dates (the caller then uses today).
pub fn choose_data_date(acts: &Vec<ActivityDates>) -> (r: Option<CalendarDate>)
    ensures
        r == preferred_data_date(acts@),
{
    let mut f: Vec<Option<CalendarDate>> = Vec::new();
    let mut st: Vec<Option<CalendarDate>> = Vec::new();
    let mut p: Vec<Option<CalendarDate>> = Vec::new();
    let mut i: usize = 0;
    while i < acts.len()
        invariant
            i <= acts.len(),
            f@ == finishes(acts@).subrange(0, i as int),
            st@ == starts(acts@).subrange(0, i as int),
            p@ == planned_finishes(acts@).subrange(0, i as int),
        decreases acts.len() - i,
    {
        f.push(acts[i].actual_finish);
        st.push(acts[i].actual_start);
        p.push(acts[i].planned_finish);
        i = i + 1;
        assert(f@ =~= finishes(acts@).subrange(0, i as int));
        assert(st@ =~= starts(acts@).subrange(0, i as int));
        assert(p@ =~= planned_finishes(acts@).subrange(0, i as int));
    }
    assert(f@ =~= finishes(acts@));
    assert(st@ =~= starts(acts@));
    assert(p@ =~= planned_finishes(acts@));
    let lf = latest_date(&f);
    if lf.is_some() {
        return lf;
    }
    let ls = latest_date(&st);
    if ls.is_some() {
        return ls;
    }
    latest_date(&p)
}


/// Whether date `a` comes no later than date `b`, by year, month and day.
pub open spec fn on_or_before(a: CalendarDate, b: CalendarDate) -> bool {
    a.year < b.year || (a.year == b.year && (a.month < b.month || (a.month == b.month && a.day <= b.day)))
}

/// Whether `d` is the latest of the dates given in `dates`: one of them,
/// and none of them after it.
pub open spec fn is_latest_given(dates: Seq<Option<CalendarDate>>, d: CalendarDate) -> bool {
    &&& exists|i: int| 0 <= i < dates.len() && #[trigger] dates[i] == Some(d)
    &&& forall|i: int| 0 <= i < dates.len() && (#[trigger] dates[i]) is Some ==> on_or_before(dates[i]->0, d)
}

proof fn lemma_latest_of(dates: Seq<Option<CalendarDate>>, k: int)
    requires
        0 <= k <= dates.len(),
    ensures
        latest_of(dates, k) is None <==> forall|i: int| 0 <= i < k ==> (#[trigger] dates[i]) is None,
        latest_of(dates, k) is Some ==> is_latest_given(dates.subrange(0, k), latest_of(dates, k)->0),
    decreases k,
{
    if k > 0 {
        lemma_latest_of(dates, k - 1);
        let pre = dates.subrange(0, k - 1);
        let cur = dates.subrange(0, k);
        assert forall|i: int| 0 <= i < k - 1 implies pre[i] == #[trigger] cur[i] by {}
        assert(cur[k - 1] == dates[k - 1]);
        let r = latest_of(dates, k);
        if r is Some {
            let d = r->0;
            if latest_of(dates, k - 1) is Some {
                let c = latest_of(dates, k - 1)->0;
                let w = choose|i: int| 0 <= i < pre.len() && #[trigger] pre[i] == Some(c);
                assert(cur[w] == Some(c));
            }
            assert(exists|i: int| 0 <= i < cur.len() && #[trigger] cur[i] == Some(d));
            assert forall|i: int| 0 <= i < cur.len() && (#[trigger] cur[i]) is Some implies on_or_before(
                cur[i]->0,
                d,
            ) by {
                if i < k - 1 {
                    assert(pre[i] == cur[i]);
                }
            }
        }
    }
}

/// The data date follows the order of preference: when some task has an
/// actual finish, it is the latest actual finish; otherwise, when some task
/// has started, the latest actual start; otherwise, when some task has a
/// planned finish, the latest planned finish; otherwise there is none.
pub proof fn lemma_data_date_preference(acts: Seq<ActivityDates>)
    ensures
        ({
            let r = preferred_data_date(acts);
            let f = finishes(acts);
            let s = starts(acts);
            let p = planned_finishes(acts);
            &&& (exists|i: int| 0 <= i < acts.len() && (#[trigger] acts[i]).actual_finish is Some) ==> (
            r is Some && is_latest_given(f, r->0))
            &&& (forall|i: int| 0 <= i < acts.len() ==> (#[trigger] acts[i]).actual_finish is None) && (exists|i: int|
                0 <= i < acts.len() && (#[trigger] acts[i]).actual_start is Some) ==> (r is Some
                && is_latest_given(s, r->0))
            &&& (forall|i: int| 0 <= i < acts.len() ==> (#[trigger] acts[i]).actual_finish is None
                && acts[i].actual_start is None) && (exists|i: int|
                0 <= i < acts.len() && (#[trigger] acts[i]).planned_finish is Some) ==> (r is Some
                && is_latest_given(p, r->0))
            &&& (forall|i: int| 0 <= i < acts.len() ==> (#[trigger] acts[i]).actual_finish is None
                && acts[i].actual_start is None && acts[i].planned_finish is None) ==> r is None
        }),
{
    let n = acts.len() as int;
    let f = finishes(acts);
    let s = starts(acts);
    let p = planned_finishes(acts);
    lemma_latest_of(f, n);
    lemma_latest_of(s, n);
    lemma_latest_of(p, n);
    assert(f.subrange(0, n) =~= f);
    assert(s.subrange(0, n) =~= s);
    assert(p.subrange(0, n) =~= p);
    assert forall|i: int| 0 <= i < n implies #[trigger] f[i] == acts[i].actual_finish && s[i] == acts[i].actual_start
        && p[i] == acts[i].planned_finish by {}
    if exists|i: int| 0 <= i < n && (#[trigger] acts[i]).actual_finish is Some {
        let i = choose|i: int| 0 <= i < n && (#[trigger] acts[i]).actual_finish is Some;
        assert(f[i] is Some);
    }
    if exists|i: int| 0 <= i < n && (#[trigger] acts[i]).actual_start is Some {
        let i = choose|i: int| 0 <= i < n && (#[trigger] acts[i]).actual_start is Some;
        assert(s[i] is Some);
    }
    if exists|i: int| 0 <= i < n && (#[trigger] acts[i]).planned_finish is Some {
        let i = choose|i: int| 0 <= i < n && (#[trigger] acts[i]).planned_finish is Some;
        assert(p[i] is Some);
    }
    if forall|i: int| 0 <= i < n ==> (#[trigger] acts[i]).actual_finish is None {
        assert forall|i: int| 0 <= i < n implies (#[trigger] f[i]) is None by {
            assert(acts[i].actual_finish is None);
        }
    }
    if forall|i: int| 0 <= i < n ==> (#[trigger] acts[i]).actual_finish is None && acts[i].actual_start is None {
        assert forall|i: int| 0 <= i < n implies (#[trigger] s[i]) is None by {
            assert(acts[i].actual_start is None);
        }
        assert forall|i: int| 0 <= i < n implies (#[trigger] f[i]) is None by {
            assert(acts[i].actual_finish is None);
        }
    }
    if forall|i: int| 0 <= i < n ==> (#[trigger] acts[i]).actual_finish is None && acts[i].actual_start is None
        && acts[i].planned_finish is None {
        assert forall|i: int| 0 <= i < n implies (#[trigger] p[i]) is None by {
            assert(acts[i].planned_finish is None);
        }
        assert forall|i: int| 0 <= i < n implies (#[trigger] s[i]) is None by {
            assert(acts[i].actual_start is None);
        }
        assert forall|i: int| 0 <= i < n implies (#[trigger] f[i]) is None by {
            assert(acts[i].actual_finish is None);
        }
    }
}


proof fn lemma_first_move(moves: Seq<Dep>, from: Seq<char>, to: Seq<char>)
    ensures
        first_move(moves, from, to) is None <==> forall|m: int|
            0 <= m < moves.len() ==> !((#[trigger] moves[m]).predecessor@ == from && moves[m].successor@ == to),
        first_move(moves, from, to) matches Some(m) ==> 0 <= m < moves.len() && moves[m].predecessor@ == from
            && moves[m].successor@ == to && forall|j: int|
            0 <= j < m ==> !((#[trigger] moves[j]).predecessor@ == from && moves[j].successor@ == to),
    decreases moves.len(),
{
    if moves.len() > 0 {
        let rest = moves.drop_first();
        lemma_first_move(rest, from, to);
        assert forall|j: int| 0 <= j < rest.len() implies #[trigger] rest[j] == moves[j + 1] by {}
        if !(moves[0].predecessor@ == from && moves[0].successor@ == to) {
            if first_move(rest, from, to) is None {
                assert forall|m: int| 0 <= m < moves.len() implies !((#[trigger] moves[m]).predecessor@ == from
                    && moves[m].successor@ == to) by {
                    if m > 0 {
                        assert(moves[m] == rest[m - 1]);
                    }
                }
            } else {
                let m = first_move(rest, from, to)->0;
                assert(moves[m + 1] == rest[m]);
                assert forall|j: int| 0 <= j < m + 1 implies !((#[trigger] moves[j]).predecessor@ == from
                    && moves[j].successor@ == to) by {
                    if j > 0 {
                        assert(moves[j] == rest[j - 1]);
                    }
                }
            }
        }
    }
}

proof fn lemma_rewrites_prefix(deps: Seq<TypedDep>, moves: Seq<Dep>, k: int)
    requires
        0 <= k <= deps.len() <= usize::MAX,
        moves.len() <= usize::MAX,
    ensures
        ({
            let r = rewrites(deps, moves, k);
            &&& forall|i: int| #![trigger r[i]] 0 <= i < r.len() ==> {
                let (x, m) = r[i];
                &&& 0 <= x < k
                &&& 0 <= m < moves.len()
                &&& deps[x as int].kind == DependencyType::FinishToStart
                &&& moves[m as int].predecessor@ == deps[x as int].predecessor@
                &&& moves[m as int].successor@ == deps[x as int].successor@
                &&& forall|j: int| 0 <= j < m ==> !((#[trigger] moves[j]).predecessor@ == deps[x as int].predecessor@
                    && moves[j].successor@ == deps[x as int].successor@)
            }
            &&& forall|i: int, j: int| 0 <= i < j < r.len() ==> r[i].0 < r[j].0
            &&& forall|x: int, m: int| #![trigger deps[x], moves[m]] 0 <= x < k && 0 <= m < moves.len()
                && deps[x].kind == DependencyType::FinishToStart && moves[m].predecessor@ == deps[x].predecessor@
                && moves[m].successor@ == deps[x].successor@ ==> exists|i: int|
                0 <= i < r.len() && (#[trigger] r[i]).0 == x
        }),
    decreases k,
{
    if k > 0 {
        lemma_rewrites_prefix(deps, moves, k - 1);
        let d = deps[k - 1];
        lemma_first_move(moves, d.predecessor@, d.successor@);
        let p = rewrites(deps, moves, k - 1);
        let r = rewrites(deps, moves, k);
        assert(((k - 1) as usize) as int == k - 1);
        match first_move(moves, d.predecessor@, d.successor@) {
            Some(m) if d.kind == DependencyType::FinishToStart => {
                assert((m as usize) as int == m);
                assert(r == p.push(((k - 1) as usize, m as usize)));
                assert forall|i: int| #![trigger r[i]] 0 <= i < r.len() implies {
                    let (x, m) = r[i];
                    &&& 0 <= x < k
                    &&& 0 <= m < moves.len()
                    &&& deps[x as int].kind == DependencyType::FinishToStart
                    &&& moves[m as int].predecessor@ == deps[x as int].predecessor@
                    &&& moves[m as int].successor@ == deps[x as int].successor@
                    &&& forall|j: int| 0 <= j < m ==> !((#[trigger] moves[j]).predecessor@ == deps[x as int].predecessor@
                        && moves[j].successor@ == deps[x as int].successor@)
                } by {
                    if i < p.len() {
                        assert(r[i] == p[i]);
                    }
                }
                assert forall|i: int, j: int| 0 <= i < j < r.len() implies r[i].0 < r[j].0 by {
                    if j < p.len() {
                        assert(r[i] == p[i] && r[j] == p[j]);
                    } else {
                        assert(r[i] == p[i]);
                    }
                }
                assert forall|x: int, m2: int| #![trigger deps[x], moves[m2]] 0 <= x < k && 0 <= m2 < moves.len()
                    && deps[x].kind == DependencyType::FinishToStart && moves[m2].predecessor@ == deps[x].predecessor@
                    && moves[m2].successor@ == deps[x].successor@ implies exists|i: int|
                    0 <= i < r.len() && (#[trigger] r[i]).0 == x by {
                    if x < k - 1 {
                        let i = choose|i: int| 0 <= i < p.len() && (#[trigger] p[i]).0 == x;
                        assert(r[i] == p[i]);
                    } else {
                        assert(r[p.len() as int].0 == x);
                    }
                }
            },
            _ => {
                assert(r == p);
                assert forall|x: int, m2: int| #![trigger deps[x], moves[m2]] 0 <= x < k && 0 <= m2 < moves.len()
                    && deps[x].kind == DependencyType::FinishToStart && moves[m2].predecessor@ == deps[x].predecessor@
                    && moves[m2].successor@ == deps[x].successor@ implies exists|i: int|
                    0 <= i < r.len() && (#[trigger] r[i]).0 == x by {
                    if x == k - 1 {
                        assert(!(moves[m2].predecessor@ == d.predecessor@ && moves[m2].successor@ == d.successor@));
                    }
                }
            },
        }
    }
}

/// Applying fast-track moves rewrites exactly the finish-to-start
/// dependencies that some move names, each once and in order, and each
/// takes its lag from the first move that names it.
pub proof fn lemma_rewrites_use_first_move(deps: Seq<TypedDep>, moves: Seq<Dep>)
    requires
        deps.len() <= usize::MAX,
        moves.len() <= usize::MAX,
    ensures
        ({
            let r = rewrites(deps, moves, deps.len() as int);
            &&& forall|i: int| #![trigger r[i]] 0 <= i < r.len() ==> {
                let (x, m) = r[i];
                &&& 0 <= x < deps.len()
                &&& 0 <= m < moves.len()
                &&& deps[x as int].kind == DependencyType::FinishToStart
                &&& moves[m as int].predecessor@ == deps[x as int].predecessor@
                &&& moves[m as int].successor@ == deps[x as int].successor@
                &&& forall|j: int| 0 <= j < m ==> !((#[trigger] moves[j]).predecessor@ == deps[x as int].predecessor@
                    && moves[j].successor@ == deps[x as int].successor@)
            }
            &&& forall|i: int, j: int| 0 <= i < j < r.len() ==> r[i].0 < r[j].0
            &&& forall|x: int, m: int| #![trigger deps[x], moves[m]] 0 <= x < deps.len() && 0 <= m < moves.len()
                && deps[x].kind == DependencyType::FinishToStart && moves[m].predecessor@ == deps[x].predecessor@
                && moves[m].successor@ == deps[x].successor@ ==> exists|i: int|
                0 <= i < r.len() && (#[trigger] r[i]).0 == x
        }),
{
    lemma_rewrites_prefix(deps, moves, deps.len() as int);
}

} // verus!
