//! The schedule-quality report's own rules: the tags of anomaly kinds and
//! severities, which anomalies are reported (one per task and kind), and
//! which tasks stand alone.

use vstd::prelude::*;

use crate::graph::Dep;
use crate::text::{decimal, decimal_chars, str_eq, string_of, string_views};

verus! {

/// The kinds of anomaly the schedule analyzer reports.
#[derive(Debug, Clone, Copy, PartialEq, Eq)]
pub enum AnomalyKind {
    UnusualDuration,
    MissingDependency,
    ExcessiveFloat,
    NegativeFloat,
    MissingResource,
    DurationOutlier,
    HighRisk,
    InconsistentDates,
    OpenEndedActivity,
}

/// How serious an anomaly is.
#[derive(Debug, Clone, Copy, PartialEq, Eq)]
pub enum Severity {
    Low,
    Medium,
    High,
    Critical,
}

/// The tag of an anomaly kind in the report; an open-ended task is
/// reported as an orphan.
pub open spec fn anomaly_tag(k: AnomalyKind) -> Seq<char> {
    match k {
        AnomalyKind::UnusualDuration => "unusual_duration"@,
        AnomalyKind::MissingDependency => "missing_dependency"@,
        AnomalyKind::ExcessiveFloat => "excessive_float"@,
        AnomalyKind::NegativeFloat => "negative_float"@,
        AnomalyKind::MissingResource => "missing_resource"@,
        AnomalyKind::DurationOutlier => "duration_outlier"@,
        AnomalyKind::HighRisk => "high_risk"@,
        AnomalyKind::InconsistentDates => "inconsistent_dates"@,
        AnomalyKind::OpenEndedActivity => "orphan_task"@,
    }
}

/// The tag of a severity in the report: medium and high are both warnings.
pub open spec fn severity_label(s: Severity) -> Seq<char> {
    match s {
        Severity::Low => "info"@,
        Severity::Medium => "warning"@,
        Severity::High => "warning"@,
        Severity::Critical => "critical"@,
    }
}

/// The tag of an anomaly kind.
pub fn anomaly_type_tag(k: AnomalyKind) -> (r: &'static str)
    ensures
        r@ == anomaly_tag(k),
{
    match k {
        AnomalyKind::UnusualDuration => "unusual_duration",
        AnomalyKind::MissingDependency => "missing_dependency",
        AnomalyKind::ExcessiveFloat => "excessive_float",
        AnomalyKind::NegativeFloat => "negative_float",
        AnomalyKind::MissingResource => "missing_resource",
        AnomalyKind::DurationOutlier => "duration_outlier",
        AnomalyKind::HighRisk => "high_risk",
        AnomalyKind::InconsistentDates => "inconsistent_dates",
        AnomalyKind::OpenEndedActivity => "orphan_task",
    }
}

/// The tag of a severity.
pub fn severity_tag(s: Severity) -> (r: &'static str)
    ensures
        r@ == severity_label(s),
{
    match s {
        Severity::Low => "info",
        Severity::Medium => "warning",
        Severity::High => "warning",
        Severity::Critical => "critical",
    }
}

/// A reported anomaly, by task id and kind tag.
#[derive(Debug, Clone)]
pub struct AnomalyKey {
    pub task: String,
    pub kind: String,
}

/// Whether the keys at `i` and `j` name the same task and kind.
pub open spec fn same_key(keys: Seq<AnomalyKey>, i: int, j: int) -> bool {
    keys[i].task@ == keys[j].task@ && keys[i].kind@ == keys[j].kind@
}

/// Which anomalies are reported: each key the first time it comes, none
/// of its repeats.
pub fn first_sightings(keys: &Vec<AnomalyKey>) -> (r: Vec<bool>)
    ensures
        r.len() == keys.len(),
        forall|i: int| 0 <= i < keys.len() ==> (#[trigger] r@[i] <==> forall|j: int| 0 <= j < i ==> !same_key(keys@, j, i)),
{
    let mut r: Vec<bool> = Vec::new();
    let mut i: usize = 0;
    while i < keys.len()
        invariant
            i <= keys.len(),
            r.len() == i,
            forall|k: int| 0 <= k < i ==> (#[trigger] r@[k] <==> forall|j: int| 0 <= j < k ==> !same_key(keys@, j, k)),
        decreases keys.len() - i,
    {
        let mut fresh = true;
        let mut j: usize = 0;
        while j < i
            invariant
                i < keys.len(),
                j <= i,
                fresh <==> forall|m: int| 0 <= m < j ==> !same_key(keys@, m, i as int),
            decreases i - j,
        {
            let same = str_eq(keys[j].task.as_str(), keys[i].task.as_str()) && str_eq(
                keys[j].kind.as_str(),
                keys[i].kind.as_str(),
            );
            assert(same == same_key(keys@, j as int, i as int));
            if same {
                fresh = false;
            }
            proof {
                if !same && (forall|m: int| 0 <= m < j ==> !same_key(keys@, m, i as int)) {
                    assert forall|m: int| 0 <= m < j + 1 implies !same_key(keys@, m, i as int) by {}
                }
            }
            j = j + 1;
        }
        r.push(fresh);
        i = i + 1;
    }
    r
}

/// Whether task `id` has neither a predecessor nor a successor in `deps`.
pub open spec fn is_orphan(deps: Seq<Dep>, id: Seq<char>) -> bool {
    forall|k: int| 0 <= k < deps.len() ==> (#[trigger] deps[k]).predecessor@ != id && deps[k].successor@ != id
}

/// The tasks among the first `k` of `ids` that stand alone, in order.
pub open spec fn orphans(ids: Seq<Seq<char>>, deps: Seq<Dep>, k: int) -> Seq<Seq<char>>
    decreases k,
{
    if k <= 0 {
        seq![]
    } else if is_orphan(deps, ids[k - 1]) {
        orphans(ids, deps, k - 1).push(ids[k - 1])
    } else {
        orphans(ids, deps, k - 1)
    }
}

fn linked_anywhere(deps: &Vec<Dep>, id: &str) -> (r: bool)
    ensures
        r == !is_orphan(deps@, id@),
{
    let mut i: usize = 0;
    while i < deps.len()
        invariant
            i <= deps.len(),
            forall|k: int| 0 <= k < i ==> (#[trigger] deps@[k]).predecessor@ != id@ && deps@[k].successor@ != id@,
        decreases deps.len() - i,
    {
        if str_eq(deps[i].predecessor.as_str(), id) || str_eq(deps[i].successor.as_str(), id) {
            return true;
        }
        i = i + 1;
    }
    false
}

/// The tasks with neither predecessors nor successors, in plan order.
pub fn orphan_tasks(ids: &Vec<String>, deps: &Vec<Dep>) -> (r: Vec<String>)
    ensures
        string_views(r@) == orphans(string_views(ids@), deps@, ids.len() as int),
{
    let mut r: Vec<String> = Vec::new();
    let mut i: usize = 0;
    while i < ids.len()
        invariant
            i <= ids.len(),
            string_views(r@) == orphans(string_views(ids@), deps@, i as int),
        decreases ids.len() - i,
    {
        if !linked_anywhere(deps, ids[i].as_str()) {
            let ghost before = r@;
            r.push(ids[i].clone());
            assert(string_views(r@) =~= string_views(before).push(ids@[i as int]@));
        }
        i = i + 1;
    }
    r
}


/// How many of the first `k` reported kinds are `tag`.
pub open spec fn count_kind(kinds: Seq<Seq<char>>, tag: Seq<char>, k: int) -> nat
    decreases k,
{
    if k <= 0 {
        0
    } else {
        count_kind(kinds, tag, k - 1) + if kinds[k - 1] == tag {
            1nat
        } else {
            0nat
        }
    }
}

/// How many of the reported anomalies, given by their kind tags, are
/// orphan tasks.
pub fn orphan_count(kinds: &Vec<String>) -> (r: usize)
    ensures
        r == count_kind(string_views(kinds@), "orphan_task"@, kinds.len() as int),
{
    let tag = "orphan_task";
    let mut n: usize = 0;
    let mut i: usize = 0;
    while i < kinds.len()
        invariant
            i <= kinds.len(),
            tag@ == "orphan_task"@,
            n == count_kind(string_views(kinds@), tag@, i as int),
            n <= i,
        decreases kinds.len() - i,
    {
        assert(string_views(kinds@)[i as int] == kinds@[i as int]@);
        if str_eq(kinds[i].as_str(), tag) {
            n = n + 1;
        }
        i = i + 1;
    }
    n
}

/// The advice to buffer the critical path.
pub open spec fn buffer_advice() -> Seq<char> {
    "Add buffer time to the critical path to absorb unplanned delays."@
}

/// The advice to connect `n` orphan tasks.
pub open spec fn orphan_advice(n: nat) -> Seq<char> {
    "Connect "@ + decimal(n) + " orphan task(s) to the schedule with dependencies."@
}

/// The advice to review the quality metrics.
pub open spec fn review_advice() -> Seq<char> {
    "Review failing quality metrics (logic density, open-ended tasks, resource coverage)."@
}

/// What is said when there is nothing to advise.
pub open spec fn healthy_note() -> Seq<char> {
    "No actionable recommendations \u{2014} plan looks healthy."@
}

/// The recommendations of a quality report: the advice given before
/// (`earlier`), then buffering when there is a critical path, connecting
/// the orphan tasks when there are any, reviewing the metrics when asked;
/// and, when all that is nothing, the note that the plan looks healthy.
pub open spec fn recommendation_list(
    earlier: Seq<Seq<char>>,
    critical_path_len: nat,
    orphans: nat,
    review: bool,
) -> Seq<Seq<char>> {
    let a = if critical_path_len > 0 { earlier.push(buffer_advice()) } else { earlier };
    let b = if orphans > 0 { a.push(orphan_advice(orphans)) } else { a };
    let c = if review { b.push(review_advice()) } else { b };
    if c.len() == 0 { seq![healthy_note()] } else { c }
}

/// Finishes the recommendations of a quality report from the advice that
/// rests on durations and scores (`earlier`, and whether the metrics need
/// review), the critical path's length and the number of orphan tasks.
pub fn recommendations(earlier: &Vec<String>, critical_path_len: usize, orphans: usize, review: bool) -> (r: Vec<String>)
    ensures
        string_views(r@) == recommendation_list(string_views(earlier@), critical_path_len as nat, orphans as nat, review),
{
    let mut r: Vec<String> = Vec::new();
    let mut i: usize = 0;
    while i < earlier.len()
        invariant
            i <= earlier.len(),
            string_views(r@) == string_views(earlier@).subrange(0, i as int),
        decreases earlier.len() - i,
    {
        let ghost before = r@;
        r.push(earlier[i].clone());
        assert(string_views(r@) =~= string_views(before).push(earlier@[i as int]@));
        assert(string_views(earlier@).subrange(0, i + 1) =~= string_views(earlier@).subrange(0, i as int).push(earlier@[i as int]@));
        i = i + 1;
    }
    assert(string_views(earlier@).subrange(0, earlier.len() as int) =~= string_views(earlier@));
    if critical_path_len > 0 {
        let ghost before = r@;
        r.push(String::from_str("Add buffer time to the critical path to absorb unplanned delays."));
        assert(string_views(r@) =~= string_views(before).push(buffer_advice()));
    }
    if orphans > 0 {
        let ghost before = r@;
        let n = decimal_chars(orphans);
        let msg = String::from_str("Connect ").concat(string_of(&n).as_str()).concat(
            " orphan task(s) to the schedule with dependencies.",
        );
        r.push(msg);
        assert(string_views(r@) =~= string_views(before).push(orphan_advice(orphans as nat)));
    }
    if review {
        let ghost before = r@;
        r.push(String::from_str("Review failing quality metrics (logic density, open-ended tasks, resource coverage)."));
        assert(string_views(r@) =~= string_views(before).push(review_advice()));
    }
    if r.len() == 0 {
        let ghost before = r@;
        r.push(String::from_str("No actionable recommendations \u{2014} plan looks healthy."));
        assert(string_views(before).len() == 0);
        assert(string_views(r@) =~= seq![healthy_note()]);
    } else {
        assert(string_views(r@).len() == r.len());
    }
    r
}


/// The tasks reported as orphans are exactly the tasks that no dependency
/// names at either end.
pub proof fn lemma_orphans_are_unlinked(ids: Seq<Seq<char>>, deps: Seq<Dep>, k: int)
    requires
        0 <= k <= ids.len(),
    ensures
        forall|x: Seq<char>| #[trigger] orphans(ids, deps, k).contains(x) <==> ((exists|i: int|
            0 <= i < k && ids[i] == x) && forall|j: int| 0 <= j < deps.len() ==> (#[trigger] deps[j]).predecessor@
            != x && deps[j].successor@ != x),
    decreases k,
{
    if k > 0 {
        lemma_orphans_are_unlinked(ids, deps, k - 1);
        let p = orphans(ids, deps, k - 1);
        let r = orphans(ids, deps, k);
        let e = ids[k - 1];
        assert forall|x: Seq<char>| #[trigger] r.contains(x) <==> ((exists|i: int| 0 <= i < k && ids[i] == x)
            && forall|j: int| 0 <= j < deps.len() ==> (#[trigger] deps[j]).predecessor@ != x
            && deps[j].successor@ != x) by {
            if r.contains(x) {
                let m = choose|m: int| 0 <= m < r.len() && r[m] == x;
                if m < p.len() {
                    assert(r[m] == p[m]);
                    assert(p.contains(x));
                } else {
                    assert(x == e);
                    assert(is_orphan(deps, e));
                }
            }
            if (exists|i: int| 0 <= i < k && ids[i] == x) && forall|j: int| 0 <= j < deps.len()
                ==> (#[trigger] deps[j]).predecessor@ != x && deps[j].successor@ != x {
                let i = choose|i: int| 0 <= i < k && ids[i] == x;
                if i < k - 1 {
                    assert(p.contains(x));
                    let m = choose|m: int| 0 <= m < p.len() && p[m] == x;
                    if is_orphan(deps, e) {
                        assert(r[m] == x);
                    }
                } else {
                    assert(is_orphan(deps, e));
                    assert(r[p.len() as int] == x);
                }
            }
        }
    }
}

} // verus!
