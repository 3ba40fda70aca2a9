//! The vocabulary of a plan: dependency, resource and status kinds, task
//! priorities and optimization objectives, and how each is read from text.

use vstd::prelude::*;

use crate::error::CamshaftError;
use crate::text::{chars_of, lowercase, str_eq, string_of, to_lowercase, trim, trim_chars, trim_start};

verus! {

/// How a dependency links the dates of its two tasks.
#[derive(Debug, Clone, Copy, PartialEq, Eq)]
pub enum DependencyType {
    FinishToStart,
    StartToStart,
    FinishToFinish,
    StartToFinish,
}

/// The kinds of resource a task can draw on.
#[derive(Debug, Clone, Copy, PartialEq, Eq)]
pub enum ResourceType {
    Labor,
    Material,
    Equipment,
    NonLabor,
}

/// How urgent a task is for sprint selection.
#[derive(Debug, Clone, Copy, PartialEq, Eq)]
pub enum TaskPriority {
    Critical,
    High,
    Medium,
    Low,
}

/// What the schedule optimizer aims for.
#[derive(Debug, Clone, Copy, PartialEq, Eq)]
pub enum OptimizationObjective {
    MinimizeDuration,
    MinimizeCost,
    MinimizeResourcePeak,
    MultiObjective,
}

/// The progress state of a task.
#[derive(Debug, Clone, Copy, PartialEq, Eq)]
pub enum ActivityStatus {
    NotStarted,
    InProgress,
    Completed,
    Suspended,
}

/// The dependency type a lowercase name stands for.
pub open spec fn dependency_type_named(l: Seq<char>) -> Option<DependencyType> {
    if l == "fs"@ || l == "finish_to_start"@ {
        Some(DependencyType::FinishToStart)
    } else if l == "ss"@ || l == "start_to_start"@ {
        Some(DependencyType::StartToStart)
    } else if l == "ff"@ || l == "finish_to_finish"@ {
        Some(DependencyType::FinishToFinish)
    } else if l == "sf"@ || l == "start_to_finish"@ {
        Some(DependencyType::StartToFinish)
    } else {
        None
    }
}

/// The dependency type a lowercase name stands for, if any.
pub fn dependency_type_from_lowercase(l: &str) -> (r: Option<DependencyType>)
    ensures
        r == dependency_type_named(l@),
{
    if str_eq(l, "fs") || str_eq(l, "finish_to_start") {
        Some(DependencyType::FinishToStart)
    } else if str_eq(l, "ss") || str_eq(l, "start_to_start") {
        Some(DependencyType::StartToStart)
    } else if str_eq(l, "ff") || str_eq(l, "finish_to_finish") {
        Some(DependencyType::FinishToFinish)
    } else if str_eq(l, "sf") || str_eq(l, "start_to_finish") {
        Some(DependencyType::StartToFinish)
    } else {
        None
    }
}

/// The message for an unknown dependency type.
pub open spec fn unknown_dependency_type(s: Seq<char>) -> Seq<char> {
    "Unknown dependency type: "@ + s + ". Use fs, ss, ff, or sf."@
}

/// Reads a dependency type, case-insensitively.
pub fn parse_dependency_type(s: &str) -> (r: Result<DependencyType, CamshaftError>)
    ensures
        match dependency_type_named(lowercase(s@)) {
            Some(t) => r == Ok::<DependencyType, CamshaftError>(t),
            None => (r matches Err(CamshaftError::ValidationFailed(m)) && m@
                == unknown_dependency_type(s@)),
        },
{
    let l = to_lowercase(s);
    match dependency_type_from_lowercase(l.as_str()) {
        Some(t) => Ok(t),
        None => Err(
            CamshaftError::ValidationFailed(
                String::from_str("Unknown dependency type: ").concat(s).concat(
                    ". Use fs, ss, ff, or sf.",
                ),
            ),
        ),
    }
}

/// The resource type a lowercase name stands for.
pub open spec fn resource_type_named(l: Seq<char>) -> Option<ResourceType> {
    if l == "labor"@ {
        Some(ResourceType::Labor)
    } else if l == "material"@ {
        Some(ResourceType::Material)
    } else if l == "equipment"@ {
        Some(ResourceType::Equipment)
    } else if l == "nonlabor"@ || l == "non_labor"@ {
        Some(ResourceType::NonLabor)
    } else {
        None
    }
}

/// The resource type a lowercase name stands for, if any.
pub fn resource_type_from_lowercase(l: &str) -> (r: Option<ResourceType>)
    ensures
        r == resource_type_named(l@),
{
    if str_eq(l, "labor") {
        Some(ResourceType::Labor)
    } else if str_eq(l, "material") {
        Some(ResourceType::Material)
    } else if str_eq(l, "equipment") {
        Some(ResourceType::Equipment)
    } else if str_eq(l, "nonlabor") || str_eq(l, "non_labor") {
        Some(ResourceType::NonLabor)
    } else {
        None
    }
}

/// The message for an unknown resource type.
pub open spec fn unknown_resource_type(s: Seq<char>) -> Seq<char> {
    "Unknown resource type: "@ + s + ". Use labor, material, equipment, or nonlabor."@
}

/// Reads a resource type, case-insensitively.
pub fn parse_resource_type(s: &str) -> (r: Result<ResourceType, CamshaftError>)
    ensures
        match resource_type_named(lowercase(s@)) {
            Some(t) => r == Ok::<ResourceType, CamshaftError>(t),
            None => (r matches Err(CamshaftError::ValidationFailed(m)) && m@
                == unknown_resource_type(s@)),
        },
{
    let l = to_lowercase(s);
    match resource_type_from_lowercase(l.as_str()) {
        Some(t) => Ok(t),
        None => Err(
            CamshaftError::ValidationFailed(
                String::from_str("Unknown resource type: ").concat(s).concat(
                    ". Use labor, material, equipment, or nonlabor.",
                ),
            ),
        ),
    }
}

/// The priority a lowercase word stands for; unknown words mean medium.
pub open spec fn priority_named(l: Seq<char>) -> TaskPriority {
    if l == "critical"@ || l == "crit"@ || l == "must"@ || l == "must-have"@ || l == "must_have"@ {
        TaskPriority::Critical
    } else if l == "high"@ || l == "should"@ || l == "should-have"@ || l == "should_have"@ {
        TaskPriority::High
    } else if l == "low"@ || l == "could"@ || l == "could-have"@ || l == "could_have"@ || l
        == "nice"@ || l == "nice-to-have"@ {
        TaskPriority::Low
    } else {
        TaskPriority::Medium
    }
}

/// The priority a lowercase word stands for.
pub fn priority_from_lowercase(l: &str) -> (r: TaskPriority)
    ensures
        r == priority_named(l@),
{
    if str_eq(l, "critical") || str_eq(l, "crit") || str_eq(l, "must") || str_eq(l, "must-have")
        || str_eq(l, "must_have") {
        TaskPriority::Critical
    } else if str_eq(l, "high") || str_eq(l, "should") || str_eq(l, "should-have") || str_eq(
        l,
        "should_have",
    ) {
        TaskPriority::High
    } else if str_eq(l, "low") || str_eq(l, "could") || str_eq(l, "could-have") || str_eq(
        l,
        "could_have",
    ) || str_eq(l, "nice") || str_eq(l, "nice-to-have") {
        TaskPriority::Low
    } else {
        TaskPriority::Medium
    }
}

/// Reads a priority: surrounding whitespace is ignored, case does not
/// matter, and an unknown word means medium.
pub fn parse_priority(s: &str) -> (r: TaskPriority)
    ensures
        r == priority_named(lowercase(trim(s@))),
{
    let chars = chars_of(s);
    let t = string_of(&trim_chars(&chars));
    let l = to_lowercase(t.as_str());
    priority_from_lowercase(l.as_str())
}

/// The priority named in a description that starts, after whitespace, with
/// a bracketed word such as `"[high] fix login"`.
pub open spec fn bracket_priority(desc: Seq<char>) -> Option<TaskPriority> {
    let t = trim_start(desc);
    if t.len() > 0 && t[0] == '[' && exists|k: int| 1 <= k < t.len() && t[k] == ']' {
        let end = choose|k: int|
            1 <= k < t.len() && t[k] == ']' && forall|j: int| 1 <= j < k ==> t[j] != ']';
        Some(priority_named(lowercase(trim(t.subrange(1, end)))))
    } else {
        None
    }
}

/// The priority of a task: its `priority` field when that field holds a
/// string, else a bracketed word at the start of its description, else
/// medium.
pub open spec fn task_priority(field: Option<Seq<char>>, desc: Option<Seq<char>>) -> TaskPriority {
    match field {
        Some(p) => priority_named(lowercase(trim(p))),
        None => match desc {
            Some(d) => match bracket_priority(d) {
                Some(p) => p,
                None => TaskPriority::Medium,
            },
            None => TaskPriority::Medium,
        },
    }
}

/// The priority of a task from its `priority` field (present when the field
/// holds a string) and its description.
pub fn activity_priority(priority_field: Option<&str>, description: Option<&str>) -> (r:
    TaskPriority)
    ensures
        r == task_priority(
            match priority_field {
                Some(p) => Some(p@),
                None => None,
            },
            match description {
                Some(d) => Some(d@),
                None => None,
            },
        ),
{
    if let Some(p) = priority_field {
        return parse_priority(p);
    }
    if let Some(desc) = description {
        let d = chars_of(desc);
        let n = d.len();
        let mut i: usize = 0;
        assert(d@.subrange(0, n as int) =~= d@);
        while i < n
            invariant
                n == d.len(),
                i <= n,
                trim_start(d@) == trim_start(d@.subrange(i as int, n as int)),
            ensures
                i <= n,
                trim_start(d@) == trim_start(d@.subrange(i as int, n as int)),
                i == n || !crate::text::is_ws(d@[i as int]),
            decreases n - i,
        {
            if !crate::text::is_whitespace(d[i]) {
                break;
            }
            let ghost rest = d@.subrange(i as int, n as int);
            assert(rest.drop_first() =~= d@.subrange(i + 1, n as int));
            i = i + 1;
        }
        let ghost t = d@.subrange(i as int, n as int);
        assert(trim_start(d@) == t);
        if i < n && d[i] == '[' {
            let mut k: usize = i + 1;
            while k < n
                invariant
                    n == d.len(),
                    i < n,
                    d@[i as int] == '[',
                    i + 1 <= k <= n,
                    forall|j: int| i + 1 <= j < k ==> d@[j] != ']',
                ensures
                    i + 1 <= k <= n,
                    forall|j: int| i + 1 <= j < k ==> d@[j] != ']',
                    k == n || d@[k as int] == ']',
                decreases n - k,
            {
                if d[k] == ']' {
                    break;
                }
                k = k + 1;
            }
            if k < n {
                let word = crate::text::slice_chars(&d, i + 1, k);
                let w = string_of(&word);
                let ghost end = (k - i) as int;
                assert(t[end] == ']');
                assert forall|j: int| 1 <= j < end implies t[j] != ']' by {
                    assert(t[j] == d@[i + j]);
                }
                let ghost chosen = choose|m: int|
                    1 <= m < t.len() && t[m] == ']' && forall|j: int| 1 <= j < m ==> t[j] != ']';
                assert(chosen == end) by {
                    if chosen < end {
                        assert(t[chosen] == d@[i + chosen]);
                    } else if chosen > end {
                        assert(t[end] != ']');
                    }
                }
                assert(t.subrange(1, end) =~= word@);
                return parse_priority(w.as_str());
            } else {
                assert forall|m: int| 1 <= m < t.len() implies t[m] != ']' by {
                    assert(t[m] == d@[i + m]);
                }
            }
        }
        return TaskPriority::Medium;
    }
    TaskPriority::Medium
}

/// The objective an optimization request names; anything unknown means
/// minimizing duration.
pub open spec fn objective_named(s: Seq<char>) -> OptimizationObjective {
    if s == "min-cost"@ {
        OptimizationObjective::MinimizeCost
    } else if s == "min-resource"@ || s == "min-resource-peak"@ {
        OptimizationObjective::MinimizeResourcePeak
    } else if s == "multi-objective"@ || s == "multi"@ {
        OptimizationObjective::MultiObjective
    } else {
        OptimizationObjective::MinimizeDuration
    }
}

/// Reads an optimization objective (exact, case-sensitive names).
pub fn parse_objective(s: &str) -> (r: OptimizationObjective)
    ensures
        r == objective_named(s@),
{
    if str_eq(s, "min-cost") {
        OptimizationObjective::MinimizeCost
    } else if str_eq(s, "min-resource") || str_eq(s, "min-resource-peak") {
        OptimizationObjective::MinimizeResourcePeak
    } else if str_eq(s, "multi-objective") || str_eq(s, "multi") {
        OptimizationObjective::MultiObjective
    } else {
        OptimizationObjective::MinimizeDuration
    }
}

/// Whether an objective name asks for the genetic optimizer.
pub open spec fn wants_genetic_spec(s: Seq<char>) -> bool {
    s == "min-duration"@ || s == "min-cost"@ || s == "multi-objective"@ || s == "multi"@ || s
        == "min-resource"@ || s == "min-resource-peak"@
}

/// Whether an objective name asks for the genetic optimizer.
pub fn wants_genetic(s: &str) -> (r: bool)
    ensures
        r == wants_genetic_spec(s@),
{
    str_eq(s, "min-duration") || str_eq(s, "min-cost") || str_eq(s, "multi-objective") || str_eq(
        s,
        "multi",
    ) || str_eq(s, "min-resource") || str_eq(s, "min-resource-peak")
}

/// The name under which a task status is reported.
pub open spec fn status_name(s: ActivityStatus) -> Seq<char> {
    match s {
        ActivityStatus::NotStarted => "not_started"@,
        ActivityStatus::InProgress => "in_progress"@,
        ActivityStatus::Completed => "completed"@,
        ActivityStatus::Suspended => "suspended"@,
    }
}

/// The name under which a task status is reported.
pub fn status_tag(s: ActivityStatus) -> (r: &'static str)
    ensures
        r@ == status_name(s),
{
    match s {
        ActivityStatus::NotStarted => "not_started",
        ActivityStatus::InProgress => "in_progress",
        ActivityStatus::Completed => "completed",
        ActivityStatus::Suspended => "suspended",
    }
}


/// A task's `priority` field, when it holds a string, decides its priority
/// whatever its description says; a task with neither a field nor a
/// description is medium.
pub proof fn lemma_priority_field_decides(p: Seq<char>, d1: Option<Seq<char>>, d2: Option<Seq<char>>)
    ensures
        task_priority(Some(p), d1) == task_priority(Some(p), d2),
        task_priority(None, None) == TaskPriority::Medium,
{
}

} // verus!
