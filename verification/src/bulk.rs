//! Building a whole plan from one bulk description: tasks, milestones,
//! resources, dependencies and assignments are checked together, and the
//! plan is made only when every one of them is sound.

use vstd::prelude::*;

use crate::dates::{date_result_view, parse_ymd, ymd_parse, CalendarDate};
use crate::error::CamshaftError;
use crate::kinds::{
    dependency_type_from_lowercase, dependency_type_named, resource_type_from_lowercase,
    resource_type_named, unknown_dependency_type, unknown_resource_type, DependencyType,
    ResourceType,
};
use crate::plan::{parse_plan_mode, PlanMode};
use crate::text::{
    contains_str, decimal, decimal_chars, join, join_strings, lowercase, string_of, string_views,
    to_lowercase,
};

verus! {

/// A task of a bulk description (its duration and other details stay with
/// the caller, by position).
#[derive(Debug, Clone)]
pub struct BulkTask {
    pub id: String,
}

/// A milestone of a bulk description.
#[derive(Debug, Clone)]
pub struct BulkMilestone {
    pub id: String,
}

/// A resource of a bulk description; no type means labor.
#[derive(Debug, Clone)]
pub struct BulkResource {
    pub id: String,
    pub res_type: Option<String>,
}

/// A dependency of a bulk description; no type means finish-to-start.
#[derive(Debug, Clone)]
pub struct BulkDep {
    pub from: String,
    pub to: String,
    pub dep_type: Option<String>,
}

/// A resource assignment of a bulk description.
#[derive(Debug, Clone)]
pub struct BulkAssignment {
    pub task: String,
    pub resource: String,
}

/// A whole bulk description.
#[derive(Debug, Clone)]
pub struct BulkPlan {
    pub mode: Option<String>,
    pub start: Option<String>,
    pub tasks: Vec<BulkTask>,
    pub dependencies: Vec<BulkDep>,
    pub milestones: Vec<BulkMilestone>,
    pub resources: Vec<BulkResource>,
    pub assignments: Vec<BulkAssignment>,
}

/// The plan to create: its mode and start, and the positions of the items
/// of the description that go into it, with the types read for them.
#[derive(Debug, Clone)]
pub struct BulkOutcome {
    pub mode: PlanMode,
    pub start: Option<CalendarDate>,
    pub tasks: Vec<usize>,
    pub milestones: Vec<usize>,
    pub resources: Vec<(usize, ResourceType)>,
    pub dependencies: Vec<(usize, DependencyType)>,
    pub assignments: Vec<usize>,
}

/// What checking the items has found so far.
pub struct BulkState {
    pub activities: Seq<Seq<char>>,
    pub resource_ids: Seq<Seq<char>>,
    pub errors: Seq<Seq<char>>,
    pub tasks: Seq<usize>,
    pub milestones: Seq<usize>,
    pub resources: Seq<(usize, ResourceType)>,
    pub dependencies: Seq<(usize, DependencyType)>,
    pub assignments: Seq<usize>,
}

pub open spec fn empty_state() -> BulkState {
    BulkState {
        activities: seq![],
        resource_ids: seq![],
        errors: seq![],
        tasks: seq![],
        milestones: seq![],
        resources: seq![],
        dependencies: seq![],
        assignments: seq![],
    }
}

/// After the first `k` tasks: a task whose id is already an activity is an
/// error, any other becomes an activity.
pub open spec fn task_stage(st: BulkState, tasks: Seq<BulkTask>, k: int) -> BulkState
    decreases k,
{
    if k <= 0 {
        st
    } else {
        let p = task_stage(st, tasks, k - 1);
        let id = tasks[k - 1].id@;
        if p.activities.contains(id) {
            BulkState { errors: p.errors.push("Duplicate task id: "@ + id), ..p }
        } else {
            BulkState { activities: p.activities.push(id), tasks: p.tasks.push((k - 1) as usize), ..p }
        }
    }
}

/// After the first `k` milestones, which share the id space of tasks.
pub open spec fn milestone_stage(st: BulkState, ms: Seq<BulkMilestone>, k: int) -> BulkState
    decreases k,
{
    if k <= 0 {
        st
    } else {
        let p = milestone_stage(st, ms, k - 1);
        let id = ms[k - 1].id@;
        if p.activities.contains(id) {
            BulkState { errors: p.errors.push("Duplicate milestone/task id: "@ + id), ..p }
        } else {
            BulkState {
                activities: p.activities.push(id),
                milestones: p.milestones.push((k - 1) as usize),
                ..p
            }
        }
    }
}


/// The type name of a resource, labor when none is given.
pub open spec fn resource_type_text(r: BulkResource) -> Seq<char> {
    match r.res_type {
        Some(t) => t@,
        None => "labor"@,
    }
}

/// After the first `k` resources: a repeated id or an unknown type is an
/// error.
pub open spec fn resource_stage(st: BulkState, rs: Seq<BulkResource>, k: int) -> BulkState
    decreases k,
{
    if k <= 0 {
        st
    } else {
        let p = resource_stage(st, rs, k - 1);
        let id = rs[k - 1].id@;
        if p.resource_ids.contains(id) {
            BulkState { errors: p.errors.push("Duplicate resource id: "@ + id), ..p }
        } else {
            match rs[k - 1].res_type {
                None => BulkState {
                    resource_ids: p.resource_ids.push(id),
                    resources: p.resources.push(((k - 1) as usize, ResourceType::Labor)),
                    ..p
                },
                Some(t) => match resource_type_named(lowercase(t@)) {
                    None => BulkState {
                        errors: p.errors.push(
                            "Resource "@ + id + ": Validation failed: "@ + unknown_resource_type(t@),
                        ),
                        ..p
                    },
                    Some(rt) => BulkState {
                        resource_ids: p.resource_ids.push(id),
                        resources: p.resources.push(((k - 1) as usize, rt)),
                        ..p
                    },
                },
            }
        }
    }
}


/// The type name of a dependency, finish-to-start when none is given.
pub open spec fn dep_type_text(d: BulkDep) -> Seq<char> {
    match d.dep_type {
        Some(t) => t@,
        None => "fs"@,
    }
}

/// After the first `k` dependencies: each must join two activities and
/// have a known type.
pub open spec fn dependency_stage(st: BulkState, ds: Seq<BulkDep>, k: int) -> BulkState
    decreases k,
{
    if k <= 0 {
        st
    } else {
        let p = dependency_stage(st, ds, k - 1);
        let from = ds[k - 1].from@;
        let to = ds[k - 1].to@;
        if !p.activities.contains(from) || !p.activities.contains(to) {
            BulkState {
                errors: p.errors.push(
                    "Dependency references nonexistent task: "@ + from + " -> "@ + to,
                ),
                ..p
            }
        } else {
            match ds[k - 1].dep_type {
                None => BulkState {
                    dependencies: p.dependencies.push(((k - 1) as usize, DependencyType::FinishToStart)),
                    ..p
                },
                Some(t) => match dependency_type_named(lowercase(t@)) {
                    None => BulkState {
                        errors: p.errors.push(
                            "Dependency "@ + from + " -> "@ + to + ": Validation failed: "@
                                + unknown_dependency_type(t@),
                        ),
                        ..p
                    },
                    Some(dt) => BulkState {
                        dependencies: p.dependencies.push(((k - 1) as usize, dt)),
                        ..p
                    },
                },
            }
        }
    }
}

/// After the first `k` assignments: each must name an activity and a
/// resource.
pub open spec fn assignment_stage(st: BulkState, asg: Seq<BulkAssignment>, k: int) -> BulkState
    decreases k,
{
    if k <= 0 {
        st
    } else {
        let p = assignment_stage(st, asg, k - 1);
        let task = asg[k - 1].task@;
        let res = asg[k - 1].resource@;
        if !p.activities.contains(task) {
            BulkState {
                errors: p.errors.push("Assignment references nonexistent task: "@ + task),
                ..p
            }
        } else if !p.resource_ids.contains(res) {
            BulkState {
                errors: p.errors.push("Assignment references nonexistent resource: "@ + res),
                ..p
            }
        } else {
            BulkState { assignments: p.assignments.push((k - 1) as usize), ..p }
        }
    }
}

/// What checking all items of `plan` finds.
pub open spec fn bulk_items(plan: BulkPlan) -> BulkState {
    let s1 = task_stage(empty_state(), plan.tasks@, plan.tasks.len() as int);
    let s2 = milestone_stage(s1, plan.milestones@, plan.milestones.len() as int);
    let s3 = resource_stage(s2, plan.resources@, plan.resources.len() as int);
    let s4 = dependency_stage(s3, plan.dependencies@, plan.dependencies.len() as int);
    assignment_stage(s4, plan.assignments@, plan.assignments.len() as int)
}

/// The mode name of a description, sprint when none is given.
pub open spec fn mode_text(plan: BulkPlan) -> Seq<char> {
    match plan.mode {
        Some(m) => m@,
        None => "sprint"@,
    }
}

/// The message for a description with errors.
pub open spec fn bulk_errors_message(errors: Seq<Seq<char>>) -> Seq<char> {
    "Bulk file has "@ + decimal(errors.len()) + " error(s): "@ + join(errors, "; "@)
}

/// Whether `d` is the start date that `reading` gives: the date read, or
/// none where no start date was given.
pub open spec fn start_agrees(d: Option<CalendarDate>, reading: Option<Result<(i32, u32, u32), Seq<char>>>) -> bool {
    match reading {
        Some(Ok(t)) => d matches Some(x) && (x.year, x.month, x.day) == t,
        _ => d is None,
    }
}

/// Whether `out` is the plan to create from the items checked in `st`, in
/// `mode`, from the start date that `reading` gives.
pub open spec fn outcome_matches(
    out: BulkOutcome,
    st: BulkState,
    mode: PlanMode,
    reading: Option<Result<(i32, u32, u32), Seq<char>>>,
) -> bool {
    &&& out.mode == mode
    &&& start_agrees(out.start, reading)
    &&& out.tasks@ == st.tasks
    &&& out.milestones@ == st.milestones
    &&& out.resources@ == st.resources
    &&& out.dependencies@ == st.dependencies
    &&& out.assignments@ == st.assignments
}

/// What checking `plan` gives, where `reading` is the reading of its start
/// date: an unknown mode first, then an unreadable start date, then the
/// errors of the items all together; else the plan to create.
pub open spec fn bulk_result(
    plan: BulkPlan,
    reading: Option<Result<(i32, u32, u32), Seq<char>>>,
    r: Result<BulkOutcome, CamshaftError>,
) -> bool {
    let m = lowercase(mode_text(plan));
    let st = bulk_items(plan);
    let mode = match plan.mode {
        None => Some(PlanMode::Sprint),
        Some(_) => if m == "sprint"@ {
            Some(PlanMode::Sprint)
        } else if m == "roadmap"@ {
            Some(PlanMode::Roadmap)
        } else {
            None
        },
    };
    if mode is None {
        r matches Err(CamshaftError::ValidationFailed(msg)) && msg@ == "Unknown mode: "@ + m
            + ". Use 'sprint' or 'roadmap'."@
    } else if reading is Some && reading->0 is Err {
        r matches Err(CamshaftError::ValidationFailed(msg)) && msg@ == "Invalid start date: "@
            + reading->0->Err_0
    } else if st.errors.len() > 0 {
        r matches Err(CamshaftError::ValidationFailed(msg)) && msg@ == bulk_errors_message(st.errors)
    } else {
        r matches Ok(out) && outcome_matches(out, st, mode->0, reading)
    }
}

/// The reading of a start date as plain values.
pub open spec fn start_reading(start: Option<Result<CalendarDate, String>>) -> Option<Result<(i32, u32, u32), Seq<char>>> {
    match start {
        Some(r) => Some(date_result_view(r)),
        None => None,
    }
}

/// What chrono reads from the start date of `plan`, if it gives one.
pub open spec fn plan_start_reading(plan: BulkPlan) -> Option<Result<(i32, u32, u32), Seq<char>>> {
    match plan.start {
        Some(s) => Some(ymd_parse(s@)),
        None => None,
    }
}

/// The working state of the check.
struct BulkBuild {
    activities: Vec<String>,
    resource_ids: Vec<String>,
    errors: Vec<String>,
    tasks: Vec<usize>,
    milestones: Vec<usize>,
    resources: Vec<(usize, ResourceType)>,
    dependencies: Vec<(usize, DependencyType)>,
    assignments: Vec<usize>,
}

spec fn build_view(b: BulkBuild) -> BulkState {
    BulkState {
        activities: string_views(b.activities@),
        resource_ids: string_views(b.resource_ids@),
        errors: string_views(b.errors@),
        tasks: b.tasks@,
        milestones: b.milestones@,
        resources: b.resources@,
        dependencies: b.dependencies@,
        assignments: b.assignments@,
    }
}

proof fn lemma_push_view(v: Seq<String>, x: String)
    ensures
        string_views(v.push(x)) == string_views(v).push(x@),
{
    assert(string_views(v.push(x)) =~= string_views(v).push(x@));
}

fn check_tasks(tasks: &Vec<BulkTask>, b: &mut BulkBuild)
    ensures
        build_view(*final(b)) == task_stage(build_view(*old(b)), tasks@, tasks.len() as int),
{
    let ghost start = build_view(*b);
    let mut k: usize = 0;
    while k < tasks.len()
        invariant
            k <= tasks.len(),
            build_view(*b) == task_stage(start, tasks@, k as int),
        decreases tasks.len() - k,
    {
        let id = &tasks[k].id;
        if contains_str(&b.activities, id.as_str()) {
            let m = String::from_str("Duplicate task id: ").concat(id.as_str());
            proof { lemma_push_view(b.errors@, m); }
            b.errors.push(m);
        } else {
            let c = id.clone();
            proof { lemma_push_view(b.activities@, c); }
            b.activities.push(c);
            b.tasks.push(k);
        }
        k = k + 1;
    }
}

fn check_milestones(ms: &Vec<BulkMilestone>, b: &mut BulkBuild)
    ensures
        build_view(*final(b)) == milestone_stage(build_view(*old(b)), ms@, ms.len() as int),
{
    let ghost start = build_view(*b);
    let mut k: usize = 0;
    while k < ms.len()
        invariant
            k <= ms.len(),
            build_view(*b) == milestone_stage(start, ms@, k as int),
        decreases ms.len() - k,
    {
        let id = &ms[k].id;
        if contains_str(&b.activities, id.as_str()) {
            let m = String::from_str("Duplicate milestone/task id: ").concat(id.as_str());
            proof { lemma_push_view(b.errors@, m); }
            b.errors.push(m);
        } else {
            let c = id.clone();
            proof { lemma_push_view(b.activities@, c); }
            b.activities.push(c);
            b.milestones.push(k);
        }
        k = k + 1;
    }
}

fn check_resources(rs: &Vec<BulkResource>, b: &mut BulkBuild)
    ensures
        build_view(*final(b)) == resource_stage(build_view(*old(b)), rs@, rs.len() as int),
{
    let ghost start = build_view(*b);
    let mut k: usize = 0;
    while k < rs.len()
        invariant
            k <= rs.len(),
            build_view(*b) == resource_stage(start, rs@, k as int),
        decreases rs.len() - k,
    {
        let r = &rs[k];
        let id = &r.id;
        if contains_str(&b.resource_ids, id.as_str()) {
            let m = String::from_str("Duplicate resource id: ").concat(id.as_str());
            proof { lemma_push_view(b.errors@, m); }
            b.errors.push(m);
        } else if r.res_type.is_none() {
            let c = id.clone();
            proof { lemma_push_view(b.resource_ids@, c); }
            b.resource_ids.push(c);
            b.resources.push((k, ResourceType::Labor));
        } else {
            let t: &String = match &r.res_type {
                Some(t) => t,
                None => id,
            };
            assert(r.res_type == Some(*t));
            let l = to_lowercase(t.as_str());
            match resource_type_from_lowercase(l.as_str()) {
                None => {
                    let m = String::from_str("Resource ").concat(id.as_str()).concat(
                        ": Validation failed: ",
                    ).concat("Unknown resource type: ").concat(t.as_str()).concat(
                        ". Use labor, material, equipment, or nonlabor.",
                    );
                    assert(m@ =~= "Resource "@ + id@ + ": Validation failed: "@
                        + unknown_resource_type(t@));
                    proof { lemma_push_view(b.errors@, m); }
                    b.errors.push(m);
                },
                Some(rt) => {
                    let c = id.clone();
                    proof { lemma_push_view(b.resource_ids@, c); }
                    b.resource_ids.push(c);
                    b.resources.push((k, rt));
                },
            }
        }
        k = k + 1;
    }
}

fn check_dependencies(ds: &Vec<BulkDep>, b: &mut BulkBuild)
    ensures
        build_view(*final(b)) == dependency_stage(build_view(*old(b)), ds@, ds.len() as int),
{
    let ghost start = build_view(*b);
    let mut k: usize = 0;
    while k < ds.len()
        invariant
            k <= ds.len(),
            build_view(*b) == dependency_stage(start, ds@, k as int),
        decreases ds.len() - k,
    {
        let d = &ds[k];
        let has_from = contains_str(&b.activities, d.from.as_str());
        let has_to = contains_str(&b.activities, d.to.as_str());
        if !has_from || !has_to {
            let m = String::from_str("Dependency references nonexistent task: ").concat(
                d.from.as_str(),
            ).concat(" -> ").concat(d.to.as_str());
            proof { lemma_push_view(b.errors@, m); }
            b.errors.push(m);
        } else if d.dep_type.is_none() {
            b.dependencies.push((k, DependencyType::FinishToStart));
        } else {
            let t: &String = match &d.dep_type {
                Some(t) => t,
                None => &d.from,
            };
            assert(d.dep_type == Some(*t));
            let l = to_lowercase(t.as_str());
            match dependency_type_from_lowercase(l.as_str()) {
                None => {
                    let m = String::from_str("Dependency ").concat(d.from.as_str()).concat(
                        " -> ",
                    ).concat(d.to.as_str()).concat(": Validation failed: ").concat(
                        "Unknown dependency type: ",
                    ).concat(t.as_str()).concat(". Use fs, ss, ff, or sf.");
                    assert(m@ =~= "Dependency "@ + d.from@ + " -> "@ + d.to@
                        + ": Validation failed: "@ + unknown_dependency_type(t@));
                    proof { lemma_push_view(b.errors@, m); }
                    b.errors.push(m);
                },
                Some(dt) => {
                    b.dependencies.push((k, dt));
                },
            }
        }
        k = k + 1;
    }
}

fn check_assignments(asg: &Vec<BulkAssignment>, b: &mut BulkBuild)
    ensures
        build_view(*final(b)) == assignment_stage(build_view(*old(b)), asg@, asg.len() as int),
{
    let ghost start = build_view(*b);
    let mut k: usize = 0;
    while k < asg.len()
        invariant
            k <= asg.len(),
            build_view(*b) == assignment_stage(start, asg@, k as int),
        decreases asg.len() - k,
    {
        let a = &asg[k];
        if !contains_str(&b.activities, a.task.as_str()) {
            let m = String::from_str("Assignment references nonexistent task: ").concat(
                a.task.as_str(),
            );
            proof { lemma_push_view(b.errors@, m); }
            b.errors.push(m);
        } else if !contains_str(&b.resource_ids, a.resource.as_str()) {
            let m = String::from_str("Assignment references nonexistent resource: ").concat(
                a.resource.as_str(),
            );
            proof { lemma_push_view(b.errors@, m); }
            b.errors.push(m);
        } else {
            b.assignments.push(k);
        }
        k = k + 1;
    }
}

/// Checks a bulk description given the reading of its start date (`None`
/// when it names none): the mode first, then the start date, then every
/// item. The plan is returned only when no item has an error; otherwise one
/// validation error lists them all.
pub fn assemble_bulk_plan(plan: &BulkPlan, start: Option<Result<CalendarDate, String>>) -> (r: Result<
    BulkOutcome,
    CamshaftError,
>)
    ensures
        bulk_result(*plan, start_reading(start), r),
{
    let mode = match &plan.mode {
        None => PlanMode::Sprint,
        Some(m) => match parse_plan_mode(m.as_str()) {
            Ok(pm) => pm,
            Err(e) => return Err(e),
        },
    };
    let start_date: Option<CalendarDate> = match start {
        None => None,
        Some(Ok(d)) => Some(d),
        Some(Err(e)) => {
            return Err(
                CamshaftError::ValidationFailed(
                    String::from_str("Invalid start date: ").concat(e.as_str()),
                ),
            );
        },
    };
    let mut b = BulkBuild {
        activities: Vec::new(),
        resource_ids: Vec::new(),
        errors: Vec::new(),
        tasks: Vec::new(),
        milestones: Vec::new(),
        resources: Vec::new(),
        dependencies: Vec::new(),
        assignments: Vec::new(),
    };
    assert(build_view(b) =~= empty_state()) by {
        assert(string_views(b.activities@) =~= Seq::<Seq<char>>::empty());
        assert(string_views(b.resource_ids@) =~= Seq::<Seq<char>>::empty());
        assert(string_views(b.errors@) =~= Seq::<Seq<char>>::empty());
    }
    check_tasks(&plan.tasks, &mut b);
    check_milestones(&plan.milestones, &mut b);
    check_resources(&plan.resources, &mut b);
    check_dependencies(&plan.dependencies, &mut b);
    check_assignments(&plan.assignments, &mut b);
    assert(build_view(b) == bulk_items(*plan));
    if b.errors.len() > 0 {
        let n = decimal_chars(b.errors.len());
        let msg = String::from_str("Bulk file has ").concat(string_of(&n).as_str()).concat(
            " error(s): ",
        ).concat(join_strings(&b.errors, "; ").as_str());
        assert(string_views(b.errors@).len() == b.errors.len());
        return Err(CamshaftError::ValidationFailed(msg));
    }
    assert(string_views(b.errors@).len() == b.errors.len());
    Ok(
        BulkOutcome {
            mode,
            start: start_date,
            tasks: b.tasks,
            milestones: b.milestones,
            resources: b.resources,
            dependencies: b.dependencies,
            assignments: b.assignments,
        },
    )
}

/// Checks a bulk description, reading its start date with chrono.
pub fn build_bulk_plan(plan: &BulkPlan) -> (r: Result<BulkOutcome, CamshaftError>)
    ensures
        bulk_result(*plan, plan_start_reading(*plan), r),
{
    let start = match &plan.start {
        Some(s) => Some(parse_ymd(s.as_str())),
        None => None,
    };
    assemble_bulk_plan(plan, start)
}

// ---------------------------------------------------------------------------
// A bulk plan is created whole
// ---------------------------------------------------------------------------

/// The ids of the tasks at positions `pos`.
pub open spec fn task_ids_at(tasks: Seq<BulkTask>, pos: Seq<usize>) -> Seq<Seq<char>> {
    pos.map_values(|i: usize| tasks[i as int].id@)
}

/// The ids of the milestones at positions `pos`.
pub open spec fn milestone_ids_at(ms: Seq<BulkMilestone>, pos: Seq<usize>) -> Seq<Seq<char>> {
    pos.map_values(|i: usize| ms[i as int].id@)
}

/// The ids of the resources at the positions of `rs_pos`.
pub open spec fn resource_ids_at(rs: Seq<BulkResource>, rs_pos: Seq<(usize, ResourceType)>) -> Seq<Seq<char>> {
    rs_pos.map_values(|e: (usize, ResourceType)| rs[e.0 as int].id@)
}

/// The ids of the activities a bulk plan creates: its accepted tasks, then
/// its accepted milestones.
pub open spec fn created_activity_ids(plan: BulkPlan) -> Seq<Seq<char>> {
    let st = bulk_items(plan);
    task_ids_at(plan.tasks@, st.tasks) + milestone_ids_at(plan.milestones@, st.milestones)
}

/// The ids of the resources a bulk plan creates.
pub open spec fn created_resource_ids(plan: BulkPlan) -> Seq<Seq<char>> {
    resource_ids_at(plan.resources@, bulk_items(plan).resources)
}

proof fn lemma_task_stage(tasks: Seq<BulkTask>, k: int)
    requires
        0 <= k <= tasks.len() <= usize::MAX,
    ensures
        ({
            let st = task_stage(empty_state(), tasks, k);
            &&& st.activities == task_ids_at(tasks, st.tasks)
            &&& st.resource_ids == Seq::<Seq<char>>::empty()
            &&& st.milestones == Seq::<usize>::empty()
            &&& st.resources == Seq::<(usize, ResourceType)>::empty()
            &&& st.dependencies == Seq::<(usize, DependencyType)>::empty()
            &&& st.assignments == Seq::<usize>::empty()
        }),
    decreases k,
{
    if k > 0 {
        lemma_task_stage(tasks, k - 1);
        let p = task_stage(empty_state(), tasks, k - 1);
        let st = task_stage(empty_state(), tasks, k);
        assert(((k - 1) as usize) as int == k - 1);
        if !p.activities.contains(tasks[k - 1].id@) {
            assert(st.tasks == p.tasks.push((k - 1) as usize));
            assert(st.activities =~= task_ids_at(tasks, st.tasks));
        }
    } else {
        assert(task_ids_at(tasks, Seq::<usize>::empty()) =~= Seq::<Seq<char>>::empty());
    }
}

proof fn lemma_milestone_stage(s1: BulkState, ms: Seq<BulkMilestone>, k: int)
    requires
        0 <= k <= ms.len() <= usize::MAX,
        s1.milestones == Seq::<usize>::empty(),
    ensures
        ({
            let st = milestone_stage(s1, ms, k);
            &&& st.activities == s1.activities + milestone_ids_at(ms, st.milestones)
            &&& st.tasks == s1.tasks
            &&& st.resource_ids == s1.resource_ids
            &&& st.resources == s1.resources
            &&& st.dependencies == s1.dependencies
            &&& st.assignments == s1.assignments
        }),
    decreases k,
{
    if k > 0 {
        lemma_milestone_stage(s1, ms, k - 1);
        let p = milestone_stage(s1, ms, k - 1);
        let st = milestone_stage(s1, ms, k);
        assert(((k - 1) as usize) as int == k - 1);
        if !p.activities.contains(ms[k - 1].id@) {
            assert(st.milestones == p.milestones.push((k - 1) as usize));
            assert(milestone_ids_at(ms, st.milestones) =~= milestone_ids_at(ms, p.milestones).push(
                ms[k - 1].id@,
            ));
            assert(st.activities =~= s1.activities + milestone_ids_at(ms, st.milestones));
        }
    } else {
        assert(milestone_ids_at(ms, Seq::<usize>::empty()) =~= Seq::<Seq<char>>::empty());
        assert(s1.activities + Seq::<Seq<char>>::empty() =~= s1.activities);
    }
}

proof fn lemma_resource_stage(s2: BulkState, rs: Seq<BulkResource>, k: int)
    requires
        0 <= k <= rs.len() <= usize::MAX,
        s2.resource_ids == Seq::<Seq<char>>::empty(),
        s2.resources == Seq::<(usize, ResourceType)>::empty(),
    ensures
        ({
            let st = resource_stage(s2, rs, k);
            &&& st.resource_ids == resource_ids_at(rs, st.resources)
            &&& st.activities == s2.activities
            &&& st.tasks == s2.tasks
            &&& st.milestones == s2.milestones
            &&& st.dependencies == s2.dependencies
            &&& st.assignments == s2.assignments
        }),
    decreases k,
{
    if k > 0 {
        lemma_resource_stage(s2, rs, k - 1);
        let p = resource_stage(s2, rs, k - 1);
        let st = resource_stage(s2, rs, k);
        assert(((k - 1) as usize) as int == k - 1);
        if st.resources.len() != p.resources.len() {
            assert(resource_ids_at(rs, st.resources) =~= resource_ids_at(rs, p.resources).push(
                rs[k - 1].id@,
            ));
        }
    } else {
        assert(resource_ids_at(rs, s2.resources) =~= Seq::<Seq<char>>::empty());
    }
}

proof fn lemma_dependency_stage(s3: BulkState, ds: Seq<BulkDep>, k: int)
    requires
        0 <= k <= ds.len() <= usize::MAX,
        s3.dependencies == Seq::<(usize, DependencyType)>::empty(),
    ensures
        ({
            let st = dependency_stage(s3, ds, k);
            &&& forall|j: int| 0 <= j < st.dependencies.len() ==> {
                let i = (#[trigger] st.dependencies[j]).0 as int;
                &&& 0 <= i < k
                &&& st.activities.contains(ds[i].from@)
                &&& st.activities.contains(ds[i].to@)
            }
            &&& st.activities == s3.activities
            &&& st.resource_ids == s3.resource_ids
            &&& st.tasks == s3.tasks
            &&& st.milestones == s3.milestones
            &&& st.resources == s3.resources
            &&& st.assignments == s3.assignments
        }),
    decreases k,
{
    if k > 0 {
        lemma_dependency_stage(s3, ds, k - 1);
        let p = dependency_stage(s3, ds, k - 1);
        let st = dependency_stage(s3, ds, k);
        assert(((k - 1) as usize) as int == k - 1);
        assert forall|j: int| 0 <= j < st.dependencies.len() implies {
            let i = (#[trigger] st.dependencies[j]).0 as int;
            &&& 0 <= i < k
            &&& st.activities.contains(ds[i].from@)
            &&& st.activities.contains(ds[i].to@)
        } by {
            if j < p.dependencies.len() {
                assert(st.dependencies[j] == p.dependencies[j]);
            }
        }
    }
}

proof fn lemma_assignment_stage(s4: BulkState, asg: Seq<BulkAssignment>, k: int)
    requires
        0 <= k <= asg.len() <= usize::MAX,
        s4.assignments == Seq::<usize>::empty(),
    ensures
        ({
            let st = assignment_stage(s4, asg, k);
            &&& forall|j: int| 0 <= j < st.assignments.len() ==> {
                let i = #[trigger] st.assignments[j] as int;
                &&& 0 <= i < k
                &&& st.activities.contains(asg[i].task@)
                &&& st.resource_ids.contains(asg[i].resource@)
            }
            &&& st.activities == s4.activities
            &&& st.resource_ids == s4.resource_ids
            &&& st.tasks == s4.tasks
            &&& st.milestones == s4.milestones
            &&& st.resources == s4.resources
            &&& st.dependencies == s4.dependencies
        }),
    decreases k,
{
    if k > 0 {
        lemma_assignment_stage(s4, asg, k - 1);
        let p = assignment_stage(s4, asg, k - 1);
        let st = assignment_stage(s4, asg, k);
        assert(((k - 1) as usize) as int == k - 1);
        assert forall|j: int| 0 <= j < st.assignments.len() implies {
            let i = #[trigger] st.assignments[j] as int;
            &&& 0 <= i < k
            &&& st.activities.contains(asg[i].task@)
            &&& st.resource_ids.contains(asg[i].resource@)
        } by {
            if j < p.assignments.len() {
                assert(st.assignments[j] == p.assignments[j]);
            }
        }
    }
}

/// A bulk plan is created whole: every dependency it creates joins two
/// activities it creates (tasks or milestones), and every assignment puts a
/// resource it creates on an activity it creates.
pub proof fn lemma_bulk_plan_closed(plan: BulkPlan)
    ensures
        ({
            let st = bulk_items(plan);
            &&& forall|j: int| 0 <= j < st.dependencies.len() ==> {
                let i = (#[trigger] st.dependencies[j]).0 as int;
                &&& 0 <= i < plan.dependencies.len()
                &&& created_activity_ids(plan).contains(plan.dependencies@[i].from@)
                &&& created_activity_ids(plan).contains(plan.dependencies@[i].to@)
            }
            &&& forall|j: int| 0 <= j < st.assignments.len() ==> {
                let i = #[trigger] st.assignments[j] as int;
                &&& 0 <= i < plan.assignments.len()
                &&& created_activity_ids(plan).contains(plan.assignments@[i].task@)
                &&& created_resource_ids(plan).contains(plan.assignments@[i].resource@)
            }
        }),
{
    let s1 = task_stage(empty_state(), plan.tasks@, plan.tasks.len() as int);
    let s2 = milestone_stage(s1, plan.milestones@, plan.milestones.len() as int);
    let s3 = resource_stage(s2, plan.resources@, plan.resources.len() as int);
    let s4 = dependency_stage(s3, plan.dependencies@, plan.dependencies.len() as int);
    let s5 = assignment_stage(s4, plan.assignments@, plan.assignments.len() as int);
    lemma_task_stage(plan.tasks@, plan.tasks.len() as int);
    lemma_milestone_stage(s1, plan.milestones@, plan.milestones.len() as int);
    lemma_resource_stage(s2, plan.resources@, plan.resources.len() as int);
    lemma_dependency_stage(s3, plan.dependencies@, plan.dependencies.len() as int);
    lemma_assignment_stage(s4, plan.assignments@, plan.assignments.len() as int);
    assert(s5.activities == created_activity_ids(plan));
    assert(s5.resource_ids == created_resource_ids(plan));
}


proof fn lemma_resource_entries(st: BulkState, rs: Seq<BulkResource>, k: int)
    requires
        0 <= k <= rs.len() <= usize::MAX,
    ensures
        ({
            let r = resource_stage(st, rs, k);
            &&& r.resources.len() >= st.resources.len()
            &&& forall|i: int| 0 <= i < st.resources.len() ==> r.resources[i] == st.resources[i]
            &&& forall|i: int| #![trigger r.resources[i]] st.resources.len() <= i < r.resources.len() ==> {
                let e = r.resources[i];
                &&& 0 <= e.0 < k
                &&& rs[e.0 as int].res_type is None ==> e.1 == ResourceType::Labor
            }
        }),
    decreases k,
{
    if k > 0 {
        lemma_resource_entries(st, rs, k - 1);
        assert(((k - 1) as usize) as int == k - 1);
    }
}

/// A bulk resource whose type is left out is created as labor, just as if
/// its type were written `labor`: every entry the resource check adds for
/// such a resource has type `Labor`, and such a resource is refused only
/// for repeating an earlier resource's id.
pub proof fn lemma_untyped_resource_is_labor(st: BulkState, rs: Seq<BulkResource>, j: int)
    requires
        0 <= j < rs.len() <= usize::MAX,
        rs[j].res_type is None,
    ensures
        resource_type_named(resource_type_text(rs[j])) == Some(ResourceType::Labor),
        forall|i: int|
            st.resources.len() <= i < resource_stage(st, rs, rs.len() as int).resources.len()
                && #[trigger] resource_stage(st, rs, rs.len() as int).resources[i].0 == j
                ==> resource_stage(st, rs, rs.len() as int).resources[i].1 == ResourceType::Labor,
        !resource_stage(st, rs, j).resource_ids.contains(rs[j].id@) ==> resource_stage(st, rs, j + 1).resources
            == resource_stage(st, rs, j).resources.push((j as usize, ResourceType::Labor)),
{
    lemma_resource_entries(st, rs, rs.len() as int);
    let r = resource_stage(st, rs, rs.len() as int);
    assert forall|i: int|
        st.resources.len() <= i < r.resources.len() && #[trigger] r.resources[i].0 == j
            implies r.resources[i].1 == ResourceType::Labor by {
        assert(rs[r.resources[i].0 as int].res_type is None);
    }
}

proof fn lemma_dependency_entries(st: BulkState, ds: Seq<BulkDep>, k: int)
    requires
        0 <= k <= ds.len() <= usize::MAX,
    ensures
        ({
            let r = dependency_stage(st, ds, k);
            &&& r.dependencies.len() >= st.dependencies.len()
            &&& forall|i: int| 0 <= i < st.dependencies.len() ==> r.dependencies[i] == st.dependencies[i]
            &&& forall|i: int| #![trigger r.dependencies[i]] st.dependencies.len() <= i < r.dependencies.len() ==> {
                let e = r.dependencies[i];
                &&& 0 <= e.0 < k
                &&& ds[e.0 as int].dep_type is None ==> e.1 == DependencyType::FinishToStart
            }
        }),
    decreases k,
{
    if k > 0 {
        lemma_dependency_entries(st, ds, k - 1);
        assert(((k - 1) as usize) as int == k - 1);
    }
}

/// A bulk dependency whose type is left out is finish-to-start, just as if
/// its type were written `fs`: every entry the dependency check adds for it
/// has type `FinishToStart`, and it is refused only for naming a task that
/// does not exist.
pub proof fn lemma_untyped_dependency_is_finish_to_start(st: BulkState, ds: Seq<BulkDep>, j: int)
    requires
        0 <= j < ds.len() <= usize::MAX,
        ds[j].dep_type is None,
    ensures
        dependency_type_named(dep_type_text(ds[j])) == Some(DependencyType::FinishToStart),
        forall|i: int|
            st.dependencies.len() <= i < dependency_stage(st, ds, ds.len() as int).dependencies.len()
                && #[trigger] dependency_stage(st, ds, ds.len() as int).dependencies[i].0 == j
                ==> dependency_stage(st, ds, ds.len() as int).dependencies[i].1 == DependencyType::FinishToStart,
        ({
            let p = dependency_stage(st, ds, j);
            p.activities.contains(ds[j].from@) && p.activities.contains(ds[j].to@) ==> dependency_stage(
                st,
                ds,
                j + 1,
            ).dependencies == p.dependencies.push((j as usize, DependencyType::FinishToStart))
        }),
{
    lemma_dependency_entries(st, ds, ds.len() as int);
    let r = dependency_stage(st, ds, ds.len() as int);
    assert forall|i: int|
        st.dependencies.len() <= i < r.dependencies.len() && #[trigger] r.dependencies[i].0 == j
            implies r.dependencies[i].1 == DependencyType::FinishToStart by {
        assert(ds[r.dependencies[i].0 as int].dep_type is None);
    }
}


/// A bulk description that names no mode makes a sprint plan.
pub proof fn lemma_bulk_default_mode_is_sprint(
    plan: BulkPlan,
    reading: Option<Result<(i32, u32, u32), Seq<char>>>,
    r: Result<BulkOutcome, CamshaftError>,
)
    requires
        plan.mode is None,
        bulk_result(plan, reading, r),
        r is Ok,
    ensures
        r->Ok_0.mode == PlanMode::Sprint,
{
}

} // verus!
