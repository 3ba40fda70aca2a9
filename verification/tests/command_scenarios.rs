use camshaft::bulk::{
    build_bulk_plan, BulkAssignment, BulkDep, BulkMilestone, BulkPlan, BulkResource, BulkTask,
};
use camshaft::edits::PlanItems;
use camshaft::error::{CamshaftError, ErrorOutput};
use camshaft::graph::Dep;
use camshaft::intake::{check_overwrite, init_plan, missing_input_file, InputFile};
use camshaft::kinds::{DependencyType, ResourceType};
use camshaft::paths::check_relative_path;
use camshaft::plan::PlanMode;
use camshaft::schedule::level_precheck;
use camshaft::validate::{validate_plan, CycleProbe};

fn s(x: &str) -> String {
    x.to_string()
}

fn tag_of(r: CamshaftError) -> String {
    ErrorOutput::from_error(r).error
}

fn empty_plan() -> PlanItems {
    PlanItems { activities: vec![], resources: vec![], deps: vec![], assignments: vec![] }
}

fn dep(a: &str, b: &str) -> Dep {
    Dep { predecessor: s(a), successor: s(b) }
}

#[test]
fn test_init_sprint() {
    let plan = init_plan(None, false, false).expect("a new plan");
    assert_eq!(plan.id.len(), 8);
    assert!(plan.id.chars().all(|c| c.is_ascii_digit() || ('a'..='f').contains(&c)));
    assert!(plan.start.is_none());
    assert_eq!(PlanMode::Sprint.name(), "sprint");
}

#[test]
fn test_init_roadmap() {
    let plan = init_plan(Some("2026-05-01"), false, false).expect("a new plan");
    let d = plan.start.expect("a start date");
    assert_eq!((d.year, d.month, d.day), (2026, 5, 1));
    assert_eq!(PlanMode::Roadmap.name(), "roadmap");
}

#[test]
fn test_init_duplicate_fails() {
    let err = init_plan(None, true, false).unwrap_err();
    assert_eq!(tag_of(err), "plan_already_exists");
}

#[test]
fn test_init_force_overwrite() {
    let plan = init_plan(None, true, true).expect("overwriting is allowed");
    assert_eq!(plan.id.len(), 8);
}

#[test]
fn test_add_task() {
    let mut items = empty_plan();
    assert!(items.add_activity("t1").is_ok());
    assert_eq!(items.activities, vec![s("t1")]);
}

#[test]
fn test_add_duplicate_task_fails() {
    let mut items = empty_plan();
    items.add_activity("t1").unwrap();
    let err = items.add_activity("t1").unwrap_err();
    assert_eq!(err, CamshaftError::DuplicateTask(s("t1")));
    assert_eq!(tag_of(err), "duplicate_task");
    assert_eq!(items.activities.len(), 1);
}

#[test]
fn test_add_dependency() {
    let mut items = empty_plan();
    items.add_activity("a").unwrap();
    items.add_activity("b").unwrap();
    let t = items.add_dependency("a", "b", "fs").unwrap();
    assert_eq!(t, DependencyType::FinishToStart);
    assert_eq!(items.deps.len(), 1);
    assert_eq!(items.deps[0].predecessor, "a");
    assert_eq!(items.deps[0].successor, "b");
}

#[test]
fn test_add_dep_missing_task_fails() {
    let mut items = empty_plan();
    items.add_activity("a").unwrap();
    let err = items.add_dependency("a", "nonexistent", "fs").unwrap_err();
    assert_eq!(
        err,
        CamshaftError::InvalidDependency { predecessor: s("a"), successor: s("nonexistent") }
    );
    assert_eq!(tag_of(err), "invalid_dependency");
    assert!(items.deps.is_empty());
}

#[test]
fn test_add_milestone() {
    let mut items = empty_plan();
    assert!(items.add_activity("m1").is_ok());
    assert_eq!(items.activities, vec![s("m1")]);
}

#[test]
fn test_remove_task() {
    let mut items = empty_plan();
    items.add_activity("t1").unwrap();
    let (deps_removed, assigns_removed) = items.remove_task("t1").unwrap();
    assert_eq!((deps_removed, assigns_removed), (0, 0));
    assert!(items.activities.is_empty());
}

#[test]
fn test_validate_clean_plan() {
    let report = validate_plan(&vec![s("a"), s("b")], &vec![dep("a", "b")], CycleProbe::NotFound);
    assert!(report.valid);
    assert!(report.issues.is_empty());
    assert!(report.can_optimize);
    assert_eq!(report.task_count, 2);
    assert_eq!(report.dependency_count, 1);
}

#[test]
fn test_no_plan_error() {
    let err = missing_input_file(InputFile::Plan, ".camshaft/plan.json");
    assert_eq!(tag_of(err), "no_plan");
}

#[test]
fn test_resource_workflow() {
    let mut items = empty_plan();
    items.add_activity("t1").unwrap();
    assert_eq!(items.add_resource("r1", "labor").unwrap(), ResourceType::Labor);
    assert!(items.assign("t1", "r1").is_ok());
    assert_eq!(items.assignments.len(), 1);
    assert_eq!(items.assignments[0].activity, "t1");
    assert_eq!(items.assignments[0].resource, "r1");
}

#[test]
fn test_export_rejects_absolute_path() {
    let err = check_relative_path("/tmp/evil.json", "Export").unwrap_err();
    assert_eq!(tag_of(err), "validation_failed");
}

#[test]
fn test_export_rejects_path_traversal() {
    let err = check_relative_path("../../etc/evil.json", "Export").unwrap_err();
    assert_eq!(tag_of(err), "validation_failed");
}

#[test]
fn test_level_resources_no_conflicts() {
    let m = level_precheck(1, 0, 0).expect("leveling stops early");
    assert_eq!(m, "No resource over-allocation detected. Plan is already level.");
}

fn bulk_yaml_plan() -> BulkPlan {
    BulkPlan {
        mode: Some(s("sprint")),
        start: None,
        tasks: vec![BulkTask { id: s("a") }, BulkTask { id: s("b") }, BulkTask { id: s("c") }],
        dependencies: vec![
            BulkDep { from: s("a"), to: s("b"), dep_type: None },
            BulkDep { from: s("a"), to: s("c"), dep_type: Some(s("ss")) },
        ],
        milestones: vec![BulkMilestone { id: s("m1") }],
        resources: vec![BulkResource { id: s("r1"), res_type: Some(s("labor")) }],
        assignments: vec![BulkAssignment { task: s("b"), resource: s("r1") }],
    }
}

#[test]
fn test_bulk_yaml_creates_plan() {
    let out = build_bulk_plan(&bulk_yaml_plan()).expect("a valid bulk file");
    assert_eq!(out.mode, PlanMode::Sprint);
    assert_eq!(out.tasks.len(), 3);
    assert_eq!(out.dependencies.len(), 2);
    assert_eq!(out.milestones.len(), 1);
    assert_eq!(out.resources.len(), 1);
    assert_eq!(out.assignments.len(), 1);
    assert_eq!(out.dependencies[0], (0, DependencyType::FinishToStart));
    assert_eq!(out.dependencies[1], (1, DependencyType::StartToStart));
}

#[test]
fn test_bulk_json_creates_plan() {
    let plan = BulkPlan {
        mode: Some(s("sprint")),
        start: None,
        tasks: vec![BulkTask { id: s("x") }, BulkTask { id: s("y") }],
        dependencies: vec![BulkDep { from: s("x"), to: s("y"), dep_type: None }],
        milestones: vec![],
        resources: vec![],
        assignments: vec![],
    };
    let out = build_bulk_plan(&plan).expect("a valid bulk file");
    assert_eq!(out.tasks.len(), 2);
    assert_eq!(out.dependencies.len(), 1);
}

#[test]
fn test_bulk_refuses_overwrite_without_force() {
    let err = check_overwrite(true, false).unwrap_err();
    assert_eq!(tag_of(err), "plan_already_exists");
    assert!(check_overwrite(true, true).is_ok());
    let plan = BulkPlan {
        mode: Some(s("sprint")),
        start: None,
        tasks: vec![],
        dependencies: vec![],
        milestones: vec![],
        resources: vec![],
        assignments: vec![],
    };
    assert!(build_bulk_plan(&plan).is_ok());
}

#[test]
fn test_bulk_atomic_on_invalid_dependency() {
    let plan = BulkPlan {
        mode: Some(s("sprint")),
        start: None,
        tasks: vec![BulkTask { id: s("a") }],
        dependencies: vec![BulkDep { from: s("a"), to: s("nonexistent"), dep_type: None }],
        milestones: vec![],
        resources: vec![],
        assignments: vec![],
    };
    let err = build_bulk_plan(&plan).unwrap_err();
    assert_eq!(
        err,
        CamshaftError::ValidationFailed(s(
            "Bulk file has 1 error(s): Dependency references nonexistent task: a -> nonexistent"
        ))
    );
    assert_eq!(tag_of(err), "validation_failed");
}

#[test]
fn test_bulk_rejects_absolute_path() {
    let err = check_relative_path("/etc/passwd", "Bulk").unwrap_err();
    assert_eq!(err, CamshaftError::ValidationFailed(s("Bulk path must be relative, not absolute.")));
    assert_eq!(tag_of(err), "validation_failed");
}
