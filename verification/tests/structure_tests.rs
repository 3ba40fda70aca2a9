use camshaft::analysis::{
    anomaly_type_tag, first_sightings, orphan_tasks, severity_tag, AnomalyKey, AnomalyKind,
    Severity,
};
use camshaft::bulk::{
    assemble_bulk_plan, build_bulk_plan, BulkAssignment, BulkDep, BulkMilestone, BulkPlan,
    BulkResource, BulkTask,
};
use camshaft::dates::CalendarDate;
use camshaft::edits::{stored_priority, Assignment, PlanItems};
use camshaft::error::CamshaftError;
use camshaft::graph::Dep;
use camshaft::intake::{
    bulk_format, check_file_size, check_iterations, missing_input_file, new_plan_id, plan_id_of,
    require_tasks, template_request, BulkFormat, InputFile, NeedsTasks, TemplateRequest,
};
use camshaft::kinds::{DependencyType, ResourceType};
use camshaft::plan::PlanMode;
use camshaft::schedule::{
    choose_data_date, execution_hint, fast_track_candidates, fast_track_rewrites,
    reason_for_move, suggested_order, ActivityDates, ActivityFacts, LevelConflict, TypedDep,
};
use camshaft::templates::{
    all_templates, find_template, template_file_text, template_named, template_yaml, yaml_escape,
};

fn s(x: &str) -> String {
    x.to_string()
}

fn ids(xs: &[&str]) -> Vec<String> {
    xs.iter().map(|x| s(x)).collect()
}

fn dep(a: &str, b: &str) -> Dep {
    Dep { predecessor: s(a), successor: s(b) }
}

// --- templates -----------------------------------------------------------

#[test]
fn the_builtin_templates_and_their_sizes() {
    let all = all_templates();
    let summary: Vec<(String, usize, usize)> =
        all.iter().map(|t| (t.name.clone(), t.tasks.len(), t.deps.len())).collect();
    assert_eq!(
        summary,
        vec![
            (s("feature-impl"), 6, 6),
            (s("bug-fix"), 6, 5),
            (s("migration"), 7, 6),
            (s("launch"), 7, 5),
            (s("research-spike"), 5, 4),
        ]
    );
    for t in &all {
        for d in &t.deps {
            let from = t.tasks.iter().position(|x| x.id == d.from).unwrap();
            let to = t.tasks.iter().position(|x| x.id == d.to).unwrap();
            assert!(from < to);
        }
    }
}

#[test]
fn templates_are_found_by_exact_name() {
    let t = find_template("migration").unwrap();
    assert_eq!(t.description, "Data or system migration: analyze, design, build, dry-run, execute, verify.");
    assert!(find_template("Migration").is_none());
    assert_eq!(
        template_named("kanban").unwrap_err(),
        CamshaftError::ValidationFailed(s(
            "Unknown template: kanban. Available: feature-impl, bug-fix, migration, launch, research-spike"
        ))
    );
    assert_eq!(template_named("launch").unwrap().tasks.len(), 7);
}

#[test]
fn yaml_scalars_are_quoted_only_when_needed() {
    assert_eq!(yaml_escape("Plain name"), "Plain name");
    assert_eq!(yaml_escape("Fix: login"), "\"Fix: login\"");
    assert_eq!(yaml_escape("-dash"), "\"-dash\"");
    assert_eq!(yaml_escape(" lead"), "\" lead\"");
    assert_eq!(yaml_escape("tag #1"), "\"tag #1\"");
    assert_eq!(yaml_escape("say \"hi\" \\o/"), "\"say \\\"hi\\\" \\\\o/\"");
    assert_eq!(yaml_escape("back\\slash"), "back\\slash");
    assert_eq!(yaml_escape(""), "");
}

#[test]
fn quoted_yaml_scalars_read_back_as_written() {
    for text in ["Fix: login", "say \"hi\" \\o/", "-dash", " lead", "a \\\" b #c"] {
        let written = yaml_escape(text);
        let read: String = serde_yaml::from_str(&written).unwrap();
        assert_eq!(read, text);
    }
}

#[test]
fn template_yaml_reads_back_as_the_template() {
    for t in all_templates() {
        let text = template_yaml(&t, "Fix: login");
        let doc: serde_yaml::Value = serde_yaml::from_str(&text).unwrap();
        assert_eq!(doc["name"].as_str(), Some("Fix: login"));
        assert_eq!(doc["mode"].as_str(), Some("sprint"));
        let tasks = doc["tasks"].as_sequence().map(|v| v.len()).unwrap_or(0);
        let milestones = doc["milestones"].as_sequence().map(|v| v.len()).unwrap_or(0);
        assert_eq!(tasks + milestones, t.tasks.len());
        let deps = doc["dependencies"].as_sequence().map(|v| v.len()).unwrap_or(0);
        assert_eq!(deps, t.deps.len());
    }
}

#[test]
fn bug_fix_template_yaml() {
    let t = find_template("bug-fix").unwrap();
    let lines = [
        "name: \"Fix: login\"",
        "mode: sprint",
        "tasks:",
        "  - id: reproduce",
        "    name: Reproduce bug",
        "    duration: 1",
        "  - id: diagnose",
        "    name: Diagnose root cause",
        "    duration: 2",
        "  - id: fix",
        "    name: Implement fix",
        "    duration: 2",
        "  - id: test-fix",
        "    name: Test fix",
        "    duration: 1",
        "  - id: regression-test",
        "    name: Regression test",
        "    duration: 1",
        "  - id: code-review",
        "    name: Code review",
        "    duration: 1",
        "dependencies:",
        "  - from: reproduce",
        "    to: diagnose",
        "  - from: diagnose",
        "    to: fix",
        "  - from: fix",
        "    to: test-fix",
        "  - from: test-fix",
        "    to: regression-test",
        "  - from: regression-test",
        "    to: code-review",
    ];
    let mut expected = String::new();
    for l in lines {
        expected.push_str(l);
        expected.push('\n');
    }
    assert_eq!(template_yaml(&t, "Fix: login"), expected);
}

#[test]
fn launch_template_yaml_lists_its_milestone_apart() {
    let t = find_template("launch").unwrap();
    let y = template_yaml(&t, "Launch");
    assert!(y.contains("  - id: feature-flag-enable\n    name: Enable feature flag\n    duration: 0.5\n"));
    assert!(y.contains("milestones:\n  - id: launch-ready\n    name: Launch ready\ndependencies:\n"));
    assert!(!y.contains("duration: 0\n"));
    assert_eq!(y.matches("  - id: ").count(), 7);
}

#[test]
fn template_files_must_be_written_inside_the_project() {
    let t = find_template("research-spike").unwrap();
    assert_eq!(
        template_file_text(&t, "R", "/tmp/x.yaml").unwrap_err(),
        CamshaftError::ValidationFailed(s("Output path must be relative, not absolute."))
    );
    assert_eq!(
        template_file_text(&t, "R", "a/../x.yaml").unwrap_err(),
        CamshaftError::ValidationFailed(s("Output path must not contain '..' components."))
    );
    assert_eq!(template_file_text(&t, "R", "plans/r.yaml").unwrap(), template_yaml(&t, "R"));
}

// --- plan edits -----------------------------------------------------------

fn sample_items() -> PlanItems {
    PlanItems {
        activities: ids(&["a", "b", "c"]),
        resources: ids(&["r1"]),
        deps: vec![dep("a", "b"), dep("b", "c"), dep("a", "c"), dep("a", "b")],
        assignments: vec![
            Assignment { activity: s("b"), resource: s("r1") },
            Assignment { activity: s("c"), resource: s("r1") },
        ],
    }
}

#[test]
fn removing_a_task_takes_its_links_with_it() {
    let mut items = sample_items();
    assert_eq!(items.remove_task("b").unwrap(), (3, 1));
    assert_eq!(items.activities, ids(&["a", "c"]));
    assert_eq!(items.deps.len(), 1);
    assert_eq!((items.deps[0].predecessor.as_str(), items.deps[0].successor.as_str()), ("a", "c"));
    assert_eq!(items.assignments.len(), 1);
    assert_eq!(items.assignments[0].activity, "c");
    assert_eq!(items.remove_task("b").unwrap_err(), CamshaftError::TaskNotFound(s("b")));
}

#[test]
fn removing_a_new_task_undoes_adding_it() {
    let mut items = sample_items();
    let before_ids = items.activities.clone();
    items.add_activity("fresh").unwrap();
    assert_eq!(items.remove_task("fresh").unwrap(), (0, 0));
    assert_eq!(items.activities, before_ids);
    assert_eq!(items.deps.len(), 4);
    assert_eq!(items.assignments.len(), 2);
}

#[test]
fn removing_a_dependency_removes_every_copy() {
    let mut items = sample_items();
    assert_eq!(items.remove_dependency("a", "b").unwrap(), 2);
    assert_eq!(items.deps.len(), 2);
    assert_eq!(
        items.remove_dependency("a", "b").unwrap_err(),
        CamshaftError::ValidationFailed(s("Dependency a -> b not found"))
    );
    assert_eq!(items.deps.len(), 2);
}

#[test]
fn priorities_are_stored_lowercase() {
    assert_eq!(stored_priority("Must-Have"), "must-have");
    assert_eq!(stored_priority("low"), "low");
}

#[test]
fn edits_check_what_they_refer_to() {
    let mut items = sample_items();
    assert_eq!(items.assign("zz", "r1").unwrap_err(), CamshaftError::TaskNotFound(s("zz")));
    assert_eq!(items.assign("a", "r9").unwrap_err(), CamshaftError::TaskNotFound(s("resource: r9")));
    assert_eq!(
        items.add_dependency("a", "b", "later").unwrap_err(),
        CamshaftError::ValidationFailed(s("Unknown dependency type: later. Use fs, ss, ff, or sf."))
    );
    assert_eq!(items.deps.len(), 4);
    assert_eq!(items.add_resource("r1", "Equipment").unwrap(), ResourceType::Equipment);
    assert_eq!(items.resources, ids(&["r1"]));
    assert!(items.add_resource("r2", "wizard").is_err());
    assert_eq!(items.resources, ids(&["r1"]));
    assert!(items.require_activity("c").is_ok());
    assert_eq!(items.require_activity("q").unwrap_err(), CamshaftError::TaskNotFound(s("q")));
    assert!(items.has_resource("r1") && !items.has_activity("r1"));
}

// --- optimizer, leveler and earned value ------------------------------------

#[test]
fn execution_hints() {
    assert_eq!(execution_hint(&vec![], &vec![]), "No ready tasks.");
    assert_eq!(execution_hint(&ids(&["a"]), &vec![]), "Start with: a.");
    assert_eq!(
        execution_hint(&ids(&["a", "b"]), &ids(&["a", "c", "d"])),
        "Start with: a, b (run in parallel). Then proceed through critical path: a \u{2192} c \u{2192} d"
    );
}

#[test]
fn suggested_order_lines() {
    let groups = vec![ids(&["a"]), ids(&["b", "c"])];
    assert_eq!(suggested_order(&groups), ids(&["group1: a", "group2: b || c"]));
    assert!(suggested_order(&vec![]).is_empty());
}

#[test]
fn fast_tracking_picks_critical_finish_to_start_links() {
    let acts = vec![
        ActivityFacts { id: s("a"), critical: true, positive_duration: true },
        ActivityFacts { id: s("b"), critical: true, positive_duration: true },
        ActivityFacts { id: s("c"), critical: false, positive_duration: true },
        ActivityFacts { id: s("m"), critical: true, positive_duration: false },
    ];
    let deps = vec![
        TypedDep { predecessor: s("a"), successor: s("b"), kind: DependencyType::FinishToStart },
        TypedDep { predecessor: s("a"), successor: s("b"), kind: DependencyType::StartToStart },
        TypedDep { predecessor: s("b"), successor: s("c"), kind: DependencyType::FinishToStart },
        TypedDep { predecessor: s("m"), successor: s("b"), kind: DependencyType::FinishToStart },
        TypedDep { predecessor: s("b"), successor: s("m"), kind: DependencyType::FinishToStart },
        TypedDep { predecessor: s("x"), successor: s("b"), kind: DependencyType::FinishToStart },
    ];
    assert_eq!(fast_track_candidates(&acts, &deps), vec![0, 4]);
    let moves = vec![dep("b", "m"), dep("a", "b"), dep("a", "b")];
    assert_eq!(fast_track_rewrites(&deps, &moves), vec![(0, 1), (4, 0)]);
}

#[test]
fn reasons_for_leveling_moves() {
    let conflicts = vec![
        LevelConflict { resource: s("r1"), date: s("2000-01-03"), contributors: ids(&["a"]) },
        LevelConflict { resource: s("r2"), date: s("2000-01-04"), contributors: ids(&["b", "c", "d"]) },
    ];
    assert_eq!(reason_for_move("a", &conflicts), "Resource 'r1' over-allocated on 2000-01-03");
    assert_eq!(reason_for_move("c", &conflicts), "Resource 'r2' conflict with 'b, d'");
    assert_eq!(reason_for_move("z", &conflicts), "Resource leveling shift");
}

fn day(y: i32, m: u32, d: u32) -> Option<CalendarDate> {
    Some(CalendarDate { year: y, month: m, day: d })
}

#[test]
fn the_data_date_prefers_actual_finishes() {
    let acts = vec![ActivityDates {
        actual_finish: day(2026, 1, 10),
        actual_start: day(2026, 1, 5),
        planned_finish: day(2026, 3, 1),
    }];
    assert_eq!(choose_data_date(&acts), day(2026, 1, 10));
    let acts = vec![
        ActivityDates { actual_finish: None, actual_start: day(2024, 3, 9), planned_finish: day(2025, 1, 1) },
        ActivityDates { actual_finish: day(2024, 11, 2), actual_start: None, planned_finish: None },
        ActivityDates { actual_finish: day(2024, 11, 1), actual_start: day(2024, 12, 1), planned_finish: None },
    ];
    assert_eq!(choose_data_date(&acts), day(2024, 11, 2));
}

#[test]
fn the_data_date_falls_back_to_starts_then_planned_finishes() {
    let acts = vec![
        ActivityDates { actual_finish: None, actual_start: day(2024, 3, 9), planned_finish: day(2025, 1, 1) },
        ActivityDates { actual_finish: None, actual_start: day(2024, 4, 1), planned_finish: None },
    ];
    assert_eq!(choose_data_date(&acts), day(2024, 4, 1));
    let acts = vec![
        ActivityDates { actual_finish: None, actual_start: None, planned_finish: day(2025, 1, 1) },
        ActivityDates { actual_finish: None, actual_start: None, planned_finish: day(2025, 2, 1) },
    ];
    assert_eq!(choose_data_date(&acts), day(2025, 2, 1));
    let none = ActivityDates { actual_finish: None, actual_start: None, planned_finish: None };
    assert_eq!(choose_data_date(&vec![none, none]), None);
    assert_eq!(choose_data_date(&vec![]), None);
}

// --- schedule analysis -------------------------------------------------------

#[test]
fn anomaly_and_severity_tags() {
    assert_eq!(anomaly_type_tag(AnomalyKind::OpenEndedActivity), "orphan_task");
    assert_eq!(anomaly_type_tag(AnomalyKind::NegativeFloat), "negative_float");
    assert_eq!(severity_tag(Severity::Low), "info");
    assert_eq!(severity_tag(Severity::High), "warning");
    assert_eq!(severity_tag(Severity::Critical), "critical");
}

#[test]
fn anomalies_are_reported_once_per_task_and_kind() {
    let k = |t: &str, kind: &str| AnomalyKey { task: s(t), kind: s(kind) };
    let keys = vec![
        k("a", "orphan_task"),
        k("a", "long_duration"),
        k("a", "orphan_task"),
        k("b", "orphan_task"),
        k("a", "long_duration"),
    ];
    assert_eq!(first_sightings(&keys), vec![true, true, false, true, false]);
}

#[test]
fn orphans_have_no_links() {
    assert_eq!(orphan_tasks(&ids(&["a", "b", "c", "d"]), &vec![dep("a", "b"), dep("x", "c")]), ids(&["d"]));
}

// --- command intake -------------------------------------------------------------

#[test]
fn file_size_limits() {
    assert!(check_file_size(10 * 1024 * 1024, InputFile::Bulk).is_ok());
    assert_eq!(
        check_file_size(10 * 1024 * 1024 + 1, InputFile::Bulk).unwrap_err(),
        CamshaftError::ValidationFailed(s("Bulk file exceeds maximum size of 10 MB."))
    );
    assert!(check_file_size(50 * 1024 * 1024, InputFile::Plan).is_ok());
    assert_eq!(
        check_file_size(50 * 1024 * 1024 + 1, InputFile::Import).unwrap_err(),
        CamshaftError::ValidationFailed(s("Import file exceeds maximum size of 50 MB."))
    );
    assert_eq!(
        missing_input_file(InputFile::Bulk, "p.yaml"),
        CamshaftError::Io(s("Bulk file does not exist: p.yaml"))
    );
}

#[test]
fn bulk_formats_follow_the_extension() {
    assert_eq!(bulk_format("plan.YAML"), BulkFormat::Yaml);
    assert_eq!(bulk_format("dir/plan.yml"), BulkFormat::Yaml);
    assert_eq!(bulk_format("plan.json"), BulkFormat::Json);
    assert_eq!(bulk_format("plan.txt"), BulkFormat::Either);
    assert_eq!(bulk_format("plan"), BulkFormat::Either);
    assert_eq!(bulk_format(".yaml"), BulkFormat::Either);
}

#[test]
fn plan_ids_are_the_head_of_the_uuid() {
    assert_eq!(plan_id_of("67e55044-10b1-426f-9247-bb680e5fe0c8"), "67e55044");
}

#[test]
fn new_plan_ids_are_eight_hex_digits() {
    let a = new_plan_id();
    assert_eq!(a.len(), 8);
    assert!(a.chars().all(|c| c.is_ascii_hexdigit() && !c.is_ascii_uppercase()));
}

#[test]
fn command_arguments_are_checked() {
    assert_eq!(template_request(true, "", "").unwrap(), TemplateRequest::List);
    assert_eq!(template_request(false, "bug-fix", "Fix").unwrap(), TemplateRequest::Create);
    assert_eq!(
        template_request(false, "", "Fix").unwrap_err(),
        CamshaftError::ValidationFailed(s(
            "Template name required. Pass a template name or --list to see options."
        ))
    );
    assert_eq!(
        template_request(false, "bug-fix", "").unwrap_err(),
        CamshaftError::ValidationFailed(s("Plan name required. Pass --name <plan name>."))
    );
    assert!(check_iterations(1).is_ok());
    assert_eq!(
        check_iterations(0).unwrap_err(),
        CamshaftError::ValidationFailed(s("iterations must be > 0"))
    );
    assert!(require_tasks(2, NeedsTasks::Optimize).is_ok());
    assert_eq!(
        require_tasks(0, NeedsTasks::Optimize).unwrap_err(),
        CamshaftError::OptimizationFailed(s("No activities in plan. Add tasks before optimizing."))
    );
    assert_eq!(
        require_tasks(0, NeedsTasks::EarnedValue).unwrap_err(),
        CamshaftError::ValidationFailed(s("No activities in plan. Add tasks before running EVM."))
    );
    assert_eq!(
        require_tasks(0, NeedsTasks::RiskAnalysis).unwrap_err(),
        CamshaftError::ValidationFailed(s(
            "No activities in plan. Add tasks before running risk analysis."
        ))
    );
}

// --- bulk plans -----------------------------------------------------------------

fn bulk(tasks: &[&str]) -> BulkPlan {
    BulkPlan {
        mode: None,
        start: None,
        tasks: tasks.iter().map(|t| BulkTask { id: s(t) }).collect(),
        dependencies: vec![],
        milestones: vec![],
        resources: vec![],
        assignments: vec![],
    }
}

#[test]
fn bulk_errors_are_all_reported_together() {
    let mut p = bulk(&["a", "a", "b"]);
    p.milestones = vec![BulkMilestone { id: s("b") }, BulkMilestone { id: s("m") }];
    p.resources = vec![
        BulkResource { id: s("r"), res_type: Some(s("wizard")) },
        BulkResource { id: s("q"), res_type: None },
        BulkResource { id: s("q"), res_type: Some(s("material")) },
    ];
    p.dependencies = vec![
        BulkDep { from: s("a"), to: s("m"), dep_type: Some(s("zz")) },
        BulkDep { from: s("m"), to: s("b"), dep_type: Some(s("FF")) },
    ];
    p.assignments = vec![
        BulkAssignment { task: s("a"), resource: s("r") },
        BulkAssignment { task: s("x"), resource: s("q") },
    ];
    let expected = "Bulk file has 7 error(s): Duplicate task id: a; Duplicate milestone/task id: b; \
Resource r: Validation failed: Unknown resource type: wizard. Use labor, material, equipment, or nonlabor.; \
Duplicate resource id: q; \
Dependency a -> m: Validation failed: Unknown dependency type: zz. Use fs, ss, ff, or sf.; \
Assignment references nonexistent resource: r; Assignment references nonexistent task: x";
    assert_eq!(build_bulk_plan(&p).unwrap_err(), CamshaftError::ValidationFailed(s(expected)));
}

#[test]
fn bulk_mode_and_start_are_checked_first() {
    let mut p = bulk(&["a", "a"]);
    p.mode = Some(s("Kanban"));
    assert_eq!(
        build_bulk_plan(&p).unwrap_err(),
        CamshaftError::ValidationFailed(s("Unknown mode: kanban. Use 'sprint' or 'roadmap'."))
    );
    p.mode = Some(s("ROADMAP"));
    p.start = Some(s("2024-13-01"));
    match build_bulk_plan(&p).unwrap_err() {
        CamshaftError::ValidationFailed(m) => assert!(m.starts_with("Invalid start date: ")),
        e => panic!("unexpected error {:?}", e),
    }
    let q = bulk(&["a"]);
    let out = assemble_bulk_plan(&q, Some(Ok(CalendarDate { year: 2025, month: 1, day: 6 }))).unwrap();
    assert_eq!(out.mode, PlanMode::Sprint);
    assert_eq!(out.start, Some(CalendarDate { year: 2025, month: 1, day: 6 }));
    assert_eq!(
        assemble_bulk_plan(&q, Some(Err(s("bad")))).unwrap_err(),
        CamshaftError::ValidationFailed(s("Invalid start date: bad"))
    );
    let mut r = bulk(&["a"]);
    r.mode = Some(s("Roadmap"));
    r.start = Some(s("2024-02-29"));
    let out = build_bulk_plan(&r).unwrap();
    assert_eq!(out.mode, PlanMode::Roadmap);
    assert_eq!(out.start, Some(CalendarDate { year: 2024, month: 2, day: 29 }));
}

#[test]
fn bulk_outcome_names_the_items_to_create() {
    let mut p = bulk(&["a", "b"]);
    p.milestones = vec![BulkMilestone { id: s("m") }];
    p.resources = vec![BulkResource { id: s("r"), res_type: Some(s("NonLabor")) }];
    p.dependencies = vec![BulkDep { from: s("m"), to: s("a"), dep_type: Some(s("sf")) }];
    p.assignments = vec![BulkAssignment { task: s("m"), resource: s("r") }];
    let out = build_bulk_plan(&p).unwrap();
    assert_eq!(out.tasks, vec![0, 1]);
    assert_eq!(out.milestones, vec![0]);
    assert_eq!(out.resources, vec![(0, ResourceType::NonLabor)]);
    assert_eq!(out.dependencies, vec![(0, DependencyType::StartToFinish)]);
    assert_eq!(out.assignments, vec![0]);
}
