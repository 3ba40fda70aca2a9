use camshaft::chain::{critical_chain_candidates, is_valid_chain};
use camshaft::dates::parse_start_date;
use camshaft::error::{format_err, parse_cycle_tasks, CamshaftError, ErrorOutput};
use camshaft::graph::{cycle_members, Dep};
use camshaft::kinds::{
    parse_dependency_type, parse_objective, parse_resource_type, status_tag, wants_genetic,
    ActivityStatus, DependencyType, OptimizationObjective, ResourceType,
};
use camshaft::parallel::{compute_parallel_groups, ScheduledTask};
use camshaft::paths::{check_relative_path, validate_baseline_path, validate_repo_path};
use camshaft::plan::{duration_unit, parse_plan_mode, plan_dir, plan_path, PlanMode};
use camshaft::validate::{validate_plan, CycleProbe, IssueSeverity};
use camshaft::velocity::{commit_activity, parse_numstat};

fn s(x: &str) -> String {
    x.to_string()
}

fn dep(a: &str, b: &str) -> Dep {
    Dep { predecessor: s(a), successor: s(b) }
}

fn ids(xs: &[&str]) -> Vec<String> {
    xs.iter().map(|x| s(x)).collect()
}

// --- errors -------------------------------------------------------------

#[test]
fn error_reports_carry_tag_message_tasks_and_suggestion() {
    let out = ErrorOutput::from_error(CamshaftError::CycleDetected(s("A -> B -> A")));
    assert_eq!(out.error, "cycle_detected");
    assert_eq!(out.message, "Cycle detected: A -> B -> A");
    assert_eq!(out.affected_tasks, ids(&["A", "B"]));
    assert_eq!(out.suggestion, Some(s("Remove one dependency to break the cycle.")));

    let out = ErrorOutput::from(CamshaftError::InvalidDependency {
        predecessor: s("a"),
        successor: s("z"),
    });
    assert_eq!(out.error, "invalid_dependency");
    assert_eq!(out.message, "Dependency references nonexistent task: a -> z");
    assert_eq!(out.affected_tasks, ids(&["a", "z"]));

    let out = ErrorOutput::from_error(CamshaftError::Io(s("disk full")));
    assert_eq!(out.error, "io_error");
    assert_eq!(out.message, "IO error: disk full");
    assert!(out.affected_tasks.is_empty());
    assert_eq!(out.suggestion, None);
}

#[test]
fn joined_cycle_ids_read_back_as_the_ids() {
    for members in [ids(&["A", "B", "C"]), ids(&["solo"]), ids(&[]), ids(&["x", "y", "x", "z"])] {
        assert_eq!(parse_cycle_tasks(&members.join(" -> ")), members);
    }
}

#[test]
fn every_error_variant_has_its_tag() {
    let cases = vec![
        (CamshaftError::NoPlan, "no_plan"),
        (CamshaftError::CycleDetected(s("x")), "cycle_detected"),
        (CamshaftError::TaskNotFound(s("x")), "task_not_found"),
        (CamshaftError::DuplicateTask(s("x")), "duplicate_task"),
        (CamshaftError::InvalidDependency { predecessor: s("a"), successor: s("b") }, "invalid_dependency"),
        (CamshaftError::ValidationFailed(s("x")), "validation_failed"),
        (CamshaftError::OptimizationFailed(s("x")), "optimization_failed"),
        (CamshaftError::Serialization(s("x")), "serialization_error"),
        (CamshaftError::Io(s("x")), "io_error"),
        (CamshaftError::GanttMl(s("x")), "gantt_ml_error"),
        (CamshaftError::PlanAlreadyExists, "plan_already_exists"),
    ];
    for (e, tag) in cases {
        assert_eq!(e.tag(), tag);
    }
    assert_eq!(
        format_err(&CamshaftError::PlanAlreadyExists),
        "Plan already exists. Use --force to overwrite."
    );
    assert_eq!(format_err(&CamshaftError::TaskNotFound(s("t9"))), "Task not found: t9");
}

#[test]
fn cycle_tasks_are_the_trimmed_nonempty_pieces() {
    assert_eq!(parse_cycle_tasks(" A -> B ->  -> C "), ids(&["A", "B", "C"]));
    assert_eq!(parse_cycle_tasks("A -> B -> C -> A"), ids(&["A", "B", "C"]));
    assert_eq!(parse_cycle_tasks("A -> A"), ids(&["A"]));
    assert_eq!(parse_cycle_tasks("A"), ids(&["A"]));
    assert_eq!(parse_cycle_tasks("A ->B -> C"), ids(&["A ->B", "C"]));
    assert!(parse_cycle_tasks("").is_empty());
}

// --- paths and plan files ---------------------------------------------------

#[test]
fn relative_paths_are_checked_parent_first() {
    assert!(check_relative_path("out/plan.yaml", "Output").is_ok());
    assert_eq!(
        check_relative_path("/a/../b", "Import").unwrap_err(),
        CamshaftError::ValidationFailed(s("Import path must not contain '..' components."))
    );
    assert_eq!(
        validate_baseline_path("/a/../b").unwrap_err(),
        CamshaftError::ValidationFailed(s("Baseline path must be relative, not absolute."))
    );
    assert!(validate_repo_path(".").is_ok());
    assert!(validate_repo_path("..").is_err());
    assert!(check_relative_path("a/..b/c", "Export").is_ok());
}

#[test]
fn plan_location_and_modes() {
    assert_eq!(plan_dir(), ".camshaft");
    assert_eq!(plan_path(), ".camshaft/plan.json");
    assert_eq!(duration_unit(&PlanMode::Sprint), "hours");
    assert_eq!(duration_unit(&PlanMode::Roadmap), "days");
    assert_eq!(parse_plan_mode("RoadMap").unwrap(), PlanMode::Roadmap);
    assert_eq!(
        parse_plan_mode("weekly").unwrap_err(),
        CamshaftError::ValidationFailed(s("Unknown mode: weekly. Use 'sprint' or 'roadmap'."))
    );
}

#[test]
fn start_dates_are_read_as_calendar_days() {
    let d = parse_start_date("2024-02-29").unwrap();
    assert_eq!((d.year, d.month, d.day), (2024, 2, 29));
    match parse_start_date("2023-02-29").unwrap_err() {
        CamshaftError::ValidationFailed(m) => assert!(m.starts_with("Invalid date: ")),
        other => panic!("unexpected error {:?}", other),
    }
}

// --- kinds --------------------------------------------------------------

#[test]
fn kinds_are_read_case_insensitively() {
    assert_eq!(parse_dependency_type("SS").unwrap(), DependencyType::StartToStart);
    assert_eq!(parse_dependency_type("finish_to_finish").unwrap(), DependencyType::FinishToFinish);
    assert_eq!(
        parse_dependency_type("xx").unwrap_err(),
        CamshaftError::ValidationFailed(s("Unknown dependency type: xx. Use fs, ss, ff, or sf."))
    );
    assert_eq!(parse_resource_type("Non_Labor").unwrap(), ResourceType::NonLabor);
    assert_eq!(
        parse_resource_type("robot").unwrap_err(),
        CamshaftError::ValidationFailed(s(
            "Unknown resource type: robot. Use labor, material, equipment, or nonlabor."
        ))
    );
    assert_eq!(parse_objective("min-cost"), OptimizationObjective::MinimizeCost);
    assert_eq!(parse_objective("multi"), OptimizationObjective::MultiObjective);
    assert_eq!(parse_objective("min-resource-peak"), OptimizationObjective::MinimizeResourcePeak);
    assert_eq!(parse_objective("anything"), OptimizationObjective::MinimizeDuration);
    assert!(wants_genetic("min-duration"));
    assert!(!wants_genetic("fastest"));
    assert_eq!(status_tag(ActivityStatus::InProgress), "in_progress");
    assert_eq!(status_tag(ActivityStatus::Suspended), "suspended");
}

// --- validation -----------------------------------------------------------

#[test]
fn validation_reports_orphans_missing_ends_and_duplicates() {
    let r = validate_plan(
        &ids(&["a", "b", "c"]),
        &vec![dep("a", "b"), dep("a", "b"), dep("b", "zz")],
        CycleProbe::NotFound,
    );
    assert!(!r.valid);
    assert!(!r.can_optimize);
    assert_eq!(r.warnings, ids(&["Task 'c' has no dependencies (orphan)", "Duplicate dependency: a -> b"]));
    assert_eq!(r.errors, ids(&["Dependency references nonexistent task: 'zz'"]));
    assert_eq!(r.issues.len(), 3);
    assert_eq!(r.issues[1].severity, IssueSeverity::Error);
    assert_eq!(r.issues[1].affected_tasks, ids(&["zz"]));
    assert_eq!(
        r.verdict().unwrap_err(),
        CamshaftError::ValidationFailed(s("Dependency references nonexistent task: 'zz'"))
    );
}

#[test]
fn validation_of_an_empty_plan_warns() {
    let r = validate_plan(&vec![], &vec![], CycleProbe::NotFound);
    assert!(r.valid);
    assert!(!r.can_optimize);
    assert_eq!(r.warnings, ids(&["Plan has no activities"]));
    assert!(r.verdict().is_ok());
}

#[test]
fn validation_names_a_cycle_from_the_probe_or_the_peeling() {
    let tasks = ids(&["a", "b", "c", "d"]);
    let deps = vec![dep("a", "b"), dep("b", "c"), dep("c", "b"), dep("c", "d")];
    let r = validate_plan(&tasks, &deps, CycleProbe::Found(ids(&["b", "c", "b"])));
    assert_eq!(r.errors, ids(&["Cycle detected: b -> c -> b"]));
    assert_eq!(r.issues.last().unwrap().affected_tasks, ids(&["b", "c"]));

    let r = validate_plan(&tasks, &deps, CycleProbe::NotFound);
    assert_eq!(r.errors, ids(&["Cycle detected involving tasks: b, c, d"]));

    let r = validate_plan(&tasks, &deps, CycleProbe::Failed(s("cycle found [\"c\", b, ghost, c]")));
    assert_eq!(r.errors, ids(&["Cycle detected: c -> b -> c"]));
    assert_eq!(r.issues.last().unwrap().affected_tasks, ids(&["c", "b"]));

    assert_eq!(cycle_members(&tasks, &deps), ids(&["b", "c", "d"]));
    assert!(cycle_members(&tasks, &vec![dep("a", "b")]).is_empty());
}

// --- parallel groups and critical chains -----------------------------------

#[test]
fn parallel_groups_follow_start_keys_and_put_waiting_tasks_later() {
    let tasks = vec![
        ScheduledTask { id: s("b"), start_key: 3000 },
        ScheduledTask { id: s("a"), start_key: 0 },
        ScheduledTask { id: s("c"), start_key: 3000 },
        ScheduledTask { id: s("d"), start_key: 3000 },
    ];
    let deps = vec![dep("a", "b"), dep("c", "d")];
    let groups = compute_parallel_groups(&tasks, &deps);
    assert_eq!(groups.len(), 3);
    assert_eq!((groups[0].number, groups[0].start_key), (1, 0));
    assert_eq!(groups[0].tasks, ids(&["a"]));
    assert_eq!((groups[1].number, groups[1].start_key), (2, 3000));
    assert_eq!(groups[1].tasks, ids(&["b", "c"]));
    assert_eq!((groups[2].number, groups[2].start_key), (3, 3000));
    assert_eq!(groups[2].tasks, ids(&["d"]));
}

#[test]
fn a_task_starting_with_its_milestone_is_dispatched_after_it() {
    let tasks = vec![
        ScheduledTask { id: s("b"), start_key: 0 },
        ScheduledTask { id: s("m"), start_key: 0 },
    ];
    let groups = compute_parallel_groups(&tasks, &vec![dep("m", "b")]);
    assert_eq!(groups.len(), 2);
    assert_eq!(groups[0].tasks, ids(&["m"]));
    assert_eq!(groups[1].tasks, ids(&["b"]));
}

#[test]
fn tasks_waiting_on_one_another_are_dispatched_together() {
    let tasks = vec![
        ScheduledTask { id: s("x"), start_key: 5 },
        ScheduledTask { id: s("y"), start_key: 5 },
        ScheduledTask { id: s("z"), start_key: 9 },
    ];
    let groups = compute_parallel_groups(&tasks, &vec![dep("x", "y"), dep("y", "x")]);
    assert_eq!(groups.len(), 2);
    assert_eq!((groups[0].start_key, groups[0].tasks.clone()), (5, ids(&["x", "y"])));
    assert_eq!((groups[1].start_key, groups[1].tasks.clone()), (9, ids(&["z"])));
    assert!(compute_parallel_groups(&vec![], &vec![]).is_empty());
}

#[test]
fn critical_chains_follow_zero_float_dependencies() {
    let zf = ids(&["a", "b", "c", "d"]);
    let deps = vec![dep("a", "b"), dep("a", "c"), dep("b", "d"), dep("c", "d"), dep("x", "a")];
    let chains = critical_chain_candidates(&zf, &deps);
    assert_eq!(chains.len(), 2);
    assert!(chains.contains(&ids(&["a", "b", "d"])));
    assert!(chains.contains(&ids(&["a", "c", "d"])));
    for c in &chains {
        assert!(is_valid_chain(&deps, c));
    }
    assert!(!is_valid_chain(&deps, &ids(&["a", "d"])));
    assert!(is_valid_chain(&deps, &ids(&["z"])));

    let lone = critical_chain_candidates(&ids(&["q", "p"]), &vec![]);
    assert_eq!(lone.len(), 2);
    assert!(lone.contains(&ids(&["p"])) && lone.contains(&ids(&["q"])));

    let looped = vec![dep("s", "t"), dep("t", "u"), dep("u", "t")];
    assert_eq!(critical_chain_candidates(&ids(&["u", "t", "s"]), &looped), vec![ids(&["s"])]);
    assert!(critical_chain_candidates(&ids(&["t", "u"]), &vec![dep("t", "u"), dep("u", "t")]).is_empty());
    assert!(critical_chain_candidates(&vec![], &vec![]).is_empty());
}

#[test]
fn acyclic_zero_float_tasks_always_give_a_chain() {
    let deps = vec![dep("m", "n"), dep("k", "m")];
    let chains = critical_chain_candidates(&ids(&["n", "m", "k"]), &deps);
    assert_eq!(chains, vec![ids(&["k", "m", "n"])]);
    let apart = critical_chain_candidates(&ids(&["b", "a"]), &vec![dep("a", "z")]);
    assert!(!apart.is_empty());
    for c in &apart {
        assert!(!c.is_empty() && is_valid_chain(&vec![dep("a", "z")], c));
    }
}

#[test]
fn a_repeated_dependency_lists_its_chain_once() {
    let deps = vec![dep("a", "b"), dep("a", "b"), dep("b", "c")];
    assert_eq!(critical_chain_candidates(&ids(&["a", "b", "c"]), &deps), vec![ids(&["a", "b", "c"])]);
}

// --- velocity ---------------------------------------------------------------

#[test]
fn numstat_counts_files_and_buckets_commits() {
    let out = "__COMMIT__abc\n1\t2\tsrc/a.rs\n-\t-\timg.png\n\n__COMMIT__def\n\
               1\t0\ta\n1\t0\tb\n1\t0\tc\n\n__COMMIT__ghi\n";
    assert_eq!(parse_numstat(out), (4, 1, 1, 0));
    let mut big = String::from("__COMMIT__x\n");
    for i in 0..8 {
        big.push_str(&format!("1\t1\tf{}\n", i));
    }
    assert_eq!(parse_numstat(&big), (8, 0, 0, 1));
    assert_eq!(parse_numstat(""), (0, 0, 0, 0));
}

#[test]
fn numstat_buckets_never_outnumber_commits_or_files() {
    let out = "__COMMIT__a
__COMMIT__b

__COMMIT__c
2	1	x.rs
-	-	logo.png
";
    let (total, small, medium, large) = parse_numstat(out);
    assert_eq!((total, small, medium, large), (1, 1, 0, 0));
    assert!(small + medium + large <= 3);
    assert!(small + medium + large <= total);
}

#[test]
fn commit_activity_counts_commits_and_days() {
    let log = "h1|2024-05-01 10:00:00 +0000|ann|one\n\n\
               h2|2024-05-01 12:00:00 +0000|bob|two\n\
               h3|2024-05-03 09:00:00 +0000|ann|three\n   \n";
    assert_eq!(commit_activity(log), (3, 2));
    assert_eq!(commit_activity(""), (0, 0));
}
