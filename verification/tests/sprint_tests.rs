use camshaft::graph::Dep;
use camshaft::kinds::{activity_priority, parse_priority, TaskPriority};
use camshaft::sprint::{
    affected_assignees, blocked_by, dropped_tasks, merge_unscheduled, sprint_tasks,
    SprintActivity, TaskOwner, TaskProgress,
};

fn s(x: &str) -> String {
    x.to_string()
}

#[test]
fn parse_priority_maps_must_have_to_critical() {
    assert!(matches!(parse_priority("critical"), TaskPriority::Critical));
    assert!(matches!(parse_priority("CRITICAL"), TaskPriority::Critical));
    assert!(matches!(parse_priority("must"), TaskPriority::Critical));
    assert!(matches!(parse_priority("high"), TaskPriority::High));
    assert!(matches!(parse_priority("should"), TaskPriority::High));
    assert!(matches!(parse_priority("medium"), TaskPriority::Medium));
    assert!(matches!(parse_priority("low"), TaskPriority::Low));
    assert!(matches!(parse_priority("could"), TaskPriority::Low));
    assert!(matches!(parse_priority("nonsense"), TaskPriority::Medium));
}

#[test]
fn activity_priority_reads_custom_fields_over_description() {
    let p = activity_priority(Some("critical"), Some("[LOW] ignore me"));
    assert!(matches!(p, TaskPriority::Critical));
}

#[test]
fn activity_priority_falls_back_to_description_prefix() {
    let p = activity_priority(None, Some("[high] urgent fix"));
    assert!(matches!(p, TaskPriority::High));
}

#[test]
fn priority_words_are_trimmed_and_unknown_descriptions_are_medium() {
    assert_eq!(parse_priority("  Nice-To-Have "), TaskPriority::Low);
    assert_eq!(activity_priority(None, Some("no bracket here")), TaskPriority::Medium);
    assert_eq!(activity_priority(None, Some("   [ must ] later")), TaskPriority::Critical);
    assert_eq!(activity_priority(None, Some("[unclosed")), TaskPriority::Medium);
    assert_eq!(activity_priority(None, None), TaskPriority::Medium);
}

#[test]
fn blocked_by_lists_predecessors_in_dependency_order() {
    let deps = vec![
        Dep { predecessor: s("a"), successor: s("c") },
        Dep { predecessor: s("b"), successor: s("d") },
        Dep { predecessor: s("b"), successor: s("c") },
    ];
    assert_eq!(blocked_by(&deps, "c"), vec![s("a"), s("b")]);
    assert!(blocked_by(&deps, "a").is_empty());
}

#[test]
fn sprint_tasks_carry_blockers_and_priorities() {
    let acts = vec![
        SprintActivity { id: s("P1"), priority_field: Some(s("low")), description: None },
        SprintActivity { id: s("P3"), priority_field: Some(s("critical")), description: None },
    ];
    let deps = vec![Dep { predecessor: s("P1"), successor: s("P3") }];
    let tasks = sprint_tasks(&acts, &deps);
    assert_eq!(tasks.len(), 2);
    assert_eq!(tasks[0].priority, TaskPriority::Low);
    assert!(tasks[0].blocked_by.is_empty());
    assert_eq!(tasks[1].id, "P3");
    assert_eq!(tasks[1].priority, TaskPriority::Critical);
    assert_eq!(tasks[1].blocked_by, vec![s("P1")]);
}

#[test]
fn dropped_tasks_are_open_and_unselected() {
    let tasks = vec![
        TaskProgress { id: s("a"), completed: false },
        TaskProgress { id: s("b"), completed: true },
        TaskProgress { id: s("c"), completed: false },
    ];
    assert_eq!(dropped_tasks(&tasks, &vec![s("a")]), vec![s("c")]);
    assert_eq!(dropped_tasks(&tasks, &vec![]), vec![s("a"), s("c")]);
}

#[test]
fn merge_unscheduled_skips_ids_already_descoped() {
    let mut descoped = vec![s("x")];
    merge_unscheduled(&mut descoped, &vec![s("y"), s("x"), s("y"), s("z")]);
    assert_eq!(descoped, vec![s("x"), s("y"), s("z")]);
}

#[test]
fn affected_assignees_are_sorted_and_unique() {
    let owners = vec![
        TaskOwner { id: s("t1"), assignee: Some(s("zoe")) },
        TaskOwner { id: s("t2"), assignee: Some(s("adam")) },
        TaskOwner { id: s("t3"), assignee: None },
        TaskOwner { id: s("t4"), assignee: Some(s("zoe")) },
    ];
    let warnings = vec![vec![s("t1"), s("t3")], vec![s("t2"), s("t4"), s("unknown")]];
    assert_eq!(affected_assignees(&warnings, &owners), vec![s("adam"), s("zoe")]);
    assert!(affected_assignees(&vec![], &owners).is_empty());
}
