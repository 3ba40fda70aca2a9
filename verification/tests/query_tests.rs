use camshaft::analysis::{orphan_count, recommendations};
use camshaft::error::parse_cycle_tasks;
use camshaft::graph::Dep;
use camshaft::impact::{critical_path_changed, downstream_tasks, fan_out};
use camshaft::parallel::{compute_parallel_groups, ScheduledTask};
use camshaft::velocity::parse_numstat;

fn s(x: &str) -> String {
    x.to_string()
}

fn dep(a: &str, b: &str) -> Dep {
    Dep { predecessor: s(a), successor: s(b) }
}

fn ids(xs: &[&str]) -> Vec<String> {
    xs.iter().map(|x| s(x)).collect()
}

fn web_app_deps() -> Vec<Dep> {
    vec![
        dep("S1", "S2"),
        dep("S2", "BE1"),
        dep("BE1", "BE2"),
        dep("BE1", "BE3"),
        dep("BE2", "FE2"),
        dep("BE2", "BE4"),
        dep("BE3", "FE3"),
        dep("BE4", "QA2"),
        dep("QA2", "DEP1"),
        dep("S1", "FE1"),
        dep("FE1", "FE2"),
    ]
}

#[test]
fn fan_out_counts_direct_dependents() {
    let deps = web_app_deps();
    assert_eq!(fan_out(&deps, "BE2"), 2);
    assert_eq!(fan_out(&deps, "BE1"), 2);
    assert_eq!(fan_out(&deps, "DEP1"), 0);
    assert_eq!(fan_out(&deps, "nope"), 0);
}

#[test]
fn downstream_tasks_follow_dependencies_transitively() {
    let deps = web_app_deps();
    let plan = ids(&["S1", "S2", "BE1", "BE2", "BE3", "BE4", "FE1", "FE2", "FE3", "QA2", "DEP1"]);
    assert_eq!(downstream_tasks(&plan, &deps, "BE2"), ids(&["BE4", "FE2", "QA2", "DEP1"]));
    assert_eq!(downstream_tasks(&plan, &deps, "DEP1"), ids(&[]));
    assert_eq!(
        downstream_tasks(&plan, &deps, "S1"),
        ids(&["S2", "BE1", "BE2", "BE3", "BE4", "FE1", "FE2", "FE3", "QA2", "DEP1"])
    );
    let looped = vec![dep("a", "b"), dep("b", "a")];
    assert_eq!(downstream_tasks(&ids(&["a", "b", "c"]), &looped, "a"), ids(&["a", "b"]));
}

#[test]
fn critical_path_change_is_any_difference() {
    let before = ids(&["S1", "BE2", "DEP1"]);
    assert!(!critical_path_changed(&before, &ids(&["S1", "BE2", "DEP1"])));
    assert!(critical_path_changed(&before, &ids(&["S1", "BE3", "DEP1"])));
    assert!(critical_path_changed(&before, &ids(&["S1", "BE2"])));
    assert!(critical_path_changed(&before, &ids(&["BE2", "S1", "DEP1"])));
}

#[test]
fn recommendations_add_count_based_advice() {
    let recs = recommendations(&ids(&["Split X."]), 3, 2, true);
    assert_eq!(
        recs,
        ids(&[
            "Split X.",
            "Add buffer time to the critical path to absorb unplanned delays.",
            "Connect 2 orphan task(s) to the schedule with dependencies.",
            "Review failing quality metrics (logic density, open-ended tasks, resource coverage).",
        ])
    );
    assert_eq!(
        recommendations(&vec![], 0, 12, false),
        ids(&["Connect 12 orphan task(s) to the schedule with dependencies."])
    );
    assert_eq!(
        recommendations(&vec![], 0, 0, false),
        ids(&["No actionable recommendations \u{2014} plan looks healthy."])
    );
}

#[test]
fn orphan_count_counts_orphan_reports() {
    let kinds = ids(&["orphan_task", "long_duration", "orphan_task", "risky_critical"]);
    assert_eq!(orphan_count(&kinds), 2);
    assert_eq!(orphan_count(&vec![]), 0);
}

#[test]
fn no_parallel_group_is_empty() {
    let t = |id: &str, k: i64| ScheduledTask { id: s(id), start_key: k };
    let tasks = vec![t("m", 0), t("b", 0), t("c", 0), t("d", 2000)];
    let groups = compute_parallel_groups(&tasks, &vec![dep("m", "b"), dep("b", "c")]);
    assert_eq!(groups.len(), 4);
    assert!(groups.iter().all(|g| !g.tasks.is_empty()));
}

#[test]
fn cycle_pieces_are_trimmed_and_non_empty() {
    assert_eq!(parse_cycle_tasks("  A   ->  B  "), ids(&["A", "B"]));
    for piece in parse_cycle_tasks(" -> x ->  -> y -> ") {
        assert!(!piece.is_empty());
        assert_eq!(piece.trim(), piece);
    }
}

#[test]
fn numstat_total_counts_file_lines_and_buckets_busy_sections() {
    let out = "1\t1\tbefore.rs\n__COMMIT__a\n\n__COMMIT__b\n1\t0\tx\n-\t-\ty.png\n__COMMIT__c\n2\t2\tz\n3\t3\tw\n";
    assert_eq!(parse_numstat(out), (4, 2, 0, 0));
}
