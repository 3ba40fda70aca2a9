//! The built-in plan templates, and the bulk YAML text written for one.

use vstd::prelude::*;

use crate::error::CamshaftError;
use crate::graph::{dep_relation, has_cycle_of, has_dep_cycle, is_cycle_of, Dep};
use crate::paths::{check_relative_path, relative_path_refusal};
use crate::text::{chars_of, decimal, decimal_chars, join, join_strings, string_of, string_views};

verus! {

/// A task of a template; its duration is in tenths of a unit.
#[derive(Debug, Clone)]
pub struct TemplateTask {
    pub id: String,
    pub name: String,
    pub tenths: u32,
    pub is_milestone: bool,
}

/// A dependency of a template, by task id.
#[derive(Debug, Clone)]
pub struct TemplateDep {
    pub from: String,
    pub to: String,
}

/// A plan template.
#[derive(Debug, Clone)]
pub struct TemplateSpec {
    pub name: String,
    pub description: String,
    pub tasks: Vec<TemplateTask>,
    pub deps: Vec<TemplateDep>,
}

/// Whether dependency `d` runs from an earlier task of `ts` to a later one.
pub open spec fn runs_forward(ts: Seq<TemplateTask>, d: TemplateDep) -> bool {
    exists|i: int, j: int|
        0 <= i < j < ts.len() && #[trigger] ts[i].id@ == d.from@ && #[trigger] ts[j].id@ == d.to@
}

/// Whether no two tasks of `ts` share an id.
pub open spec fn distinct_task_ids(ts: Seq<TemplateTask>) -> bool {
    forall|i: int, j: int|
        0 <= i < ts.len() && 0 <= j < ts.len() && i != j ==> #[trigger] ts[i].id@ != #[trigger] ts[j].id@
}

/// A sound template: distinct task ids, and every dependency runs from an
/// earlier task to a later one.
pub open spec fn template_sound(t: TemplateSpec) -> bool {
    &&& distinct_task_ids(t.tasks@)
    &&& forall|k: int| 0 <= k < t.deps.len() ==> runs_forward(t.tasks@, #[trigger] t.deps@[k])
}

/// The names of the built-in templates, in their order.
pub open spec fn template_names() -> Seq<Seq<char>> {
    seq!["feature-impl"@, "bug-fix"@, "migration"@, "launch"@, "research-spike"@]
}

/// A task as plain values: id, name, duration in tenths, milestone or not.
pub open spec fn task_view(t: TemplateTask) -> (Seq<char>, Seq<char>, u32, bool) {
    (t.id@, t.name@, t.tenths, t.is_milestone)
}

/// A dependency as plain values: from, to.
pub open spec fn dep_view(d: TemplateDep) -> (Seq<char>, Seq<char>) {
    (d.from@, d.to@)
}

/// A template as plain values.
pub struct TemplateView {
    pub name: Seq<char>,
    pub description: Seq<char>,
    pub tasks: Seq<(Seq<char>, Seq<char>, u32, bool)>,
    pub deps: Seq<(Seq<char>, Seq<char>)>,
}

/// The plain values of template `t`.
pub open spec fn template_view(t: TemplateSpec) -> TemplateView {
    TemplateView {
        name: t.name@,
        description: t.description@,
        tasks: t.tasks@.map_values(|x: TemplateTask| task_view(x)),
        deps: t.deps@.map_values(|d: TemplateDep| dep_view(d)),
    }
}

/// The `feature-impl` template.
pub open spec fn feature_impl_view() -> TemplateView {
    TemplateView {
        name: "feature-impl"@,
        description: "Standard feature implementation: design, build, test, document, review."@,
        tasks: seq![
            ("design-schema"@, "Design schema"@, 20u32, false),
            ("impl-core"@, "Implement core"@, 40u32, false),
            ("write-unit-tests"@, "Write unit tests"@, 20u32, false),
            ("write-integration-tests"@, "Write integration tests"@, 20u32, false),
            ("update-docs"@, "Update docs"@, 10u32, false),
            ("code-review"@, "Code review"@, 10u32, false),
        ],
        deps: seq![
            ("design-schema"@, "impl-core"@),
            ("impl-core"@, "write-unit-tests"@),
            ("impl-core"@, "write-integration-tests"@),
            ("write-unit-tests"@, "code-review"@),
            ("write-integration-tests"@, "code-review"@),
            ("impl-core"@, "update-docs"@),
        ],
    }
}

/// The `bug-fix` template.
pub open spec fn bug_fix_view() -> TemplateView {
    TemplateView {
        name: "bug-fix"@,
        description: "Investigation and fix cycle: reproduce, diagnose, fix, verify, review."@,
        tasks: seq![
            ("reproduce"@, "Reproduce bug"@, 10u32, false),
            ("diagnose"@, "Diagnose root cause"@, 20u32, false),
            ("fix"@, "Implement fix"@, 20u32, false),
            ("test-fix"@, "Test fix"@, 10u32, false),
            ("regression-test"@, "Regression test"@, 10u32, false),
            ("code-review"@, "Code review"@, 10u32, false),
        ],
        deps: seq![
            ("reproduce"@, "diagnose"@),
            ("diagnose"@, "fix"@),
            ("fix"@, "test-fix"@),
            ("test-fix"@, "regression-test"@),
            ("regression-test"@, "code-review"@),
        ],
    }
}

/// The `migration` template.
pub open spec fn migration_view() -> TemplateView {
    TemplateView {
        name: "migration"@,
        description: "Data or system migration: analyze, design, build, dry-run, execute, verify."@,
        tasks: seq![
            ("analyze-current"@, "Analyze current state"@, 40u32, false),
            ("design-target"@, "Design target state"@, 30u32, false),
            ("build-migrator"@, "Build migrator"@, 60u32, false),
            ("dry-run"@, "Dry run"@, 20u32, false),
            ("validate"@, "Validate dry-run output"@, 20u32, false),
            ("execute"@, "Execute migration"@, 30u32, false),
            ("verify"@, "Verify migration"@, 20u32, false),
        ],
        deps: seq![
            ("analyze-current"@, "design-target"@),
            ("design-target"@, "build-migrator"@),
            ("build-migrator"@, "dry-run"@),
            ("dry-run"@, "validate"@),
            ("validate"@, "execute"@),
            ("execute"@, "verify"@),
        ],
    }
}

/// The `launch` template.
pub open spec fn launch_view() -> TemplateView {
    TemplateView {
        name: "launch"@,
        description: "Feature launch workflow with launch-ready milestone gate."@,
        tasks: seq![
            ("qa-signoff"@, "QA sign-off"@, 20u32, false),
            ("stakeholder-demo"@, "Stakeholder demo"@, 10u32, false),
            ("docs-final"@, "Finalize docs"@, 20u32, false),
            ("launch-ready"@, "Launch ready"@, 0u32, true),
            ("feature-flag-enable"@, "Enable feature flag"@, 5u32, false),
            ("monitor"@, "Monitor rollout"@, 20u32, false),
            ("retrospective"@, "Retrospective"@, 10u32, false),
        ],
        deps: seq![
            ("qa-signoff"@, "launch-ready"@),
            ("stakeholder-demo"@, "launch-ready"@),
            ("launch-ready"@, "feature-flag-enable"@),
            ("feature-flag-enable"@, "monitor"@),
            ("monitor"@, "retrospective"@),
        ],
    }
}

/// The `research-spike` template.
pub open spec fn research_spike_view() -> TemplateView {
    TemplateView {
        name: "research-spike"@,
        description: "Time-boxed investigation: question, gather, experiment, document, share."@,
        tasks: seq![
            ("define-questions"@, "Define questions"@, 10u32, false),
            ("gather-data"@, "Gather data"@, 30u32, false),
            ("experiment"@, "Run experiments"@, 40u32, false),
            ("document-findings"@, "Document findings"@, 20u32, false),
            ("share-results"@, "Share results"@, 10u32, false),
        ],
        deps: seq![
            ("define-questions"@, "gather-data"@),
            ("gather-data"@, "experiment"@),
            ("experiment"@, "document-findings"@),
            ("document-findings"@, "share-results"@),
        ],
    }
}

/// The plain values of each template of `all`.
pub open spec fn template_views(all: Seq<TemplateSpec>) -> Seq<TemplateView> {
    all.map_values(|t: TemplateSpec| template_view(t))
}

/// The built-in templates, in their order.
pub open spec fn builtin_templates() -> Seq<TemplateView> {
    seq![feature_impl_view(), bug_fix_view(), migration_view(), launch_view(), research_spike_view()]
}

fn task(id: &str, name: &str, tenths: u32, is_milestone: bool) -> (t: TemplateTask)
    ensures
        task_view(t) == (id@, name@, tenths, is_milestone),
{
    TemplateTask {
        id: String::from_str(id),
        name: String::from_str(name),
        tenths,
        is_milestone,
    }
}

/// Adds the dependency from task `i` to task `j` of `ts`.
fn link(ts: &Vec<TemplateTask>, deps: &mut Vec<TemplateDep>, i: usize, j: usize)
    requires
        i < j < ts.len(),
        forall|k: int| 0 <= k < old(deps).len() ==> runs_forward(ts@, #[trigger] old(deps)@[k]),
    ensures
        final(deps)@.len() == old(deps)@.len() + 1,
        final(deps)@.drop_last() == old(deps)@,
        dep_view(final(deps)@.last()) == (ts@[i as int].id@, ts@[j as int].id@),
        forall|k: int| 0 <= k < final(deps).len() ==> runs_forward(ts@, #[trigger] final(deps)@[k]),
{
    let d = TemplateDep { from: ts[i].id.clone(), to: ts[j].id.clone() };
    assert(ts@[i as int].id@ == d.from@ && ts@[j as int].id@ == d.to@);
    assert(runs_forward(ts@, d));
    deps.push(d);
    assert(deps@.drop_last() =~= old(deps)@);
    assert forall|k: int| 0 <= k < deps.len() implies runs_forward(ts@, #[trigger] deps@[k]) by {
        if k < deps.len() - 1 {
            assert(deps@[k] == old(deps)@[k]);
        }
    }
}

fn template(name: &str, description: &str, tasks: Vec<TemplateTask>, deps: Vec<TemplateDep>) -> (t: TemplateSpec)
    ensures
        t.name@ == name@,
        t.description@ == description@,
        t.tasks@ == tasks@,
        t.deps@ == deps@,
{
    TemplateSpec { name: String::from_str(name), description: String::from_str(description), tasks, deps }
}

fn feature_impl() -> (t: TemplateSpec)
    ensures
        template_view(t) == feature_impl_view(),
        template_sound(t),
{
    let mut ts: Vec<TemplateTask> = Vec::new();
    ts.push(task("design-schema", "Design schema", 20, false));
    ts.push(task("impl-core", "Implement core", 40, false));
    ts.push(task("write-unit-tests", "Write unit tests", 20, false));
    ts.push(task("write-integration-tests", "Write integration tests", 20, false));
    ts.push(task("update-docs", "Update docs", 10, false));
    ts.push(task("code-review", "Code review", 10, false));
    proof {
        reveal_strlit("design-schema");
        reveal_strlit("impl-core");
        reveal_strlit("write-unit-tests");
        reveal_strlit("write-integration-tests");
        reveal_strlit("update-docs");
        reveal_strlit("code-review");
    }
    assert(ts@[0].id@ == "design-schema"@);
    assert(ts@[0].id@.len() == 13);
    assert(ts@[1].id@ == "impl-core"@);
    assert(ts@[1].id@.len() == 9);
    assert(ts@[2].id@ == "write-unit-tests"@);
    assert(ts@[2].id@.len() == 16);
    assert(ts@[3].id@ == "write-integration-tests"@);
    assert(ts@[3].id@.len() == 23);
    assert(ts@[4].id@ == "update-docs"@);
    assert(ts@[4].id@.len() == 11);
    assert(ts@[5].id@ == "code-review"@);
    assert(ts@[5].id@.len() == 11);
    assert(ts@[4].id@[0] != ts@[5].id@[0]);
    assert(distinct_task_ids(ts@));
    let mut ds: Vec<TemplateDep> = Vec::new();
    link(&ts, &mut ds, 0, 1);
    assert(dep_view(ds@[0]) == ("design-schema"@, "impl-core"@));
    link(&ts, &mut ds, 1, 2);
    assert(dep_view(ds@[1]) == ("impl-core"@, "write-unit-tests"@));
    link(&ts, &mut ds, 1, 3);
    assert(dep_view(ds@[2]) == ("impl-core"@, "write-integration-tests"@));
    link(&ts, &mut ds, 2, 5);
    assert(dep_view(ds@[3]) == ("write-unit-tests"@, "code-review"@));
    link(&ts, &mut ds, 3, 5);
    assert(dep_view(ds@[4]) == ("write-integration-tests"@, "code-review"@));
    link(&ts, &mut ds, 1, 4);
    assert(dep_view(ds@[5]) == ("impl-core"@, "update-docs"@));
    let t = template(
        "feature-impl",
        "Standard feature implementation: design, build, test, document, review.",
        ts,
        ds,
    );
    assert(template_view(t).tasks =~= feature_impl_view().tasks);
    assert(template_view(t).deps =~= feature_impl_view().deps);
    t
}

fn bug_fix() -> (t: TemplateSpec)
    ensures
        template_view(t) == bug_fix_view(),
        template_sound(t),
{
    let mut ts: Vec<TemplateTask> = Vec::new();
    ts.push(task("reproduce", "Reproduce bug", 10, false));
    ts.push(task("diagnose", "Diagnose root cause", 20, false));
    ts.push(task("fix", "Implement fix", 20, false));
    ts.push(task("test-fix", "Test fix", 10, false));
    ts.push(task("regression-test", "Regression test", 10, false));
    ts.push(task("code-review", "Code review", 10, false));
    proof {
        reveal_strlit("reproduce");
        reveal_strlit("diagnose");
        reveal_strlit("fix");
        reveal_strlit("test-fix");
        reveal_strlit("regression-test");
        reveal_strlit("code-review");
    }
    assert(ts@[0].id@ == "reproduce"@);
    assert(ts@[0].id@.len() == 9);
    assert(ts@[1].id@ == "diagnose"@);
    assert(ts@[1].id@.len() == 8);
    assert(ts@[2].id@ == "fix"@);
    assert(ts@[2].id@.len() == 3);
    assert(ts@[3].id@ == "test-fix"@);
    assert(ts@[3].id@.len() == 8);
    assert(ts@[4].id@ == "regression-test"@);
    assert(ts@[4].id@.len() == 15);
    assert(ts@[5].id@ == "code-review"@);
    assert(ts@[5].id@.len() == 11);
    assert(ts@[1].id@[0] != ts@[3].id@[0]);
    assert(distinct_task_ids(ts@));
    let mut ds: Vec<TemplateDep> = Vec::new();
    link(&ts, &mut ds, 0, 1);
    assert(dep_view(ds@[0]) == ("reproduce"@, "diagnose"@));
    link(&ts, &mut ds, 1, 2);
    assert(dep_view(ds@[1]) == ("diagnose"@, "fix"@));
    link(&ts, &mut ds, 2, 3);
    assert(dep_view(ds@[2]) == ("fix"@, "test-fix"@));
    link(&ts, &mut ds, 3, 4);
    assert(dep_view(ds@[3]) == ("test-fix"@, "regression-test"@));
    link(&ts, &mut ds, 4, 5);
    assert(dep_view(ds@[4]) == ("regression-test"@, "code-review"@));
    let t = template(
        "bug-fix",
        "Investigation and fix cycle: reproduce, diagnose, fix, verify, review.",
        ts,
        ds,
    );
    assert(template_view(t).tasks =~= bug_fix_view().tasks);
    assert(template_view(t).deps =~= bug_fix_view().deps);
    t
}

fn migration() -> (t: TemplateSpec)
    ensures
        template_view(t) == migration_view(),
        template_sound(t),
{
    let mut ts: Vec<TemplateTask> = Vec::new();
    ts.push(task("analyze-current", "Analyze current state", 40, false));
    ts.push(task("design-target", "Design target state", 30, false));
    ts.push(task("build-migrator", "Build migrator", 60, false));
    ts.push(task("dry-run", "Dry run", 20, false));
    ts.push(task("validate", "Validate dry-run output", 20, false));
    ts.push(task("execute", "Execute migration", 30, false));
    ts.push(task("verify", "Verify migration", 20, false));
    proof {
        reveal_strlit("analyze-current");
        reveal_strlit("design-target");
        reveal_strlit("build-migrator");
        reveal_strlit("dry-run");
        reveal_strlit("validate");
        reveal_strlit("execute");
        reveal_strlit("verify");
    }
    assert(ts@[0].id@ == "analyze-current"@);
    assert(ts@[0].id@.len() == 15);
    assert(ts@[1].id@ == "design-target"@);
    assert(ts@[1].id@.len() == 13);
    assert(ts@[2].id@ == "build-migrator"@);
    assert(ts@[2].id@.len() == 14);
    assert(ts@[3].id@ == "dry-run"@);
    assert(ts@[3].id@.len() == 7);
    assert(ts@[4].id@ == "validate"@);
    assert(ts@[4].id@.len() == 8);
    assert(ts@[5].id@ == "execute"@);
    assert(ts@[5].id@.len() == 7);
    assert(ts@[6].id@ == "verify"@);
    assert(ts@[6].id@.len() == 6);
    assert(ts@[3].id@[0] != ts@[5].id@[0]);
    assert(distinct_task_ids(ts@));
    let mut ds: Vec<TemplateDep> = Vec::new();
    link(&ts, &mut ds, 0, 1);
    assert(dep_view(ds@[0]) == ("analyze-current"@, "design-target"@));
    link(&ts, &mut ds, 1, 2);
    assert(dep_view(ds@[1]) == ("design-target"@, "build-migrator"@));
    link(&ts, &mut ds, 2, 3);
    assert(dep_view(ds@[2]) == ("build-migrator"@, "dry-run"@));
    link(&ts, &mut ds, 3, 4);
    assert(dep_view(ds@[3]) == ("dry-run"@, "validate"@));
    link(&ts, &mut ds, 4, 5);
    assert(dep_view(ds@[4]) == ("validate"@, "execute"@));
    link(&ts, &mut ds, 5, 6);
    assert(dep_view(ds@[5]) == ("execute"@, "verify"@));
    let t = template(
        "migration",
        "Data or system migration: analyze, design, build, dry-run, execute, verify.",
        ts,
        ds,
    );
    assert(template_view(t).tasks =~= migration_view().tasks);
    assert(template_view(t).deps =~= migration_view().deps);
    t
}

fn launch() -> (t: TemplateSpec)
    ensures
        template_view(t) == launch_view(),
        template_sound(t),
{
    let mut ts: Vec<TemplateTask> = Vec::new();
    ts.push(task("qa-signoff", "QA sign-off", 20, false));
    ts.push(task("stakeholder-demo", "Stakeholder demo", 10, false));
    ts.push(task("docs-final", "Finalize docs", 20, false));
    ts.push(task("launch-ready", "Launch ready", 0, true));
    ts.push(task("feature-flag-enable", "Enable feature flag", 5, false));
    ts.push(task("monitor", "Monitor rollout", 20, false));
    ts.push(task("retrospective", "Retrospective", 10, false));
    proof {
        reveal_strlit("qa-signoff");
        reveal_strlit("stakeholder-demo");
        reveal_strlit("docs-final");
        reveal_strlit("launch-ready");
        reveal_strlit("feature-flag-enable");
        reveal_strlit("monitor");
        reveal_strlit("retrospective");
    }
    assert(ts@[0].id@ == "qa-signoff"@);
    assert(ts@[0].id@.len() == 10);
    assert(ts@[1].id@ == "stakeholder-demo"@);
    assert(ts@[1].id@.len() == 16);
    assert(ts@[2].id@ == "docs-final"@);
    assert(ts@[2].id@.len() == 10);
    assert(ts@[3].id@ == "launch-ready"@);
    assert(ts@[3].id@.len() == 12);
    assert(ts@[4].id@ == "feature-flag-enable"@);
    assert(ts@[4].id@.len() == 19);
    assert(ts@[5].id@ == "monitor"@);
    assert(ts@[5].id@.len() == 7);
    assert(ts@[6].id@ == "retrospective"@);
    assert(ts@[6].id@.len() == 13);
    assert(ts@[0].id@[0] != ts@[2].id@[0]);
    assert(distinct_task_ids(ts@));
    let mut ds: Vec<TemplateDep> = Vec::new();
    link(&ts, &mut ds, 0, 3);
    assert(dep_view(ds@[0]) == ("qa-signoff"@, "launch-ready"@));
    link(&ts, &mut ds, 1, 3);
    assert(dep_view(ds@[1]) == ("stakeholder-demo"@, "launch-ready"@));
    link(&ts, &mut ds, 3, 4);
    assert(dep_view(ds@[2]) == ("launch-ready"@, "feature-flag-enable"@));
    link(&ts, &mut ds, 4, 5);
    assert(dep_view(ds@[3]) == ("feature-flag-enable"@, "monitor"@));
    link(&ts, &mut ds, 5, 6);
    assert(dep_view(ds@[4]) == ("monitor"@, "retrospective"@));
    let t = template(
        "launch",
        "Feature launch workflow with launch-ready milestone gate.",
        ts,
        ds,
    );
    assert(template_view(t).tasks =~= launch_view().tasks);
    assert(template_view(t).deps =~= launch_view().deps);
    t
}

fn research_spike() -> (t: TemplateSpec)
    ensures
        template_view(t) == research_spike_view(),
        template_sound(t),
{
    let mut ts: Vec<TemplateTask> = Vec::new();
    ts.push(task("define-questions", "Define questions", 10, false));
    ts.push(task("gather-data", "Gather data", 30, false));
    ts.push(task("experiment", "Run experiments", 40, false));
    ts.push(task("document-findings", "Document findings", 20, false));
    ts.push(task("share-results", "Share results", 10, false));
    proof {
        reveal_strlit("define-questions");
        reveal_strlit("gather-data");
        reveal_strlit("experiment");
        reveal_strlit("document-findings");
        reveal_strlit("share-results");
    }
    assert(ts@[0].id@ == "define-questions"@);
    assert(ts@[0].id@.len() == 16);
    assert(ts@[1].id@ == "gather-data"@);
    assert(ts@[1].id@.len() == 11);
    assert(ts@[2].id@ == "experiment"@);
    assert(ts@[2].id@.len() == 10);
    assert(ts@[3].id@ == "document-findings"@);
    assert(ts@[3].id@.len() == 17);
    assert(ts@[4].id@ == "share-results"@);
    assert(ts@[4].id@.len() == 13);
    assert(distinct_task_ids(ts@));
    let mut ds: Vec<TemplateDep> = Vec::new();
    link(&ts, &mut ds, 0, 1);
    assert(dep_view(ds@[0]) == ("define-questions"@, "gather-data"@));
    link(&ts, &mut ds, 1, 2);
    assert(dep_view(ds@[1]) == ("gather-data"@, "experiment"@));
    link(&ts, &mut ds, 2, 3);
    assert(dep_view(ds@[2]) == ("experiment"@, "document-findings"@));
    link(&ts, &mut ds, 3, 4);
    assert(dep_view(ds@[3]) == ("document-findings"@, "share-results"@));
    let t = template(
        "research-spike",
        "Time-boxed investigation: question, gather, experiment, document, share.",
        ts,
        ds,
    );
    assert(template_view(t).tasks =~= research_spike_view().tasks);
    assert(template_view(t).deps =~= research_spike_view().deps);
    t
}

/// The built-in templates, in their order; each is sound: its task ids are
/// distinct and each of its dependencies runs from an earlier task to a
/// later one.
pub fn all_templates() -> (r: Vec<TemplateSpec>)
    ensures
        template_views(r@) == builtin_templates(),
        forall|i: int| 0 <= i < r.len() ==> template_sound(#[trigger] r@[i]),
{
    let mut r: Vec<TemplateSpec> = Vec::new();
    r.push(feature_impl());
    r.push(bug_fix());
    r.push(migration());
    r.push(launch());
    r.push(research_spike());
    assert(template_views(r@) =~= builtin_templates());
    r
}

/// The names of the built-in templates are those of their views.
proof fn lemma_builtin_names(all: Seq<TemplateSpec>)
    requires
        template_views(all) == builtin_templates(),
    ensures
        all.len() == 5,
        forall|k: int| 0 <= k < 5 ==> (#[trigger] all[k]).name@ == template_names()[k],
        forall|k: int| 0 <= k < 5 ==> template_view(#[trigger] all[k]) == builtin_templates()[k],
{
    assert(builtin_templates().len() == 5);
    assert(template_views(all).len() == all.len());
    assert forall|k: int| 0 <= k < 5 implies template_view(#[trigger] all[k]) == builtin_templates()[k] by {
        assert(template_views(all)[k] == template_view(all[k]));
    }
    assert forall|k: int| 0 <= k < 5 implies (#[trigger] all[k]).name@ == template_names()[k] by {
        assert(template_views(all)[k] == template_view(all[k]));
    }
}

/// Whether `v` is the built-in template named `name`.
pub open spec fn is_builtin_named(v: TemplateView, name: Seq<char>) -> bool {
    exists|k: int| 0 <= k < 5 && builtin_templates()[k] == v && #[trigger] template_names()[k] == name
}

/// The template named `name`, if there is one.
pub fn find_template(name: &str) -> (r: Option<TemplateSpec>)
    ensures
        r is Some <==> template_names().contains(name@),
        r matches Some(t) ==> t.name@ == name@ && template_sound(t) && is_builtin_named(
            template_view(t),
            name@,
        ),
{
    let all = all_templates();
    proof {
        lemma_builtin_names(all@);
    }
    let mut i: usize = 0;
    while i < all.len()
        invariant
            i <= all.len(),
            all.len() == 5,
            forall|k: int| 0 <= k < 5 ==> (#[trigger] all@[k]).name@ == template_names()[k],
            forall|k: int| 0 <= k < 5 ==> template_view(#[trigger] all@[k]) == builtin_templates()[k],
            forall|k: int| 0 <= k < all.len() ==> template_sound(#[trigger] all@[k]),
            forall|k: int| 0 <= k < i ==> template_names()[k] != name@,
        decreases all.len() - i,
    {
        if crate::text::str_eq(all[i].name.as_str(), name) {
            let t = all[i].clone_template();
            proof {
                lemma_same_view(all@[i as int], t);
                assert(template_names()[i as int] == name@);
            }
            return Some(t);
        }
        i = i + 1;
    }
    assert forall|k: int| 0 <= k < template_names().len() implies template_names()[k] != name@ by {}
    None
}

impl TemplateTask {
    /// A copy of the task.
    pub fn clone_task(&self) -> (r: TemplateTask)
        ensures
            r.id@ == self.id@ && r.name@ == self.name@,
            r.tenths == self.tenths && r.is_milestone == self.is_milestone,
    {
        TemplateTask {
            id: self.id.clone(),
            name: self.name.clone(),
            tenths: self.tenths,
            is_milestone: self.is_milestone,
        }
    }
}

/// Whether two task lists agree on every field.
pub open spec fn same_tasks(a: Seq<TemplateTask>, b: Seq<TemplateTask>) -> bool {
    &&& a.len() == b.len()
    &&& forall|i: int|
        0 <= i < a.len() ==> (#[trigger] a[i]).id@ == b[i].id@ && a[i].name@ == b[i].name@
            && a[i].tenths == b[i].tenths && a[i].is_milestone == b[i].is_milestone
}

/// Whether two dependency lists agree on every field.
pub open spec fn same_deps(a: Seq<TemplateDep>, b: Seq<TemplateDep>) -> bool {
    &&& a.len() == b.len()
    &&& forall|i: int| 0 <= i < a.len() ==> (#[trigger] a[i]).from@ == b[i].from@ && a[i].to@ == b[i].to@
}

/// Whether two templates agree on every field.
pub open spec fn same_template(a: TemplateSpec, b: TemplateSpec) -> bool {
    &&& a.name@ == b.name@
    &&& a.description@ == b.description@
    &&& same_tasks(a.tasks@, b.tasks@)
    &&& same_deps(a.deps@, b.deps@)
}

proof fn lemma_sound_copy(a: TemplateSpec, b: TemplateSpec)
    requires
        template_sound(a),
        same_template(a, b),
    ensures
        template_sound(b),
{
    assert forall|i: int, j: int|
        0 <= i < b.tasks.len() && 0 <= j < b.tasks.len() && i != j implies #[trigger] b.tasks@[i].id@
        != #[trigger] b.tasks@[j].id@ by {
        assert(a.tasks@[i].id@ != a.tasks@[j].id@);
    }
    assert forall|k: int| 0 <= k < b.deps.len() implies runs_forward(b.tasks@, #[trigger] b.deps@[k]) by {
        assert(runs_forward(a.tasks@, a.deps@[k]));
        let (i, j) = choose|i: int, j: int|
            0 <= i < j < a.tasks.len() && #[trigger] a.tasks@[i].id@ == a.deps@[k].from@
                && #[trigger] a.tasks@[j].id@ == a.deps@[k].to@;
        assert(b.tasks@[i].id@ == b.deps@[k].from@ && b.tasks@[j].id@ == b.deps@[k].to@);
    }
}

proof fn lemma_same_view(a: TemplateSpec, b: TemplateSpec)
    requires
        same_template(a, b),
    ensures
        template_view(a) == template_view(b),
{
    assert(template_view(a).tasks =~= template_view(b).tasks);
    assert(template_view(a).deps =~= template_view(b).deps);
}

impl TemplateSpec {
    /// A copy of the template.
    pub fn clone_template(&self) -> (r: TemplateSpec)
        ensures
            same_template(*self, r),
            template_sound(*self) ==> template_sound(r),
    {
        let mut tasks: Vec<TemplateTask> = Vec::new();
        let mut i: usize = 0;
        while i < self.tasks.len()
            invariant
                i <= self.tasks.len(),
                same_tasks(self.tasks@.subrange(0, i as int), tasks@),
            decreases self.tasks.len() - i,
        {
            tasks.push(self.tasks[i].clone_task());
            i = i + 1;
        }
        assert(self.tasks@.subrange(0, self.tasks.len() as int) =~= self.tasks@);
        let mut deps: Vec<TemplateDep> = Vec::new();
        let mut j: usize = 0;
        while j < self.deps.len()
            invariant
                j <= self.deps.len(),
                same_deps(self.deps@.subrange(0, j as int), deps@),
            decreases self.deps.len() - j,
        {
            deps.push(TemplateDep { from: self.deps[j].from.clone(), to: self.deps[j].to.clone() });
            j = j + 1;
        }
        assert(self.deps@.subrange(0, self.deps.len() as int) =~= self.deps@);
        let r = TemplateSpec {
            name: self.name.clone(),
            description: self.description.clone(),
            tasks,
            deps,
        };
        proof {
            if template_sound(*self) {
                lemma_sound_copy(*self, r);
            }
        }
        r
    }
}

/// The message for a template name that no template has.
pub open spec fn unknown_template_message(name: Seq<char>) -> Seq<char> {
    "Unknown template: "@ + name + ". Available: "@ + join(template_names(), ", "@)
}

/// The template named `name`, or a validation error that lists the names
/// there are.
pub fn template_named(name: &str) -> (r: Result<TemplateSpec, CamshaftError>)
    ensures
        template_names().contains(name@) ==> (r matches Ok(t) && t.name@ == name@ && template_sound(t)
            && is_builtin_named(template_view(t), name@)),
        !template_names().contains(name@) ==> (r matches Err(CamshaftError::ValidationFailed(m))
            && m@ == unknown_template_message(name@)),
{
    match find_template(name) {
        Some(t) => Ok(t),
        None => {
            let all = all_templates();
            proof {
                lemma_builtin_names(all@);
            }
            let mut names: Vec<String> = Vec::new();
            let mut i: usize = 0;
            while i < all.len()
                invariant
                    i <= all.len(),
                    all.len() == 5,
                    forall|k: int| 0 <= k < 5 ==> (#[trigger] all@[k]).name@ == template_names()[k],
                    string_views(names@) == template_names().subrange(0, i as int),
                decreases all.len() - i,
            {
                let ghost before = names@;
                names.push(all[i].name.clone());
                assert(string_views(names@) =~= string_views(before).push(all@[i as int].name@));
                assert(template_names().subrange(0, i + 1) =~= template_names().subrange(0, i as int).push(template_names()[i as int]));
                i = i + 1;
            }
            assert(template_names().subrange(0, 5) =~= template_names());
            let m = String::from_str("Unknown template: ").concat(name).concat(". Available: ").concat(
                join_strings(&names, ", ").as_str(),
            );
            Err(CamshaftError::ValidationFailed(m))
        },
    }
}

// ---------------------------------------------------------------------------
// The YAML text of a template
// ---------------------------------------------------------------------------

/// Whether a YAML scalar must be quoted: it holds `:`, `#` or `"`, or it
/// starts with a space or `-`.
pub open spec fn needs_quotes(s: Seq<char>) -> bool {
    ||| s.contains(':')
    ||| s.contains('#')
    ||| s.contains('"')
    ||| (s.len() > 0 && (s[0] == ' ' || s[0] == '-'))
}

/// A character as written inside double quotes.
pub open spec fn escaped_char(c: char) -> Seq<char> {
    if c == '\\' {
        seq!['\\', '\\']
    } else if c == '"' {
        seq!['\\', '"']
    } else {
        seq![c]
    }
}

/// `s` with each backslash doubled and each double quote escaped.
pub open spec fn escaped(s: Seq<char>) -> Seq<char>
    decreases s.len(),
{
    if s.len() == 0 {
        seq![]
    } else {
        escaped(s.drop_last()) + escaped_char(s.last())
    }
}

/// `s` as a YAML scalar: quoted and escaped when it must be, else as it is.
pub open spec fn yaml_scalar(s: Seq<char>) -> Seq<char> {
    if needs_quotes(s) {
        seq!['"'] + escaped(s) + seq!['"']
    } else {
        s
    }
}

/// Writes `s` as a YAML scalar.
pub fn yaml_escape(s: &str) -> (r: String)
    ensures
        r@ == yaml_scalar(s@),
{
    let v = chars_of(s);
    let mut quote = v.len() > 0 && (v[0] == ' ' || v[0] == '-');
    let mut out: Vec<char> = Vec::new();
    let mut i: usize = 0;
    while i < v.len()
        invariant
            i <= v.len(),
            v@ == s@,
            out@ == escaped(v@.subrange(0, i as int)),
            quote == ((v.len() > 0 && (v@[0] == ' ' || v@[0] == '-')) || v@.subrange(0, i as int).contains(':')
                || v@.subrange(0, i as int).contains('#') || v@.subrange(0, i as int).contains('"')),
        decreases v.len() - i,
    {
        let c = v[i];
        let ghost pre = v@.subrange(0, i as int);
        assert(v@.subrange(0, i + 1) =~= pre.push(c));
        assert(v@.subrange(0, i + 1).drop_last() =~= pre);
        if c == ':' || c == '#' || c == '"' {
            quote = true;
        }
        assert(pre.push(c)[pre.len() as int] == c);
        assert forall|x: char| pre.push(c).contains(x) implies pre.contains(x) || x == c by {
            let k = choose|k: int| 0 <= k < pre.push(c).len() && pre.push(c)[k] == x;
            if k < pre.len() {
                assert(pre[k] == x);
            }
        }
        assert forall|x: char| pre.contains(x) implies pre.push(c).contains(x) by {
            let k = choose|k: int| 0 <= k < pre.len() && pre[k] == x;
            assert(pre.push(c)[k] == x);
        }
        if c == '\\' {
            out.push('\\');
            out.push('\\');
        } else if c == '"' {
            out.push('\\');
            out.push('"');
        } else {
            out.push(c);
        }
        assert(out@ =~= escaped(pre) + escaped_char(c));
        i = i + 1;
    }
    assert(v@.subrange(0, v.len() as int) =~= v@);
    if quote {
        let mut q: Vec<char> = Vec::new();
        q.push('"');
        let mut j: usize = 0;
        while j < out.len()
            invariant
                j <= out.len(),
                q@ == seq!['"'] + out@.subrange(0, j as int),
            decreases out.len() - j,
        {
            q.push(out[j]);
            j = j + 1;
            assert(q@ =~= seq!['"'] + out@.subrange(0, j as int));
        }
        q.push('"');
        assert(out@.subrange(0, out.len() as int) =~= out@);
        string_of(&q)
    } else {
        String::from_str(s)
    }
}

/// How a YAML reader takes the body of a double-quoted scalar apart, for
/// the two escapes that `escaped` writes: `\\` stands for a backslash and
/// `\"` for a double quote; every other character stands for itself.
pub open spec fn unescaped(e: Seq<char>) -> Seq<char>
    decreases e.len(),
{
    if e.len() == 0 {
        seq![]
    } else if e.len() >= 2 && e[0] == '\\' && (e[1] == '\\' || e[1] == '"') {
        seq![e[1]] + unescaped(e.subrange(2, e.len() as int))
    } else {
        seq![e[0]] + unescaped(e.drop_first())
    }
}

proof fn lemma_escaped_concat(a: Seq<char>, b: Seq<char>)
    ensures
        escaped(a + b) == escaped(a) + escaped(b),
    decreases b.len(),
{
    if b.len() == 0 {
        assert(a + b =~= a);
        assert(escaped(a) + escaped(b) =~= escaped(a));
    } else {
        assert((a + b).drop_last() =~= a + b.drop_last());
        assert((a + b).last() == b.last());
        lemma_escaped_concat(a, b.drop_last());
        assert(escaped(a) + escaped(b.drop_last()) + escaped_char(b.last()) =~= escaped(a) + escaped(b));
    }
}

/// Reading back the body that `escaped` writes inside double quotes gives
/// the text again, so a quoted YAML scalar holds exactly the text it was
/// written for.
pub proof fn lemma_escaped_reads_back(s: Seq<char>)
    ensures
        unescaped(escaped(s)) == s,
    decreases s.len(),
{
    if s.len() > 0 {
        let c = s[0];
        let rest = s.drop_first();
        assert(s =~= seq![c] + rest);
        lemma_escaped_concat(seq![c], rest);
        assert(seq![c].drop_last() =~= Seq::<char>::empty());
        assert(seq![c].last() == c);
        assert(escaped(Seq::<char>::empty()) =~= Seq::<char>::empty());
        assert(escaped(seq![c]) =~= escaped(Seq::<char>::empty()) + escaped_char(c));
        assert(escaped(seq![c]) =~= escaped_char(c));
        let e = escaped_char(c) + escaped(rest);
        assert(escaped(s) == e);
        lemma_escaped_reads_back(rest);
        if c == '\\' || c == '"' {
            assert(e.subrange(2, e.len() as int) =~= escaped(rest));
        } else {
            assert(e.drop_first() =~= escaped(rest));
        }
        assert(seq![c] + rest =~= s);
    }
}

/// A duration given in tenths, as a float prints: `2`, `0.5`, `0`.
pub open spec fn tenths_text(t: nat) -> Seq<char> {
    if t % 10 == 0 {
        decimal(t / 10)
    } else {
        decimal(t / 10) + seq!['.'] + decimal(t % 10)
    }
}

fn tenths_string(t: u32) -> (r: String)
    ensures
        r@ == tenths_text(t as nat),
{
    let whole = decimal_chars((t / 10) as usize);
    if t % 10 == 0 {
        string_of(&whole)
    } else {
        let frac = decimal_chars((t % 10) as usize);
        let r = string_of(&whole).concat(".").concat(string_of(&frac).as_str());
        proof { reveal_strlit("."); }
        assert(r@ =~= decimal((t / 10) as nat) + seq!['.'] + decimal((t % 10) as nat));
        r
    }
}

/// The entry of a task in the `tasks` list.
pub open spec fn task_entry(t: TemplateTask) -> Seq<char> {
    "  - id: "@ + t.id@ + "\n    name: "@ + yaml_scalar(t.name@) + "\n    duration: "@
        + tenths_text(t.tenths as nat) + "\n"@
}

/// The entry of a milestone in the `milestones` list.
pub open spec fn milestone_entry(t: TemplateTask) -> Seq<char> {
    "  - id: "@ + t.id@ + "\n    name: "@ + yaml_scalar(t.name@) + "\n"@
}

/// The entry of a dependency in the `dependencies` list.
pub open spec fn dep_entry(d: TemplateDep) -> Seq<char> {
    "  - from: "@ + d.from@ + "\n    to: "@ + d.to@ + "\n"@
}

/// The entries of the first `k` tasks of `ts` that are not milestones.
pub open spec fn task_entries(ts: Seq<TemplateTask>, k: int) -> Seq<char>
    decreases k,
{
    if k <= 0 {
        seq![]
    } else {
        task_entries(ts, k - 1) + if ts[k - 1].is_milestone {
            seq![]
        } else {
            task_entry(ts[k - 1])
        }
    }
}

/// The entries of the milestones among the first `k` tasks of `ts`.
pub open spec fn milestone_entries(ts: Seq<TemplateTask>, k: int) -> Seq<char>
    decreases k,
{
    if k <= 0 {
        seq![]
    } else {
        milestone_entries(ts, k - 1) + if ts[k - 1].is_milestone {
            milestone_entry(ts[k - 1])
        } else {
            seq![]
        }
    }
}

/// The entries of the first `k` dependencies of `ds`.
pub open spec fn dep_entries(ds: Seq<TemplateDep>, k: int) -> Seq<char>
    decreases k,
{
    if k <= 0 {
        seq![]
    } else {
        dep_entries(ds, k - 1) + dep_entry(ds[k - 1])
    }
}

/// Whether some task of `ts` is a milestone.
pub open spec fn has_milestone(ts: Seq<TemplateTask>) -> bool {
    exists|i: int| 0 <= i < ts.len() && (#[trigger] ts[i]).is_milestone
}

/// The bulk YAML text of template `t` for a plan named `plan_name`, in
/// sprint mode: tasks, then milestones and dependencies where there are any.
pub open spec fn template_text(t: TemplateSpec, plan_name: Seq<char>) -> Seq<char> {
    "name: "@ + yaml_scalar(plan_name) + "\n"@ + "mode: sprint\n"@ + "tasks:\n"@ + task_entries(
        t.tasks@,
        t.tasks.len() as int,
    ) + (if has_milestone(t.tasks@) {
        "milestones:\n"@ + milestone_entries(t.tasks@, t.tasks.len() as int)
    } else {
        seq![]
    }) + (if t.deps.len() > 0 {
        "dependencies:\n"@ + dep_entries(t.deps@, t.deps.len() as int)
    } else {
        seq![]
    })
}

/// The bulk YAML text of template `t` for a plan named `plan_name`.
pub fn template_yaml(t: &TemplateSpec, plan_name: &str) -> (r: String)
    ensures
        r@ == template_text(*t, plan_name@),
{
    let mut text = String::from_str("name: ").concat(yaml_escape(plan_name).as_str()).concat("\n");
    text = text.concat("mode: sprint\n").concat("tasks:\n");
    let ghost head = text@;
    let mut i: usize = 0;
    let mut any_milestone = false;
    while i < t.tasks.len()
        invariant
            i <= t.tasks.len(),
            text@ == head + task_entries(t.tasks@, i as int),
            any_milestone == exists|k: int| 0 <= k < i && (#[trigger] t.tasks@[k]).is_milestone,
        decreases t.tasks.len() - i,
    {
        let x = &t.tasks[i];
        let ghost before = text@;
        if x.is_milestone {
            any_milestone = true;
            assert(text@ =~= head + task_entries(t.tasks@, i + 1));
        } else {
            text = text.concat("  - id: ").concat(x.id.as_str()).concat("\n    name: ").concat(
                yaml_escape(x.name.as_str()).as_str(),
            ).concat("\n    duration: ").concat(tenths_string(x.tenths).as_str()).concat("\n");
            assert(text@ =~= before + task_entry(t.tasks@[i as int]));
            assert(text@ =~= head + task_entries(t.tasks@, i + 1));
        }
        i = i + 1;
    }
    if any_milestone {
        text = text.concat("milestones:\n");
        let ghost mhead = text@;
        let mut j: usize = 0;
        while j < t.tasks.len()
            invariant
                j <= t.tasks.len(),
                text@ == mhead + milestone_entries(t.tasks@, j as int),
            decreases t.tasks.len() - j,
        {
            let x = &t.tasks[j];
            let ghost before = text@;
            if x.is_milestone {
                text = text.concat("  - id: ").concat(x.id.as_str()).concat("\n    name: ").concat(
                    yaml_escape(x.name.as_str()).as_str(),
                ).concat("\n");
                assert(text@ =~= before + milestone_entry(t.tasks@[j as int]));
            }
            assert(text@ =~= mhead + milestone_entries(t.tasks@, j + 1));
            j = j + 1;
        }
    }
    let ghost mid = text@;
    if t.deps.len() > 0 {
        text = text.concat("dependencies:\n");
        let ghost dhead = text@;
        let mut k: usize = 0;
        while k < t.deps.len()
            invariant
                k <= t.deps.len(),
                text@ == dhead + dep_entries(t.deps@, k as int),
            decreases t.deps.len() - k,
        {
            let d = &t.deps[k];
            let ghost before = text@;
            text = text.concat("  - from: ").concat(d.from.as_str()).concat("\n    to: ").concat(
                d.to.as_str(),
            ).concat("\n");
            assert(text@ =~= before + dep_entry(t.deps@[k as int]));
            assert(text@ =~= dhead + dep_entries(t.deps@, k + 1));
            k = k + 1;
        }
    }
    assert(text@ =~= template_text(*t, plan_name@));
    text
}

/// The bulk YAML text to write for template `t` at `path`: the path must
/// be relative and free of `..` components.
pub fn template_file_text(t: &TemplateSpec, plan_name: &str, path: &str) -> (r: Result<String, CamshaftError>)
    ensures
        match relative_path_refusal(path@, "Output"@) {
            Some(msg) => (r matches Err(CamshaftError::ValidationFailed(m)) && m@ == msg),
            None => (r matches Ok(text) && text@ == template_text(*t, plan_name@)),
        },
{
    match check_relative_path(path, "Output") {
        Err(e) => Err(e),
        Ok(()) => Ok(template_yaml(t, plan_name)),
    }
}

// ---------------------------------------------------------------------------
// Templates make acyclic plans
// ---------------------------------------------------------------------------

/// The task ids of template `t`.
pub open spec fn template_ids(t: TemplateSpec) -> Seq<String> {
    t.tasks@.map_values(|x: TemplateTask| x.id)
}

/// The dependencies of template `t`, as plan dependencies.
pub open spec fn template_deps(t: TemplateSpec) -> Seq<Dep> {
    t.deps@.map_values(|d: TemplateDep| Dep { predecessor: d.from, successor: d.to })
}

proof fn lemma_rising_prefix(edge: spec_fn(int, int) -> bool, c: Seq<int>, i: int)
    requires
        forall|u: int, v: int| #[trigger] edge(u, v) ==> u < v,
        is_cycle_of(edge, c),
        0 <= i < c.len(),
    ensures
        c[0] <= c[i],
    decreases i,
{
    if i > 0 {
        let j = i - 1;
        lemma_rising_prefix(edge, c, j);
        assert(0 <= j < c.len() - 1);
        assert(edge(c[j], c[j + 1]));
    }
}

/// A relation whose every step goes up has no cycle.
pub proof fn lemma_rising_relation_acyclic(edge: spec_fn(int, int) -> bool)
    requires
        forall|u: int, v: int| #[trigger] edge(u, v) ==> u < v,
    ensures
        !has_cycle_of(edge),
{
    if has_cycle_of(edge) {
        let c = choose|c: Seq<int>| is_cycle_of(edge, c);
        lemma_rising_prefix(edge, c, c.len() - 1);
        assert(edge(c.last(), c[0]));
    }
}

/// Every sound template, the built-in ones among them, makes a plan whose
/// dependencies form no cycle.
pub proof fn lemma_template_acyclic(t: TemplateSpec)
    requires
        template_sound(t),
    ensures
        !has_dep_cycle(template_ids(t), template_deps(t)),
{
    let ids = template_ids(t);
    let deps = template_deps(t);
    let edge = dep_relation(ids, deps);
    assert forall|u: int, v: int| #[trigger] edge(u, v) implies u < v by {
        let k = choose|k: int|
            0 <= k < deps.len() && #[trigger] deps[k].predecessor@ == ids[u]@ && deps[k].successor@
                == ids[v]@;
        assert(runs_forward(t.tasks@, t.deps@[k]));
        let (i, j) = choose|i: int, j: int|
            0 <= i < j < t.tasks.len() && #[trigger] t.tasks@[i].id@ == t.deps@[k].from@
                && #[trigger] t.tasks@[j].id@ == t.deps@[k].to@;
        assert(t.tasks@[u].id@ == t.tasks@[i].id@);
        assert(t.tasks@[v].id@ == t.tasks@[j].id@);
    }
    lemma_rising_relation_acyclic(edge);
}


/// Whether the template is one chain: each task but the first depends on
/// the task listed just before it, and there is no other dependency.
pub open spec fn is_task_chain(v: TemplateView) -> bool {
    &&& v.deps.len() + 1 == v.tasks.len()
    &&& forall|i: int| 0 <= i < v.deps.len() ==> #[trigger] v.deps[i] == (v.tasks[i].0, v.tasks[i + 1].0)
}

/// The `bug-fix`, `migration` and `research-spike` templates are single
/// chains: reproduce through code review; analyze-current, design-target,
/// build-migrator, dry-run, validate, execute, verify; and define-questions
/// through share-results.
pub proof fn lemma_chain_templates()
    ensures
        is_task_chain(bug_fix_view()),
        is_task_chain(migration_view()),
        is_task_chain(research_spike_view()),
{
    let b = bug_fix_view();
    assert forall|i: int| 0 <= i < b.deps.len() implies #[trigger] b.deps[i] == (b.tasks[i].0, b.tasks[i + 1].0) by {
        if i == 0 {} else if i == 1 {} else if i == 2 {} else if i == 3 {} else {}
    }
    let m = migration_view();
    assert forall|i: int| 0 <= i < m.deps.len() implies #[trigger] m.deps[i] == (m.tasks[i].0, m.tasks[i + 1].0) by {
        if i == 0 {} else if i == 1 {} else if i == 2 {} else if i == 3 {} else if i == 4 {} else {}
    }
    let r = research_spike_view();
    assert forall|i: int| 0 <= i < r.deps.len() implies #[trigger] r.deps[i] == (r.tasks[i].0, r.tasks[i + 1].0) by {
        if i == 0 {} else if i == 1 {} else if i == 2 {} else {}
    }
}

} // verus!
