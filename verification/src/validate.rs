//! Plan validation: an empty plan, orphan tasks, dependencies on missing
//! tasks, duplicate dependencies and dependency cycles, reported as issues
//! with a verdict.

use vstd::prelude::*;

use crate::error::CamshaftError;
use crate::graph::{
    behind_cycle_of, cycle_members, dep_relation, distinct_ids, has_dep_cycle, ids_where,
    position_of, Dep,
};
use crate::text::{
    chars_of, find_chars, find_from, join, split, split_chars, string_of, string_views, trim,
    trim_chars, views_of,
};

verus! {

/// How serious an issue is: an error makes the plan invalid.
#[derive(Debug, Clone, Copy, PartialEq, Eq)]
pub enum IssueSeverity {
    Error,
    Warning,
}

impl IssueSeverity {
    /// The name under which the severity is reported.
    pub fn name(&self) -> (r: &'static str)
        ensures
            r@ == (match *self {
                IssueSeverity::Error => "error"@,
                IssueSeverity::Warning => "warning"@,
            }),
    {
        match self {
            IssueSeverity::Error => "error",
            IssueSeverity::Warning => "warning",
        }
    }
}

/// One finding of the validation, with the tasks it concerns.
#[derive(Debug, Clone)]
pub struct Issue {
    pub severity: IssueSeverity,
    pub message: String,
    pub affected_tasks: Vec<String>,
}

/// An issue as plain values: whether it is an error, its message, its tasks.
pub open spec fn issue_view(i: Issue) -> (bool, Seq<char>, Seq<Seq<char>>) {
    (i.severity == IssueSeverity::Error, i.message@, string_views(i.affected_tasks@))
}

pub open spec fn issue_views(s: Seq<Issue>) -> Seq<(bool, Seq<char>, Seq<Seq<char>>)> {
    s.map_values(|i: Issue| issue_view(i))
}

/// What the cycle search of the scheduling engine answered: the tasks of a
/// cycle it found, no cycle, or a failure with the engine's error text.
#[derive(Debug, Clone)]
pub enum CycleProbe {
    Found(Vec<String>),
    NotFound,
    Failed(String),
}

/// The result of validating a plan.
#[derive(Debug, Clone)]
pub struct ValidationReport {
    pub valid: bool,
    pub issues: Vec<Issue>,
    pub errors: Vec<String>,
    pub warnings: Vec<String>,
    pub can_optimize: bool,
    pub task_count: usize,
    pub dependency_count: usize,
}

// ---------------------------------------------------------------------------
// What the validation finds
// ---------------------------------------------------------------------------

/// Whether `s` is the id of a task.
pub open spec fn in_ids(ids: Seq<String>, s: Seq<char>) -> bool {
    exists|i: int| 0 <= i < ids.len() && #[trigger] ids[i]@ == s
}

/// Whether some dependency names `s` at either end.
pub open spec fn referenced(deps: Seq<Dep>, s: Seq<char>) -> bool {
    exists|k: int|
        0 <= k < deps.len() && (#[trigger] deps[k].predecessor@ == s || deps[k].successor@ == s)
}

/// The warning for an empty plan.
pub open spec fn empty_plan_issues(ids: Seq<String>) -> Seq<(bool, Seq<char>, Seq<Seq<char>>)> {
    if ids.len() == 0 {
        seq![(false, "Plan has no activities"@, Seq::<Seq<char>>::empty())]
    } else {
        seq![]
    }
}

/// The warnings for tasks that no dependency names, among the first `k`.
pub open spec fn orphan_issues(ids: Seq<String>, deps: Seq<Dep>, k: int) -> Seq<
    (bool, Seq<char>, Seq<Seq<char>>),
>
    decreases k,
{
    if k <= 0 {
        seq![]
    } else {
        let r = orphan_issues(ids, deps, k - 1);
        let id = ids[k - 1]@;
        if !referenced(deps, id) {
            r.push((false, "Task '"@ + id + "' has no dependencies (orphan)"@, seq![id]))
        } else {
            r
        }
    }
}

/// The error for a dependency end that names no task.
pub open spec fn missing_end_issue(ids: Seq<String>, end: Seq<char>) -> Seq<
    (bool, Seq<char>, Seq<Seq<char>>),
> {
    if in_ids(ids, end) {
        seq![]
    } else {
        seq![(true, "Dependency references nonexistent task: '"@ + end + "'"@, seq![end])]
    }
}

/// The errors for dependency ends that name no task, among the first `k`
/// dependencies; the predecessor of each is reported before its successor.
pub open spec fn missing_issues(ids: Seq<String>, deps: Seq<Dep>, k: int) -> Seq<
    (bool, Seq<char>, Seq<Seq<char>>),
>
    decreases k,
{
    if k <= 0 {
        seq![]
    } else {
        missing_issues(ids, deps, k - 1) + missing_end_issue(ids, deps[k - 1].predecessor@)
            + missing_end_issue(ids, deps[k - 1].successor@)
    }
}

/// Whether dependency `k` repeats the ends of an earlier one.
pub open spec fn repeats_earlier(deps: Seq<Dep>, k: int) -> bool {
    exists|j: int|
        0 <= j < k && #[trigger] deps[j].predecessor@ == deps[k].predecessor@
            && deps[j].successor@ == deps[k].successor@
}

/// The warnings for repeated dependencies among the first `k`.
pub open spec fn duplicate_issues(deps: Seq<Dep>, k: int) -> Seq<(bool, Seq<char>, Seq<Seq<char>>)>
    decreases k,
{
    if k <= 0 {
        seq![]
    } else {
        let r = duplicate_issues(deps, k - 1);
        let p = deps[k - 1].predecessor@;
        let s = deps[k - 1].successor@;
        if repeats_earlier(deps, k - 1) {
            r.push((false, "Duplicate dependency: "@ + p + " -> "@ + s, seq![p, s]))
        } else {
            r
        }
    }
}

/// The pieces of `s` in order, each only at its first occurrence.
pub open spec fn first_occurrences(s: Seq<Seq<char>>) -> Seq<Seq<char>>
    decreases s.len(),
{
    if s.len() == 0 {
        seq![]
    } else {
        let r = first_occurrences(s.drop_last());
        if r.contains(s.last()) {
            r
        } else {
            r.push(s.last())
        }
    }
}

/// `s` without leading double quotes.
pub open spec fn strip_quotes_start(s: Seq<char>) -> Seq<char>
    decreases s.len(),
{
    if s.len() > 0 && s[0] == '"' {
        strip_quotes_start(s.drop_first())
    } else {
        s
    }
}

/// `s` without trailing double quotes.
pub open spec fn strip_quotes_end(s: Seq<char>) -> Seq<char>
    decreases s.len(),
{
    if s.len() > 0 && s.last() == '"' {
        strip_quotes_end(s.drop_last())
    } else {
        s
    }
}

/// `s` without double quotes at either end (`str::trim_matches('"')`).
pub open spec fn strip_quotes(s: Seq<char>) -> Seq<char> {
    strip_quotes_end(strip_quotes_start(s))
}

/// The text between the first `[` of `raw` and the first `]` after it.
pub open spec fn bracketed(raw: Seq<char>) -> Option<Seq<char>> {
    let open = find_from(raw, seq!['['], 0);
    if open < 0 {
        None
    } else {
        let close = find_from(raw, seq![']'], open);
        if close < 0 {
            None
        } else {
            Some(raw.subrange(open + 1, close))
        }
    }
}

/// The task ids in a comma-separated list, each trimmed and unquoted,
/// keeping only ids of existing tasks, among the first `k` pieces.
pub open spec fn listed_tasks(ids: Seq<String>, pieces: Seq<Seq<char>>, k: int) -> Seq<Seq<char>>
    decreases k,
{
    if k <= 0 {
        seq![]
    } else {
        let r = listed_tasks(ids, pieces, k - 1);
        let t = strip_quotes(trim(pieces[k - 1]));
        if t.len() > 0 && in_ids(ids, t) {
            r.push(t)
        } else {
            r
        }
    }
}

/// The task ids that an engine error text names between brackets, such as
/// `"cycle [A, B, A]"`.
pub open spec fn tasks_in_error(ids: Seq<String>, raw: Seq<char>) -> Seq<Seq<char>> {
    match bracketed(raw) {
        None => seq![],
        Some(inner) => {
            let pieces = split(inner, seq![',']);
            listed_tasks(ids, pieces, pieces.len() as int)
        },
    }
}

/// The tasks left behind by peeling: on a cycle, or behind one.
pub open spec fn stuck_tasks(ids: Seq<String>, deps: Seq<Dep>) -> Seq<Seq<char>> {
    ids_where(ids, |v: int| behind_cycle_of(dep_relation(ids, deps), v), ids.len() as int)
}

/// The cycle tasks to report and, when a cycle chain is known, the chain.
pub open spec fn cycle_findings(ids: Seq<String>, deps: Seq<Dep>, probe: CycleProbe) -> (
    Seq<Seq<char>>,
    Option<Seq<Seq<char>>>,
) {
    let fallback = (stuck_tasks(ids, deps), None);
    match probe {
        CycleProbe::Found(c) => if c@.len() > 0 {
            (first_occurrences(string_views(c@)), Some(string_views(c@)))
        } else {
            fallback
        },
        CycleProbe::NotFound => fallback,
        CycleProbe::Failed(raw) => {
            let listed = tasks_in_error(ids, raw@);
            if listed.len() > 0 {
                (first_occurrences(listed), Some(listed))
            } else {
                fallback
            }
        },
    }
}

/// The error for a dependency cycle, when the plan has dependencies and
/// they form one.
pub open spec fn cycle_issues(ids: Seq<String>, deps: Seq<Dep>, probe: CycleProbe) -> Seq<
    (bool, Seq<char>, Seq<Seq<char>>),
> {
    if deps.len() > 0 && has_dep_cycle(ids, deps) {
        let (nodes, chain) = cycle_findings(ids, deps, probe);
        let msg = match chain {
            Some(c) => "Cycle detected: "@ + join(c, " -> "@),
            None => "Cycle detected involving tasks: "@ + join(nodes, ", "@),
        };
        seq![(true, msg, nodes)]
    } else {
        seq![]
    }
}

/// Every issue of a plan, in the order they are reported.
pub open spec fn plan_issues(ids: Seq<String>, deps: Seq<Dep>, probe: CycleProbe) -> Seq<
    (bool, Seq<char>, Seq<Seq<char>>),
> {
    empty_plan_issues(ids) + orphan_issues(ids, deps, ids.len() as int) + missing_issues(
        ids,
        deps,
        deps.len() as int,
    ) + duplicate_issues(deps, deps.len() as int) + cycle_issues(ids, deps, probe)
}

/// The messages of the issues that are errors (`want_errors`) or warnings.
pub open spec fn messages_of(issues: Seq<(bool, Seq<char>, Seq<Seq<char>>)>, want_errors: bool) -> Seq<
    Seq<char>,
>
    decreases issues.len(),
{
    if issues.len() == 0 {
        seq![]
    } else {
        let r = messages_of(issues.drop_last(), want_errors);
        if issues.last().0 == want_errors {
            r.push(issues.last().1)
        } else {
            r
        }
    }
}

// ---------------------------------------------------------------------------
// Finding the issues
// ---------------------------------------------------------------------------

/// Whether some dependency names `s` at either end.
pub fn is_referenced(deps: &Vec<Dep>, s: &str) -> (r: bool)
    ensures
        r == referenced(deps@, s@),
{
    let mut k: usize = 0;
    while k < deps.len()
        invariant
            k <= deps.len(),
            forall|j: int|
                #![trigger deps@[j]]
                0 <= j < k ==> (deps@[j].predecessor@ != s@ && deps@[j].successor@ != s@),
        decreases deps.len() - k,
    {
        let d = &deps[k];
        let a = crate::text::str_eq(d.predecessor.as_str(), s);
        let b = crate::text::str_eq(d.successor.as_str(), s);
        if a || b {
            return true;
        }
        assert(deps@[k as int].predecessor@ != s@ && deps@[k as int].successor@ != s@);
        k = k + 1;
    }
    false
}

fn one_task(id: &String) -> (r: Vec<String>)
    ensures
        string_views(r@) == seq![id@],
{
    let r = vec![id.clone()];
    assert(string_views(r@) =~= seq![id@]);
    r
}

fn push_issue(out: &mut Vec<Issue>, issue: Issue)
    ensures
        issue_views(final(out)@) == issue_views(old(out)@).push(issue_view(issue)),
{
    out.push(issue);
    assert(issue_views(out@) =~= issue_views(old(out)@).push(issue_view(issue)));
}

/// Appends the warning for an empty plan and those for orphan tasks.
fn push_orphans(ids: &Vec<String>, deps: &Vec<Dep>, out: &mut Vec<Issue>)
    ensures
        issue_views(final(out)@) == issue_views(old(out)@) + empty_plan_issues(ids@) + orphan_issues(
            ids@,
            deps@,
            ids.len() as int,
        ),
{
    if ids.len() == 0 {
        let none: Vec<String> = Vec::new();
        assert(string_views(none@) =~= Seq::<Seq<char>>::empty());
        push_issue(
            out,
            Issue {
                severity: IssueSeverity::Warning,
                message: String::from_str("Plan has no activities"),
                affected_tasks: none,
            },
        );
        assert(orphan_issues(ids@, deps@, 0) =~= Seq::empty());
        return ;
    }
    let ghost start = issue_views(out@);
    let mut i: usize = 0;
    while i < ids.len()
        invariant
            ids.len() > 0,
            i <= ids.len(),
            issue_views(out@) == start + orphan_issues(ids@, deps@, i as int),
        decreases ids.len() - i,
    {
        let id = &ids[i];
        if !is_referenced(deps, id.as_str()) {
            let msg = String::from_str("Task '").concat(id.as_str()).concat(
                "' has no dependencies (orphan)",
            );
            push_issue(
                out,
                Issue { severity: IssueSeverity::Warning, message: msg, affected_tasks: one_task(id) },
            );
        }
        i = i + 1;
    }
}

/// The error for one dependency end, if it names no task.
fn missing_end(ids: &Vec<String>, end: &String, out: &mut Vec<Issue>)
    ensures
        issue_views(final(out)@) == issue_views(old(out)@) + missing_end_issue(ids@, end@),
{
    match position_of(ids, end.as_str()) {
        Some(_) => {
            assert(issue_views(out@) =~= issue_views(out@) + missing_end_issue(ids@, end@));
        },
        None => {
            let msg = String::from_str("Dependency references nonexistent task: '").concat(
                end.as_str(),
            ).concat("'");
            push_issue(
                out,
                Issue { severity: IssueSeverity::Error, message: msg, affected_tasks: one_task(end) },
            );
        },
    }
}

/// Appends the errors for dependency ends that name no task.
fn push_missing(ids: &Vec<String>, deps: &Vec<Dep>, out: &mut Vec<Issue>)
    ensures
        issue_views(final(out)@) == issue_views(old(out)@) + missing_issues(
            ids@,
            deps@,
            deps.len() as int,
        ),
{
    let ghost start = issue_views(out@);
    let mut k: usize = 0;
    while k < deps.len()
        invariant
            k <= deps.len(),
            issue_views(out@) == start + missing_issues(ids@, deps@, k as int),
        decreases deps.len() - k,
    {
        missing_end(ids, &deps[k].predecessor, out);
        missing_end(ids, &deps[k].successor, out);
        assert(issue_views(out@) =~= start + missing_issues(ids@, deps@, k + 1));
        k = k + 1;
    }
}

/// Whether dependency `k` repeats the ends of an earlier one.
fn repeats_before(deps: &Vec<Dep>, k: usize) -> (r: bool)
    requires
        k < deps.len(),
    ensures
        r == repeats_earlier(deps@, k as int),
{
    let mut j: usize = 0;
    while j < k
        invariant
            k < deps.len(),
            j <= k,
            forall|i: int|
                0 <= i < j ==> !(#[trigger] deps@[i].predecessor@ == deps@[k as int].predecessor@
                    && deps@[i].successor@ == deps@[k as int].successor@),
        decreases k - j,
    {
        if deps[j].predecessor == deps[k].predecessor && deps[j].successor == deps[k].successor {
            return true;
        }
        j = j + 1;
    }
    false
}

/// Appends the warnings for repeated dependencies.
fn push_duplicates(deps: &Vec<Dep>, out: &mut Vec<Issue>)
    ensures
        issue_views(final(out)@) == issue_views(old(out)@) + duplicate_issues(deps@, deps.len() as int),
{
    let ghost start = issue_views(out@);
    let mut k: usize = 0;
    while k < deps.len()
        invariant
            k <= deps.len(),
            issue_views(out@) == start + duplicate_issues(deps@, k as int),
        decreases deps.len() - k,
    {
        if repeats_before(deps, k) {
            let p = &deps[k].predecessor;
            let s = &deps[k].successor;
            let msg = String::from_str("Duplicate dependency: ").concat(p.as_str()).concat(
                " -> ",
            ).concat(s.as_str());
            let affected = vec![p.clone(), s.clone()];
            assert(string_views(affected@) =~= seq![p@, s@]);
            push_issue(
                out,
                Issue { severity: IssueSeverity::Warning, message: msg, affected_tasks: affected },
            );
        }
        k = k + 1;
    }
}

/// Whether `s` holds an element equal to `x`.
fn contains_string(s: &Vec<String>, x: &String) -> (r: bool)
    ensures
        r == string_views(s@).contains(x@),
{
    let mut i: usize = 0;
    while i < s.len()
        invariant
            i <= s.len(),
            forall|j: int| 0 <= j < i ==> s@[j]@ != x@,
        decreases s.len() - i,
    {
        if s[i] == *x {
            assert(string_views(s@)[i as int] == x@);
            return true;
        }
        i = i + 1;
    }
    assert forall|j: int| 0 <= j < string_views(s@).len() implies string_views(s@)[j] != x@ by {
        assert(s@[j]@ != x@);
    }
    false
}

/// The elements of `s`, each only at its first occurrence.
pub fn first_occurrences_of(s: &Vec<String>) -> (r: Vec<String>)
    ensures
        string_views(r@) == first_occurrences(string_views(s@)),
{
    let mut r: Vec<String> = Vec::new();
    let mut i: usize = 0;
    while i < s.len()
        invariant
            i <= s.len(),
            string_views(r@) == first_occurrences(string_views(s@).subrange(0, i as int)),
        decreases s.len() - i,
    {
        let ghost pre = string_views(s@).subrange(0, i as int);
        let ghost next = string_views(s@).subrange(0, i + 1);
        assert(next.drop_last() =~= pre);
        if !contains_string(&r, &s[i]) {
            let ghost before = r@;
            r.push(s[i].clone());
            assert(string_views(r@) =~= string_views(before).push(s@[i as int]@));
        }
        i = i + 1;
    }
    assert(string_views(s@).subrange(0, s.len() as int) =~= string_views(s@));
    r
}

/// `s` without double quotes at either end.
pub fn strip_quotes_chars(s: &Vec<char>) -> (r: Vec<char>)
    ensures
        r@ == strip_quotes(s@),
{
    let n = s.len();
    let mut i: usize = 0;
    assert(s@.subrange(0, n as int) =~= s@);
    while i < n
        invariant
            n == s.len(),
            i <= n,
            strip_quotes_start(s@) == strip_quotes_start(s@.subrange(i as int, n as int)),
        ensures
            i <= n,
            strip_quotes_start(s@) == strip_quotes_start(s@.subrange(i as int, n as int)),
            i == n || s@[i as int] != '"',
        decreases n - i,
    {
        if s[i] != '"' {
            break;
        }
        let ghost rest = s@.subrange(i as int, n as int);
        assert(rest.drop_first() =~= s@.subrange(i + 1, n as int));
        i = i + 1;
    }
    let ghost t = s@.subrange(i as int, n as int);
    assert(strip_quotes_start(s@) == t);
    let mut j: usize = n;
    while j > i
        invariant
            n == s.len(),
            i <= j <= n,
            t == s@.subrange(i as int, n as int),
            strip_quotes_end(t) == strip_quotes_end(s@.subrange(i as int, j as int)),
        ensures
            i <= j <= n,
            strip_quotes_end(t) == strip_quotes_end(s@.subrange(i as int, j as int)),
            j == i || s@[j - 1] != '"',
        decreases j - i,
    {
        if s[j - 1] != '"' {
            break;
        }
        let ghost cur = s@.subrange(i as int, j as int);
        assert(cur.drop_last() =~= s@.subrange(i as int, j - 1));
        j = j - 1;
    }
    crate::text::slice_chars(s, i, j)
}

/// The ids of existing tasks that an engine error text lists between
/// brackets.
pub fn parse_error_task_list(ids: &Vec<String>, raw: &str) -> (r: Vec<String>)
    ensures
        string_views(r@) == tasks_in_error(ids@, raw@),
{
    let chars = chars_of(raw);
    let open_pat: Vec<char> = vec!['['];
    let close_pat: Vec<char> = vec![']'];
    assert(open_pat@ =~= seq!['[']);
    assert(close_pat@ =~= seq![']']);
    let mut r: Vec<String> = Vec::new();
    let open = match find_chars(&chars, &open_pat, 0) {
        Some(o) => o,
        None => {
            assert(string_views(r@) =~= tasks_in_error(ids@, raw@));
            return r;
        },
    };
    proof {
        crate::text::lemma_find_from_bounds(chars@, open_pat@, 0);
    }
    let close = match find_chars(&chars, &close_pat, open) {
        Some(c) => c,
        None => {
            assert(string_views(r@) =~= tasks_in_error(ids@, raw@));
            return r;
        },
    };
    proof {
        crate::text::lemma_find_from_bounds(chars@, close_pat@, open as int);
        assert(chars@.subrange(open as int, open + 1) == seq!['[']);
        assert(chars@[open as int] == '[');
        assert(chars@.subrange(close as int, close + 1) == seq![']']);
        assert(chars@[close as int] == ']');
    }
    let inner = crate::text::slice_chars(&chars, open + 1, close);
    let comma: Vec<char> = vec![','];
    assert(comma@ =~= seq![',']);
    let pieces = split_chars(&inner, &comma);
    let ghost pv = views_of(pieces@);
    let mut k: usize = 0;
    while k < pieces.len()
        invariant
            k <= pieces.len(),
            pv == views_of(pieces@),
            string_views(r@) == listed_tasks(ids@, pv, k as int),
        decreases pieces.len() - k,
    {
        let t = strip_quotes_chars(&trim_chars(&pieces[k]));
        if t.len() > 0 {
            let ts = string_of(&t);
            match position_of(ids, ts.as_str()) {
                Some(i) => {
                    let ghost before = r@;
                    r.push(ts);
                    assert(string_views(r@) =~= string_views(before).push(t@));
                },
                None => {},
            }
        }
        k = k + 1;
    }
    r
}

/// Appends the error for a dependency cycle, when there is one.
fn push_cycle(ids: &Vec<String>, deps: &Vec<Dep>, probe: CycleProbe, out: &mut Vec<Issue>)
    requires
        distinct_ids(ids@),
    ensures
        issue_views(final(out)@) == issue_views(old(out)@) + cycle_issues(ids@, deps@, probe),
{
    if deps.len() == 0 {
        assert(issue_views(out@) =~= issue_views(out@) + cycle_issues(ids@, deps@, probe));
        return ;
    }
    let stuck = cycle_members(ids, deps);
    if stuck.len() == 0 {
        assert(issue_views(out@) =~= issue_views(out@) + cycle_issues(ids@, deps@, probe));
        return ;
    }
    let ghost spec_probe = probe;
    let (nodes, chain): (Vec<String>, Option<Vec<String>>) = match probe {
        CycleProbe::Found(c) => {
            if c.len() > 0 {
                (first_occurrences_of(&c), Some(c))
            } else {
                (stuck, None)
            }
        },
        CycleProbe::NotFound => (stuck, None),
        CycleProbe::Failed(raw) => {
            let listed = parse_error_task_list(ids, raw.as_str());
            if listed.len() > 0 {
                (first_occurrences_of(&listed), Some(listed))
            } else {
                (stuck, None)
            }
        },
    };
    let ghost findings = cycle_findings(ids@, deps@, spec_probe);
    assert(string_views(nodes@) == findings.0);
    assert(match chain {
        Some(c) => findings.1 == Some(string_views(c@)),
        None => findings.1 is None,
    });
    let msg = match &chain {
        Some(c) => String::from_str("Cycle detected: ").concat(
            crate::text::join_strings(c, " -> ").as_str(),
        ),
        None => String::from_str("Cycle detected involving tasks: ").concat(
            crate::text::join_strings(&nodes, ", ").as_str(),
        ),
    };
    push_issue(out, Issue { severity: IssueSeverity::Error, message: msg, affected_tasks: nodes });
}

/// The messages of the issues of one severity, in order.
fn messages_with(issues: &Vec<Issue>, want_errors: bool) -> (r: Vec<String>)
    ensures
        string_views(r@) == messages_of(issue_views(issues@), want_errors),
{
    let mut r: Vec<String> = Vec::new();
    let mut i: usize = 0;
    while i < issues.len()
        invariant
            i <= issues.len(),
            string_views(r@) == messages_of(issue_views(issues@).subrange(0, i as int), want_errors),
        decreases issues.len() - i,
    {
        let ghost pre = issue_views(issues@).subrange(0, i as int);
        let ghost next = issue_views(issues@).subrange(0, i + 1);
        assert(next.drop_last() =~= pre);
        let is_error = match issues[i].severity {
            IssueSeverity::Error => true,
            IssueSeverity::Warning => false,
        };
        if is_error == want_errors {
            let ghost before = r@;
            r.push(issues[i].message.clone());
            assert(string_views(r@) =~= string_views(before).push(issues@[i as int].message@));
        }
        i = i + 1;
    }
    assert(issue_views(issues@).subrange(0, issues.len() as int) =~= issue_views(issues@));
    r
}

/// Whether every dependency names existing tasks at both ends.
pub open spec fn all_ends_exist(ids: Seq<String>, deps: Seq<Dep>) -> bool {
    forall|k: int|
        0 <= k < deps.len() ==> in_ids(ids, #[trigger] deps[k].predecessor@) && in_ids(
            ids,
            deps[k].successor@,
        )
}

proof fn lemma_messages_append(a: Seq<(bool, Seq<char>, Seq<Seq<char>>)>, b: Seq<(bool, Seq<char>, Seq<Seq<char>>)>, w: bool)
    ensures
        messages_of(a + b, w) == messages_of(a, w) + messages_of(b, w),
    decreases b.len(),
{
    if b.len() == 0 {
        assert(a + b =~= a);
        assert(messages_of(a, w) + messages_of(b, w) =~= messages_of(a, w));
    } else {
        lemma_messages_append(a, b.drop_last(), w);
        assert((a + b).drop_last() =~= a + b.drop_last());
        assert((a + b).last() == b.last());
        if b.last().0 == w {
            assert(messages_of(a, w) + messages_of(b, w) =~= (messages_of(a, w) + messages_of(
                b.drop_last(),
                w,
            )).push(b.last().1));
        }
    }
}

proof fn lemma_no_errors_orphans(ids: Seq<String>, deps: Seq<Dep>, k: int)
    ensures
        messages_of(orphan_issues(ids, deps, k), true).len() == 0,
    decreases k,
{
    if k > 0 {
        lemma_no_errors_orphans(ids, deps, k - 1);
        let r = orphan_issues(ids, deps, k - 1);
        let id = ids[k - 1]@;
        if !referenced(deps, id) {
            let t = (false, "Task '"@ + id + "' has no dependencies (orphan)"@, seq![id]);
            assert(r.push(t).drop_last() =~= r);
        }
    }
}

proof fn lemma_no_errors_duplicates(deps: Seq<Dep>, k: int)
    ensures
        messages_of(duplicate_issues(deps, k), true).len() == 0,
    decreases k,
{
    if k > 0 {
        lemma_no_errors_duplicates(deps, k - 1);
        let r = duplicate_issues(deps, k - 1);
        if repeats_earlier(deps, k - 1) {
            let p = deps[k - 1].predecessor@;
            let s = deps[k - 1].successor@;
            let t = (false, "Duplicate dependency: "@ + p + " -> "@ + s, seq![p, s]);
            assert(r.push(t).drop_last() =~= r);
        }
    }
}

proof fn lemma_missing_errors(ids: Seq<String>, deps: Seq<Dep>, k: int)
    requires
        0 <= k <= deps.len(),
    ensures
        messages_of(missing_issues(ids, deps, k), true).len() == 0 <==> forall|j: int|
            0 <= j < k ==> in_ids(ids, #[trigger] deps[j].predecessor@) && in_ids(
                ids,
                deps[j].successor@,
            ),
    decreases k,
{
    if k > 0 {
        lemma_missing_errors(ids, deps, k - 1);
        let a = missing_issues(ids, deps, k - 1);
        let b = missing_end_issue(ids, deps[k - 1].predecessor@);
        let c = missing_end_issue(ids, deps[k - 1].successor@);
        lemma_messages_append(a, b, true);
        lemma_messages_append(a + b, c, true);
        assert(missing_issues(ids, deps, k) == a + b + c);
        assert(messages_of(b, true).len() == 0 <==> in_ids(ids, deps[k - 1].predecessor@)) by {
            if !in_ids(ids, deps[k - 1].predecessor@) {
                assert(b.drop_last() =~= Seq::<(bool, Seq<char>, Seq<Seq<char>>)>::empty());
            }
        }
        assert(messages_of(c, true).len() == 0 <==> in_ids(ids, deps[k - 1].successor@)) by {
            if !in_ids(ids, deps[k - 1].successor@) {
                assert(c.drop_last() =~= Seq::<(bool, Seq<char>, Seq<Seq<char>>)>::empty());
            }
        }
    }
}

proof fn lemma_dep_cycle_needs_deps(ids: Seq<String>, deps: Seq<Dep>)
    requires
        deps.len() == 0,
    ensures
        !has_dep_cycle(ids, deps),
{
    if has_dep_cycle(ids, deps) {
        let rel = dep_relation(ids, deps);
        let c = choose|c: Seq<int>| crate::graph::is_cycle_of(rel, c);
        assert(rel(c.last(), c[0]));
    }
}

/// Validates a plan given by its task ids and its dependencies. `probe` is
/// what the scheduling engine's own cycle search answered; it is used only
/// when the dependencies form a cycle.
pub fn validate_plan(ids: &Vec<String>, deps: &Vec<Dep>, probe: CycleProbe) -> (r: ValidationReport)
    requires
        distinct_ids(ids@),
    ensures
        issue_views(r.issues@) == plan_issues(ids@, deps@, probe),
        string_views(r.errors@) == messages_of(plan_issues(ids@, deps@, probe), true),
        string_views(r.warnings@) == messages_of(plan_issues(ids@, deps@, probe), false),
        r.valid == (r.errors@.len() == 0),
        r.valid <==> (all_ends_exist(ids@, deps@) && !has_dep_cycle(ids@, deps@)),
        r.can_optimize == (r.valid && ids.len() > 0),
        r.task_count == ids.len(),
        r.dependency_count == deps.len(),
{
    let ghost spec_probe = probe;
    let mut issues: Vec<Issue> = Vec::new();
    push_orphans(ids, deps, &mut issues);
    push_missing(ids, deps, &mut issues);
    push_duplicates(deps, &mut issues);
    push_cycle(ids, deps, probe, &mut issues);
    let ghost all = plan_issues(ids@, deps@, spec_probe);
    assert(issue_views(issues@) =~= all);
    let errors = messages_with(&issues, true);
    let warnings = messages_with(&issues, false);
    let valid = errors.len() == 0;
    proof {
        let e0 = empty_plan_issues(ids@);
        let o = orphan_issues(ids@, deps@, ids.len() as int);
        let mi = missing_issues(ids@, deps@, deps.len() as int);
        let d = duplicate_issues(deps@, deps.len() as int);
        let c = cycle_issues(ids@, deps@, spec_probe);
        assert(all == e0 + o + mi + d + c);
        lemma_messages_append(e0, o, true);
        lemma_messages_append(e0 + o, mi, true);
        lemma_messages_append(e0 + o + mi, d, true);
        lemma_messages_append(e0 + o + mi + d, c, true);
        lemma_no_errors_orphans(ids@, deps@, ids.len() as int);
        lemma_no_errors_duplicates(deps@, deps.len() as int);
        lemma_missing_errors(ids@, deps@, deps.len() as int);
        if ids.len() == 0 {
            assert(e0.drop_last() =~= Seq::<(bool, Seq<char>, Seq<Seq<char>>)>::empty());
        }
        assert(messages_of(e0, true).len() == 0);
        if deps.len() == 0 {
            lemma_dep_cycle_needs_deps(ids@, deps@);
        }
        if deps.len() > 0 && has_dep_cycle(ids@, deps@) {
            assert(c.drop_last() =~= Seq::<(bool, Seq<char>, Seq<Seq<char>>)>::empty());
            assert(messages_of(c, true).len() == 1);
        } else {
            assert(messages_of(c, true).len() == 0);
        }
        assert(errors@.len() == string_views(errors@).len());
    }
    ValidationReport {
        valid,
        issues,
        errors,
        warnings,
        can_optimize: valid && ids.len() > 0,
        task_count: ids.len(),
        dependency_count: deps.len(),
    }
}

impl ValidationReport {
    /// The verdict as a result: an invalid plan fails with all error
    /// messages joined by `"; "`.
    pub fn verdict(&self) -> (r: Result<(), CamshaftError>)
        ensures
            self.valid ==> r is Ok,
            !self.valid ==> (r matches Err(CamshaftError::ValidationFailed(m)) && m@ == join(
                string_views(self.errors@),
                "; "@,
            )),
    {
        if self.valid {
            Ok(())
        } else {
            Err(CamshaftError::ValidationFailed(crate::text::join_strings(&self.errors, "; ")))
        }
    }
}


/// The ends of dependency `k`.
pub open spec fn ends_of(deps: Seq<Dep>, k: int) -> (Seq<char>, Seq<char>) {
    (deps[k].predecessor@, deps[k].successor@)
}

/// The distinct (predecessor, successor) pairs among the first `k`
/// dependencies.
pub open spec fn distinct_ends(deps: Seq<Dep>, k: int) -> Set<(Seq<char>, Seq<char>)> {
    Set::new(|x: (Seq<char>, Seq<char>)| exists|j: int| 0 <= j < k && #[trigger] ends_of(deps, j) == x)
}

/// The warning for a repeat of dependency `k`.
pub open spec fn duplicate_warning(deps: Seq<Dep>, k: int) -> (bool, Seq<char>, Seq<Seq<char>>) {
    let p = deps[k].predecessor@;
    let s = deps[k].successor@;
    (false, "Duplicate dependency: "@ + p + " -> "@ + s, seq![p, s])
}

proof fn lemma_duplicates_prefix(deps: Seq<Dep>, k: int)
    requires
        0 <= k <= deps.len(),
    ensures
        ({
            let d = duplicate_issues(deps, k);
            &&& distinct_ends(deps, k).finite()
            &&& d.len() + distinct_ends(deps, k).len() == k
            &&& forall|m: int| #![trigger deps[m]] 0 <= m < k && (exists|j: int|
                0 <= j < m && #[trigger] ends_of(deps, j) == ends_of(deps, m)) ==> d.contains(
                duplicate_warning(deps, m),
            )
            &&& forall|i: int| 0 <= i < d.len() ==> exists|m: int|
                0 <= m < k && (exists|j: int| 0 <= j < m && #[trigger] ends_of(deps, j) == ends_of(deps, m))
                    && #[trigger] d[i] == duplicate_warning(deps, m)
        }),
    decreases k,
{
    if k == 0 {
        assert(distinct_ends(deps, 0) =~= Set::<(Seq<char>, Seq<char>)>::empty());
    } else {
        lemma_duplicates_prefix(deps, k - 1);
        let prev = distinct_ends(deps, k - 1);
        let cur = distinct_ends(deps, k);
        let x = ends_of(deps, k - 1);
        assert(cur =~= prev.insert(x)) by {
            assert forall|y: (Seq<char>, Seq<char>)| cur.contains(y) implies prev.insert(x).contains(y) by {
                let j = choose|j: int| 0 <= j < k && #[trigger] ends_of(deps, j) == y;
                if j < k - 1 {
                    assert(prev.contains(y));
                }
            }
            assert forall|y: (Seq<char>, Seq<char>)| prev.insert(x).contains(y) implies cur.contains(y) by {
                if y == x {
                    assert(ends_of(deps, k - 1) == y);
                } else {
                    let j = choose|j: int| 0 <= j < k - 1 && #[trigger] ends_of(deps, j) == y;
                    assert(ends_of(deps, j) == y);
                }
            }
        }
        let p = duplicate_issues(deps, k - 1);
        let d = duplicate_issues(deps, k);
        let rep = exists|j: int| 0 <= j < k - 1 && #[trigger] ends_of(deps, j) == x;
        if rep {
            let j = choose|j: int| 0 <= j < k - 1 && #[trigger] ends_of(deps, j) == x;
            assert(deps[j].predecessor@ == deps[k - 1].predecessor@ && deps[j].successor@ == deps[k - 1].successor@);
            assert(repeats_earlier(deps, k - 1));
            assert(prev.contains(x));
            assert(d == p.push(duplicate_warning(deps, k - 1)));
            assert(d[p.len() as int] == duplicate_warning(deps, k - 1));
        } else {
            if repeats_earlier(deps, k - 1) {
                let j = choose|j: int|
                    0 <= j < k - 1 && #[trigger] deps[j].predecessor@ == deps[k - 1].predecessor@
                        && deps[j].successor@ == deps[k - 1].successor@;
                assert(ends_of(deps, j) == x);
            }
            assert(!prev.contains(x));
            assert(d == p);
        }
        assert forall|m: int| #![trigger deps[m]] 0 <= m < k && (exists|j: int|
            0 <= j < m && #[trigger] ends_of(deps, j) == ends_of(deps, m)) implies d.contains(
            duplicate_warning(deps, m),
        ) by {
            if m < k - 1 {
                assert(p.contains(duplicate_warning(deps, m)));
                let i = choose|i: int| 0 <= i < p.len() && p[i] == duplicate_warning(deps, m);
                assert(d[i] == p[i]);
            } else {
                let j = choose|j: int| 0 <= j < m && #[trigger] ends_of(deps, j) == ends_of(deps, m);
                assert(ends_of(deps, j) == x);
            }
        }
        assert forall|i: int| 0 <= i < d.len() implies exists|m: int|
            0 <= m < k && (exists|j: int| 0 <= j < m && #[trigger] ends_of(deps, j) == ends_of(deps, m))
                && #[trigger] d[i] == duplicate_warning(deps, m) by {
            if i < p.len() {
                assert(d[i] == p[i]);
                let m = choose|m: int|
                    0 <= m < k - 1 && (exists|j: int| 0 <= j < m && #[trigger] ends_of(deps, j) == ends_of(deps, m))
                        && #[trigger] p[i] == duplicate_warning(deps, m);
            } else {
                assert(d[i] == duplicate_warning(deps, k - 1));
                let j = choose|j: int| 0 <= j < k - 1 && #[trigger] ends_of(deps, j) == x;
                assert(ends_of(deps, j) == ends_of(deps, k - 1));
            }
        }
    }
}

proof fn lemma_messages_hold(issues: Seq<(bool, Seq<char>, Seq<Seq<char>>)>, i: int, w: bool)
    requires
        0 <= i < issues.len(),
        issues[i].0 == w,
    ensures
        messages_of(issues, w).contains(issues[i].1),
    decreases issues.len(),
{
    let r = messages_of(issues.drop_last(), w);
    if i == issues.len() - 1 {
        assert(messages_of(issues, w) == r.push(issues[i].1));
        assert(messages_of(issues, w)[r.len() as int] == issues[i].1);
    } else {
        assert(issues.drop_last()[i] == issues[i]);
        lemma_messages_hold(issues.drop_last(), i, w);
        let j = choose|j: int| 0 <= j < r.len() && r[j] == issues[i].1;
        if issues.last().0 == w {
            assert(messages_of(issues, w)[j] == r[j]);
        }
    }
}

/// Every repeated dependency is reported, wherever its first copy stands:
/// for each dependency whose predecessor and successor are those of an
/// earlier one, the validation report warns "Duplicate dependency: p -> s".
/// The duplicate warnings are exactly these, one per repeat, so there are
/// as many as there are dependencies beyond the distinct pairs.
pub proof fn lemma_every_repeat_is_reported(ids: Seq<String>, deps: Seq<Dep>, probe: CycleProbe)
    ensures
        ({
            let d = duplicate_issues(deps, deps.len() as int);
            &&& distinct_ends(deps, deps.len() as int).finite()
            &&& d.len() + distinct_ends(deps, deps.len() as int).len() == deps.len()
            &&& forall|i: int| 0 <= i < d.len() ==> exists|m: int|
                0 <= m < deps.len() && (exists|j: int| 0 <= j < m && #[trigger] ends_of(deps, j) == ends_of(deps, m))
                    && #[trigger] d[i] == duplicate_warning(deps, m)
            &&& forall|m: int| #![trigger deps[m]] 0 <= m < deps.len() && (exists|j: int|
                0 <= j < m && deps[j].predecessor@ == deps[m].predecessor@
                    && #[trigger] deps[j].successor@ == deps[m].successor@) ==> messages_of(
                plan_issues(ids, deps, probe),
                false,
            ).contains("Duplicate dependency: "@ + deps[m].predecessor@ + " -> "@ + deps[m].successor@)
        }),
{
    let n = deps.len() as int;
    lemma_duplicates_prefix(deps, n);
    let d = duplicate_issues(deps, n);
    let e0 = empty_plan_issues(ids);
    let o = orphan_issues(ids, deps, ids.len() as int);
    let mi = missing_issues(ids, deps, n);
    let c = cycle_issues(ids, deps, probe);
    let all = plan_issues(ids, deps, probe);
    assert(all == e0 + o + mi + d + c);
    assert forall|m: int| #![trigger deps[m]] 0 <= m < n && (exists|j: int|
        0 <= j < m && deps[j].predecessor@ == deps[m].predecessor@
            && #[trigger] deps[j].successor@ == deps[m].successor@) implies messages_of(all, false).contains(
        "Duplicate dependency: "@ + deps[m].predecessor@ + " -> "@ + deps[m].successor@,
    ) by {
        let j = choose|j: int|
            0 <= j < m && deps[j].predecessor@ == deps[m].predecessor@
                && #[trigger] deps[j].successor@ == deps[m].successor@;
        assert(ends_of(deps, j) == ends_of(deps, m));
        assert(d.contains(duplicate_warning(deps, m)));
        let i = choose|i: int| 0 <= i < d.len() && d[i] == duplicate_warning(deps, m);
        let before = e0 + o + mi;
        assert(all[before.len() + i] == d[i]);
        lemma_messages_hold(all, before.len() + i, false);
    }
}


/// The warning for task `id` standing alone.
pub open spec fn orphan_warning(id: Seq<char>) -> (bool, Seq<char>, Seq<Seq<char>>) {
    (false, "Task '"@ + id + "' has no dependencies (orphan)"@, seq![id])
}

proof fn lemma_orphans_prefix(ids: Seq<String>, deps: Seq<Dep>, k: int)
    requires
        0 <= k <= ids.len(),
    ensures
        ({
            let o = orphan_issues(ids, deps, k);
            &&& forall|i: int| #![trigger ids[i]] 0 <= i < k && (forall|j: int| 0 <= j < deps.len()
                ==> (#[trigger] deps[j]).predecessor@ != ids[i]@ && deps[j].successor@ != ids[i]@) ==> o.contains(
                orphan_warning(ids[i]@),
            )
            &&& forall|m: int| 0 <= m < o.len() ==> exists|i: int|
                0 <= i < k && #[trigger] o[m] == orphan_warning(ids[i]@) && forall|j: int|
                    0 <= j < deps.len() ==> (#[trigger] deps[j]).predecessor@ != ids[i]@ && deps[j].successor@
                        != ids[i]@
        }),
    decreases k,
{
    if k > 0 {
        lemma_orphans_prefix(ids, deps, k - 1);
        let p = orphan_issues(ids, deps, k - 1);
        let o = orphan_issues(ids, deps, k);
        let id = ids[k - 1]@;
        let alone = forall|j: int| 0 <= j < deps.len() ==> (#[trigger] deps[j]).predecessor@ != id
            && deps[j].successor@ != id;
        if alone {
            if referenced(deps, id) {
                let j = choose|j: int| 0 <= j < deps.len() && (#[trigger] deps[j].predecessor@ == id
                    || deps[j].successor@ == id);
                assert(deps[j].predecessor@ != id && deps[j].successor@ != id);
            }
            assert(o == p.push(orphan_warning(id)));
        } else {
            let j = choose|j: int| 0 <= j < deps.len() && !((#[trigger] deps[j]).predecessor@ != id
                && deps[j].successor@ != id);
            assert(deps[j].predecessor@ == id || deps[j].successor@ == id);
            assert(referenced(deps, id));
            assert(o == p);
        }
        assert forall|i: int| #![trigger ids[i]] 0 <= i < k && (forall|j: int| 0 <= j < deps.len()
            ==> (#[trigger] deps[j]).predecessor@ != ids[i]@ && deps[j].successor@ != ids[i]@) implies o.contains(
            orphan_warning(ids[i]@),
        ) by {
            if i < k - 1 {
                let m = choose|m: int| 0 <= m < p.len() && p[m] == orphan_warning(ids[i]@);
                assert(o[m] == p[m]);
            } else {
                assert(o[p.len() as int] == orphan_warning(ids[i]@));
            }
        }
        assert forall|m: int| 0 <= m < o.len() implies exists|i: int|
            0 <= i < k && #[trigger] o[m] == orphan_warning(ids[i]@) && forall|j: int|
                0 <= j < deps.len() ==> (#[trigger] deps[j]).predecessor@ != ids[i]@ && deps[j].successor@
                    != ids[i]@ by {
            if m < p.len() {
                assert(o[m] == p[m]);
                let i = choose|i: int|
                    0 <= i < k - 1 && #[trigger] p[m] == orphan_warning(ids[i]@) && forall|j: int|
                        0 <= j < deps.len() ==> (#[trigger] deps[j]).predecessor@ != ids[i]@
                            && deps[j].successor@ != ids[i]@;
            } else {
                assert(o[m] == orphan_warning(ids[k - 1]@));
            }
        }
    }
}

/// The validation report warns that a task stands alone exactly for the
/// tasks that no dependency names, at either end: each such task gets the
/// warning, and no other task does.
pub proof fn lemma_orphan_warnings(ids: Seq<String>, deps: Seq<Dep>, probe: CycleProbe)
    ensures
        ({
            let o = orphan_issues(ids, deps, ids.len() as int);
            &&& forall|i: int| #![trigger ids[i]] 0 <= i < ids.len() && (forall|j: int| 0 <= j < deps.len()
                ==> (#[trigger] deps[j]).predecessor@ != ids[i]@ && deps[j].successor@ != ids[i]@) ==> messages_of(
                plan_issues(ids, deps, probe),
                false,
            ).contains("Task '"@ + ids[i]@ + "' has no dependencies (orphan)"@)
            &&& forall|m: int| 0 <= m < o.len() ==> exists|i: int|
                0 <= i < ids.len() && #[trigger] o[m] == orphan_warning(ids[i]@) && forall|j: int|
                    0 <= j < deps.len() ==> (#[trigger] deps[j]).predecessor@ != ids[i]@ && deps[j].successor@
                        != ids[i]@
        }),
{
    lemma_orphans_prefix(ids, deps, ids.len() as int);
    let e0 = empty_plan_issues(ids);
    let o = orphan_issues(ids, deps, ids.len() as int);
    let all = plan_issues(ids, deps, probe);
    let rest = missing_issues(ids, deps, deps.len() as int) + duplicate_issues(deps, deps.len() as int)
        + cycle_issues(ids, deps, probe);
    assert(all =~= e0 + o + rest);
    assert forall|i: int| #![trigger ids[i]] 0 <= i < ids.len() && (forall|j: int| 0 <= j < deps.len()
        ==> (#[trigger] deps[j]).predecessor@ != ids[i]@ && deps[j].successor@ != ids[i]@) implies messages_of(
        all,
        false,
    ).contains("Task '"@ + ids[i]@ + "' has no dependencies (orphan)"@) by {
        let m = choose|m: int| 0 <= m < o.len() && o[m] == orphan_warning(ids[i]@);
        assert(all[e0.len() + m] == o[m]);
        lemma_messages_hold(all, e0.len() + m, false);
    }
}


/// Keeping first occurrences drops only repeats: the result holds each
/// piece of `s` exactly once, and nothing else.
pub proof fn lemma_first_occurrences_distinct(s: Seq<Seq<char>>)
    ensures
        first_occurrences(s).no_duplicates(),
        forall|x: Seq<char>| #[trigger] first_occurrences(s).contains(x) <==> s.contains(x),
    decreases s.len(),
{
    if s.len() > 0 {
        let init = s.drop_last();
        lemma_first_occurrences_distinct(init);
        let p = first_occurrences(init);
        let r = first_occurrences(s);
        let e = s.last();
        assert forall|x: Seq<char>| init.contains(x) implies #[trigger] s.contains(x) by {
            let i = choose|i: int| 0 <= i < init.len() && init[i] == x;
            assert(s[i] == x);
        }
        assert(s[s.len() - 1] == e);
        assert forall|x: Seq<char>| #[trigger] s.contains(x) implies init.contains(x) || x == e by {
            let i = choose|i: int| 0 <= i < s.len() && s[i] == x;
            if i < s.len() - 1 {
                assert(init[i] == x);
            }
        }
        if !p.contains(e) {
            assert(r == p.push(e));
            assert forall|x: Seq<char>| #[trigger] r.contains(x) <==> s.contains(x) by {
                if r.contains(x) {
                    let i = choose|i: int| 0 <= i < r.len() && r[i] == x;
                    if i < p.len() {
                        assert(p[i] == x);
                        assert(p.contains(x));
                    }
                }
                if p.contains(x) {
                    let i = choose|i: int| 0 <= i < p.len() && p[i] == x;
                    assert(r[i] == x);
                }
                if x == e {
                    assert(r[p.len() as int] == x);
                }
            }
            assert forall|i: int, j: int| 0 <= i < r.len() && 0 <= j < r.len() && i != j implies r[i] != r[j] by {
                if i < p.len() && j < p.len() {
                    assert(r[i] == p[i] && r[j] == p[j]);
                } else if i < p.len() {
                    assert(r[i] == p[i]);
                    assert(p.contains(p[i]));
                } else {
                    assert(r[j] == p[j]);
                    assert(p.contains(p[j]));
                }
            }
        }
    }
}

} // verus!
