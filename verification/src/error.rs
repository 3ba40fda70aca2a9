//! The planner's errors and the structured report an agent receives for one.

use vstd::prelude::*;

use crate::text::{
    chars_of, find_from, is_ws, join, lemma_find_from_bounds, matches_at, split, split_chars,
    split_from, string_of, string_views, trim, trim_chars, trim_end, trim_start, views_of,
};

verus! {

/// Everything that can go wrong in a planning command.
#[derive(Debug, Clone, PartialEq, Eq)]
pub enum CamshaftError {
    NoPlan,
    CycleDetected(String),
    TaskNotFound(String),
    DuplicateTask(String),
    InvalidDependency { predecessor: String, successor: String },
    ValidationFailed(String),
    OptimizationFailed(String),
    Serialization(String),
    Io(String),
    GanttMl(String),
    PlanAlreadyExists,
}

/// Shorthand for results whose error is a [`CamshaftError`].
pub type Result<T> = std::result::Result<T, CamshaftError>;

/// The human-readable text of an error.
pub open spec fn message_of(e: CamshaftError) -> Seq<char> {
    match e {
        CamshaftError::NoPlan => "No plan found. Run `camshaft init` first."@,
        CamshaftError::CycleDetected(s) => "Cycle detected: "@ + s@,
        CamshaftError::TaskNotFound(s) => "Task not found: "@ + s@,
        CamshaftError::DuplicateTask(s) => "Duplicate task: "@ + s@,
        CamshaftError::InvalidDependency { predecessor, successor } =>
            "Dependency references nonexistent task: "@ + predecessor@ + " -> "@ + successor@,
        CamshaftError::ValidationFailed(s) => "Validation failed: "@ + s@,
        CamshaftError::OptimizationFailed(s) => "Optimization failed: "@ + s@,
        CamshaftError::Serialization(s) => "Serialization error: "@ + s@,
        CamshaftError::Io(s) => "IO error: "@ + s@,
        CamshaftError::GanttMl(s) => "GanttML error: "@ + s@,
        CamshaftError::PlanAlreadyExists => "Plan already exists. Use --force to overwrite."@,
    }
}

/// The machine-readable tag of an error.
pub open spec fn tag_of(e: CamshaftError) -> Seq<char> {
    match e {
        CamshaftError::NoPlan => "no_plan"@,
        CamshaftError::CycleDetected(_) => "cycle_detected"@,
        CamshaftError::TaskNotFound(_) => "task_not_found"@,
        CamshaftError::DuplicateTask(_) => "duplicate_task"@,
        CamshaftError::InvalidDependency { .. } => "invalid_dependency"@,
        CamshaftError::ValidationFailed(_) => "validation_failed"@,
        CamshaftError::OptimizationFailed(_) => "optimization_failed"@,
        CamshaftError::Serialization(_) => "serialization_error"@,
        CamshaftError::Io(_) => "io_error"@,
        CamshaftError::GanttMl(_) => "gantt_ml_error"@,
        CamshaftError::PlanAlreadyExists => "plan_already_exists"@,
    }
}

/// The advice given with an error, where there is one.
pub open spec fn suggestion_of(e: CamshaftError) -> Option<Seq<char>> {
    match e {
        CamshaftError::NoPlan => Some("Run `camshaft init` to create a plan."@),
        CamshaftError::CycleDetected(_) => Some("Remove one dependency to break the cycle."@),
        CamshaftError::TaskNotFound(_) => Some(
            "Check task ID. Available tasks can be listed with `camshaft query status`."@,
        ),
        CamshaftError::DuplicateTask(_) => Some(
            "Use a different ID or remove the existing task first."@,
        ),
        CamshaftError::InvalidDependency { .. } => Some(
            "Ensure both tasks exist before adding a dependency."@,
        ),
        CamshaftError::ValidationFailed(_) => Some("Fix the reported issues and try again."@),
        CamshaftError::OptimizationFailed(_) => Some(
            "Check plan structure. Ensure no cycles and at least one task."@,
        ),
        CamshaftError::PlanAlreadyExists => Some("Use --force to overwrite."@),
        _ => None,
    }
}

/// The trimmed, non-empty pieces of a list of pieces, in order.
pub open spec fn trimmed_nonempty(parts: Seq<Seq<char>>) -> Seq<Seq<char>>
    decreases parts.len(),
{
    if parts.len() == 0 {
        seq![]
    } else {
        let rest = trimmed_nonempty(parts.drop_last());
        let t = trim(parts.last());
        if t.len() > 0 {
            rest.push(t)
        } else {
            rest
        }
    }
}

/// The members of a closed walk, each once: a last piece that repeats the
/// first closes the cycle and is left out.
pub open spec fn open_walk(pieces: Seq<Seq<char>>) -> Seq<Seq<char>> {
    if pieces.len() >= 2 && pieces.last() == pieces[0] {
        pieces.drop_last()
    } else {
        pieces
    }
}

/// The task ids named in a cycle description such as `"A -> B -> A"`: the
/// trimmed non-empty pieces between arrows, without the closing repeat of
/// the first.
pub open spec fn cycle_tasks(msg: Seq<char>) -> Seq<Seq<char>> {
    open_walk(trimmed_nonempty(split(msg, " -> "@)))
}

/// The tasks an error concerns.
pub open spec fn affected_of(e: CamshaftError) -> Seq<Seq<char>> {
    match e {
        CamshaftError::CycleDetected(msg) => cycle_tasks(msg@),
        CamshaftError::TaskNotFound(id) => seq![id@],
        CamshaftError::DuplicateTask(id) => seq![id@],
        CamshaftError::InvalidDependency { predecessor, successor } => seq![
            predecessor@,
            successor@,
        ],
        _ => seq![],
    }
}

fn lit(s: &str) -> (r: String)
    ensures
        r@ == s@,
{
    String::from_str(s)
}

fn lit_plus(s: &str, t: &String) -> (r: String)
    ensures
        r@ == s@ + t@,
{
    String::from_str(s).concat(t.as_str())
}

impl CamshaftError {
    /// The human-readable text of this error.
    pub fn message(&self) -> (m: String)
        ensures
            m@ == message_of(*self),
    {
        match self {
            CamshaftError::NoPlan => lit("No plan found. Run `camshaft init` first."),
            CamshaftError::CycleDetected(s) => lit_plus("Cycle detected: ", s),
            CamshaftError::TaskNotFound(s) => lit_plus("Task not found: ", s),
            CamshaftError::DuplicateTask(s) => lit_plus("Duplicate task: ", s),
            CamshaftError::InvalidDependency { predecessor, successor } => {
                let a = lit_plus("Dependency references nonexistent task: ", predecessor);
                let b = a.concat(" -> ");
                b.concat(successor.as_str())
            },
            CamshaftError::ValidationFailed(s) => lit_plus("Validation failed: ", s),
            CamshaftError::OptimizationFailed(s) => lit_plus("Optimization failed: ", s),
            CamshaftError::Serialization(s) => lit_plus("Serialization error: ", s),
            CamshaftError::Io(s) => lit_plus("IO error: ", s),
            CamshaftError::GanttMl(s) => lit_plus("GanttML error: ", s),
            CamshaftError::PlanAlreadyExists => lit(
                "Plan already exists. Use --force to overwrite.",
            ),
        }
    }

    /// The machine-readable tag of this error.
    pub fn tag(&self) -> (t: String)
        ensures
            t@ == tag_of(*self),
    {
        match self {
            CamshaftError::NoPlan => lit("no_plan"),
            CamshaftError::CycleDetected(_) => lit("cycle_detected"),
            CamshaftError::TaskNotFound(_) => lit("task_not_found"),
            CamshaftError::DuplicateTask(_) => lit("duplicate_task"),
            CamshaftError::InvalidDependency { .. } => lit("invalid_dependency"),
            CamshaftError::ValidationFailed(_) => lit("validation_failed"),
            CamshaftError::OptimizationFailed(_) => lit("optimization_failed"),
            CamshaftError::Serialization(_) => lit("serialization_error"),
            CamshaftError::Io(_) => lit("io_error"),
            CamshaftError::GanttMl(_) => lit("gantt_ml_error"),
            CamshaftError::PlanAlreadyExists => lit("plan_already_exists"),
        }
    }
}

/// The text of an error, as it reads inside a longer message.
pub fn format_err(e: &CamshaftError) -> (r: String)
    ensures
        r@ == message_of(*e),
{
    e.message()
}

/// The task ids of a cycle description: the pieces between `" -> "`
/// separators, trimmed, without the empty ones, and without a last piece
/// that only closes the cycle by repeating the first.
pub fn parse_cycle_tasks(msg: &str) -> (r: Vec<String>)
    ensures
        string_views(r@) == cycle_tasks(msg@),
{
    let chars = chars_of(msg);
    let arrow = chars_of(" -> ");
    proof {
        reveal_strlit(" -> ");
    }
    let parts = split_chars(&chars, &arrow);
    let ghost pv = views_of(parts@);
    let mut out: Vec<String> = Vec::new();
    let mut i: usize = 0;
    while i < parts.len()
        invariant
            i <= parts.len(),
            pv == views_of(parts@),
            string_views(out@) == trimmed_nonempty(pv.subrange(0, i as int)),
        decreases parts.len() - i,
    {
        let t = trim_chars(&parts[i]);
        let ghost before = out@;
        assert(pv.subrange(0, i + 1).drop_last() =~= pv.subrange(0, i as int));
        if t.len() > 0 {
            out.push(string_of(&t));
            assert(string_views(out@) =~= string_views(before).push(t@));
        }
        i = i + 1;
    }
    assert(pv.subrange(0, parts.len() as int) =~= pv);
    let n = out.len();
    if n >= 2 && crate::text::str_eq(out[n - 1].as_str(), out[0].as_str()) {
        let ghost before = out@;
        out.pop();
        assert(string_views(out@) =~= string_views(before).drop_last());
    }
    out
}

/// Whether `w` can stand as a task id in a cycle description: not empty
/// and without whitespace.
pub open spec fn plain_id(w: Seq<char>) -> bool {
    w.len() > 0 && forall|j: int| 0 <= j < w.len() ==> !is_ws(#[trigger] w[j])
}

proof fn lemma_find_skips(s: Seq<char>, p: Seq<char>, k: int, wl: int)
    requires
        p.len() > 0,
        0 <= k <= wl <= s.len(),
        forall|j: int| k <= j < wl ==> #[trigger] s[j] != p[0],
    ensures
        find_from(s, p, k) == find_from(s, p, wl),
    decreases wl - k,
{
    if k < wl {
        if k + p.len() <= s.len() {
            assert(s.subrange(k, k + p.len())[0] == s[k]);
            assert(!matches_at(s, p, k));
        }
        lemma_find_skips(s, p, k + 1, wl);
    }
}

proof fn lemma_find_shift(x: Seq<char>, y: Seq<char>, p: Seq<char>, k: int)
    requires
        0 <= k,
        p.len() > 0,
    ensures
        find_from(x + y, p, x.len() + k) == if find_from(y, p, k) < 0 {
            -1
        } else {
            find_from(y, p, k) + x.len()
        },
    decreases y.len() - k,
{
    let s = x + y;
    if k + p.len() <= y.len() {
        assert(s.subrange(x.len() + k, x.len() + k + p.len()) =~= y.subrange(k, k + p.len()));
        if !matches_at(y, p, k) {
            lemma_find_shift(x, y, p, k + 1);
        }
    }
}

proof fn lemma_split_shift(x: Seq<char>, y: Seq<char>, p: Seq<char>, k: int)
    requires
        0 <= k <= y.len(),
        p.len() > 0,
    ensures
        split_from(x + y, p, x.len() + k) == split_from(y, p, k),
    decreases y.len() - k,
{
    let s = x + y;
    lemma_find_shift(x, y, p, k);
    lemma_find_from_bounds(y, p, k);
    let f = find_from(y, p, k);
    if f < 0 {
        assert(s.subrange(x.len() + k, s.len() as int) =~= y.subrange(k, y.len() as int));
    } else {
        assert(s.subrange(x.len() + k, x.len() + f) =~= y.subrange(k, f));
        lemma_split_shift(x, y, p, f + p.len());
    }
}

proof fn lemma_split_word(w: Seq<char>, z: Seq<char>)
    requires
        forall|j: int| 0 <= j < w.len() ==> !is_ws(#[trigger] w[j]),
    ensures
        split_from(w + " -> "@ + z, " -> "@, 0) == seq![w] + split_from(z, " -> "@, 0),
{
    reveal_strlit(" -> ");
    let p = " -> "@;
    let s = w + p + z;
    assert(is_ws(p[0]));
    assert forall|j: int| 0 <= j < w.len() implies #[trigger] s[j] != p[0] by {
        assert(s[j] == w[j]);
    }
    lemma_find_skips(s, p, 0, w.len() as int);
    assert(s.subrange(w.len() as int, (w.len() + p.len()) as int) =~= p);
    assert(find_from(s, p, w.len() as int) == w.len());
    assert(s.subrange(0, w.len() as int) =~= w);
    lemma_split_shift(w + p, z, p, 0);
}

proof fn lemma_split_last(w: Seq<char>)
    requires
        forall|j: int| 0 <= j < w.len() ==> !is_ws(#[trigger] w[j]),
    ensures
        split_from(w, " -> "@, 0) == seq![w],
{
    reveal_strlit(" -> ");
    let p = " -> "@;
    assert(is_ws(p[0]));
    assert forall|j: int| 0 <= j < w.len() implies #[trigger] w[j] != p[0] by {}
    lemma_find_skips(w, p, 0, w.len() as int);
    assert(w.subrange(0, w.len() as int) =~= w);
}

proof fn lemma_split_join(ids: Seq<Seq<char>>, y: Seq<char>)
    requires
        ids.len() >= 1,
        forall|i: int| 0 <= i < ids.len() ==> plain_id(#[trigger] ids[i]),
    ensures
        split_from(join(ids, " -> "@) + y, " -> "@, 0) == ids.drop_last() + split_from(
            ids.last() + y,
            " -> "@,
            0,
        ),
    decreases ids.len(),
{
    let p = " -> "@;
    if ids.len() == 1 {
        assert(ids.drop_last() =~= Seq::<Seq<char>>::empty());
    } else {
        let init = ids.drop_last();
        let w = ids.last();
        assert forall|i: int| 0 <= i < init.len() implies plain_id(#[trigger] init[i]) by {
            assert(init[i] == ids[i]);
        }
        assert(join(ids, p) + y =~= join(init, p) + (p + w + y));
        lemma_split_join(init, p + w + y);
        let v = init.last();
        assert(plain_id(ids[init.len() - 1]));
        assert(v + (p + w + y) =~= v + p + (w + y));
        lemma_split_word(v, w + y);
        assert(init.drop_last() + (seq![v] + split_from(w + y, p, 0)) =~= ids.drop_last() + split_from(w + y, p, 0));
    }
}

proof fn lemma_plain_trims(ids: Seq<Seq<char>>)
    requires
        forall|i: int| 0 <= i < ids.len() ==> plain_id(#[trigger] ids[i]),
    ensures
        trimmed_nonempty(ids) == ids,
    decreases ids.len(),
{
    if ids.len() > 0 {
        let init = ids.drop_last();
        let w = ids.last();
        assert forall|i: int| 0 <= i < init.len() implies plain_id(#[trigger] init[i]) by {
            assert(init[i] == ids[i]);
        }
        lemma_plain_trims(init);
        assert(plain_id(ids[ids.len() - 1]));
        assert(!is_ws(w[0]));
        assert(trim_start(w) == w);
        assert(!is_ws(w.last()));
        assert(trim_end(w) == w);
        assert(init.push(w) =~= ids);
    }
}

/// Joining task ids with `" -> "` and reading the cycle description back
/// gives the ids again, for ids without whitespace whose last is not a
/// repeat of the first.
pub proof fn lemma_cycle_tasks_of_joined(ids: Seq<Seq<char>>)
    requires
        forall|i: int| 0 <= i < ids.len() ==> plain_id(#[trigger] ids[i]),
        !(ids.len() >= 2 && ids.last() == ids[0]),
    ensures
        cycle_tasks(join(ids, " -> "@)) == ids,
{
    reveal_strlit(" -> ");
    let p = " -> "@;
    if ids.len() == 0 {
        let e = join(ids, p);
        assert(e =~= Seq::<char>::empty());
        assert(find_from(e, p, 0) == -1);
        assert(e.subrange(0, 0) =~= e);
        assert(split(e, p) =~= seq![e]);
        assert(trim_start(e) == e);
        assert(trim_end(e) == e);
        assert(seq![e].drop_last() =~= Seq::<Seq<char>>::empty());
        assert(trimmed_nonempty(Seq::<Seq<char>>::empty()) == Seq::<Seq<char>>::empty());
        assert(trimmed_nonempty(seq![e]) =~= Seq::<Seq<char>>::empty());
        assert(cycle_tasks(join(ids, p)) =~= ids);
    } else {
        let y = Seq::<char>::empty();
        assert(join(ids, p) + y =~= join(ids, p));
        lemma_split_join(ids, y);
        assert(ids.last() + y =~= ids.last());
        assert(plain_id(ids[ids.len() - 1]));
        lemma_split_last(ids.last());
        assert(ids.drop_last() + seq![ids.last()] =~= ids);
        lemma_plain_trims(ids);
    }
}

proof fn lemma_trim_start_head(s: Seq<char>)
    ensures
        trim_start(s).len() > 0 ==> !is_ws(trim_start(s)[0]),
        trim_start(s).len() <= s.len(),
    decreases s.len(),
{
    if s.len() > 0 && is_ws(s[0]) {
        lemma_trim_start_head(s.drop_first());
    }
}

proof fn lemma_trim_end_prefix(s: Seq<char>)
    ensures
        trim_end(s).len() <= s.len(),
        trim_end(s) == s.subrange(0, trim_end(s).len() as int),
        trim_end(s).len() > 0 ==> !is_ws(trim_end(s).last()),
    decreases s.len(),
{
    if s.len() > 0 && is_ws(s.last()) {
        lemma_trim_end_prefix(s.drop_last());
        let t = trim_end(s.drop_last());
        assert(s.drop_last().subrange(0, t.len() as int) =~= s.subrange(0, t.len() as int));
    } else {
        assert(s.subrange(0, s.len() as int) =~= s);
    }
}

/// Trimming trimmed text changes nothing.
proof fn lemma_trim_trimmed(p: Seq<char>)
    ensures
        trim(trim(p)) == trim(p),
{
    let u = trim_start(p);
    let t = trim(p);
    lemma_trim_start_head(p);
    lemma_trim_end_prefix(u);
    if t.len() > 0 {
        assert(t[0] == u[0]);
        assert(trim_start(t) == t);
        assert(trim_end(t) == t);
    } else {
        assert(trim_start(t) == t);
        assert(trim_end(t) == t);
    }
}

proof fn lemma_trimmed_pieces(parts: Seq<Seq<char>>)
    ensures
        forall|i: int| 0 <= i < trimmed_nonempty(parts).len() ==> {
            let r = #[trigger] trimmed_nonempty(parts)[i];
            r.len() > 0 && trim(r) == r
        },
    decreases parts.len(),
{
    if parts.len() > 0 {
        let rest = trimmed_nonempty(parts.drop_last());
        lemma_trimmed_pieces(parts.drop_last());
        lemma_trim_trimmed(parts.last());
        let out = trimmed_nonempty(parts);
        assert forall|i: int| 0 <= i < out.len() implies {
            let r = #[trigger] out[i];
            r.len() > 0 && trim(r) == r
        } by {
            if i < rest.len() {
                assert(out[i] == rest[i]);
            } else {
                assert(out[i] == trim(parts.last()));
            }
        }
    }
}

/// Every task id read from a cycle description is non-empty and has no
/// whitespace at either end.
pub proof fn lemma_cycle_tasks_trimmed(msg: Seq<char>)
    ensures
        forall|i: int| 0 <= i < cycle_tasks(msg).len() ==> {
            let r = #[trigger] cycle_tasks(msg)[i];
            r.len() > 0 && trim(r) == r
        },
{
    let pieces = trimmed_nonempty(split(msg, " -> "@));
    lemma_trimmed_pieces(split(msg, " -> "@));
    assert forall|i: int| 0 <= i < cycle_tasks(msg).len() implies {
        let r = #[trigger] cycle_tasks(msg)[i];
        r.len() > 0 && trim(r) == r
    } by {
        assert(cycle_tasks(msg)[i] == pieces[i]);
    }
}

/// The structured report of an error: its tag, its text, the tasks it
/// concerns and advice where there is some.
#[derive(Debug, Clone)]
pub struct ErrorOutput {
    pub error: String,
    pub message: String,
    pub affected_tasks: Vec<String>,
    pub suggestion: Option<String>,
}

impl ErrorOutput {
    /// Whether this report is the one for `e`.
    pub open spec fn describes(self, e: CamshaftError) -> bool {
        &&& self.error@ == tag_of(e)
        &&& self.message@ == message_of(e)
        &&& string_views(self.affected_tasks@) == affected_of(e)
        &&& match suggestion_of(e) {
            Some(s) => self.suggestion matches Some(x) && x@ == s,
            None => self.suggestion is None,
        }
    }

    /// The report for `err`.
    pub fn from_error(err: CamshaftError) -> (out: ErrorOutput)
        ensures
            out.describes(err),
    {
        let (suggestion, affected): (Option<String>, Vec<String>) = match &err {
            CamshaftError::NoPlan => (Some(lit("Run `camshaft init` to create a plan.")), vec![]),
            CamshaftError::CycleDetected(msg) => (
                Some(lit("Remove one dependency to break the cycle.")),
                parse_cycle_tasks(msg.as_str()),
            ),
            CamshaftError::TaskNotFound(id) => (
                Some(
                    lit(
                        "Check task ID. Available tasks can be listed with `camshaft query status`.",
                    ),
                ),
                vec![id.clone()],
            ),
            CamshaftError::DuplicateTask(id) => (
                Some(lit("Use a different ID or remove the existing task first.")),
                vec![id.clone()],
            ),
            CamshaftError::InvalidDependency { predecessor, successor } => (
                Some(lit("Ensure both tasks exist before adding a dependency.")),
                vec![predecessor.clone(), successor.clone()],
            ),
            CamshaftError::ValidationFailed(_) => (
                Some(lit("Fix the reported issues and try again.")),
                vec![],
            ),
            CamshaftError::OptimizationFailed(_) => (
                Some(lit("Check plan structure. Ensure no cycles and at least one task.")),
                vec![],
            ),
            CamshaftError::PlanAlreadyExists => (Some(lit("Use --force to overwrite.")), vec![]),
            _ => (None, vec![]),
        };
        assert(string_views(affected@) =~= affected_of(err));
        ErrorOutput {
            error: err.tag(),
            message: err.message(),
            affected_tasks: affected,
            suggestion,
        }
    }
}

impl From<CamshaftError> for ErrorOutput {
    /// The report for `err`; [`ErrorOutput::from_error`] states what it holds.
    fn from(err: CamshaftError) -> (out: ErrorOutput)
        ensures
            out.describes(err),
    {
        ErrorOutput::from_error(err)
    }
}

impl vstd::std_specs::convert::FromSpecImpl<CamshaftError> for ErrorOutput {
    open spec fn obeys_from_spec() -> bool {
        false
    }

    open spec fn from_spec(v: CamshaftError) -> ErrorOutput {
        choose|o: ErrorOutput| o.describes(v)
    }
}

} // verus!
