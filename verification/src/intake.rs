//! The checks a command makes before it touches a plan: overwriting, file
//! sizes, the format of a bulk file, the id and start date of a new plan,
//! and the arguments that cannot be empty.

use vstd::prelude::*;

use crate::dates::{parse_start_date, ymd_parse, CalendarDate};
use crate::error::CamshaftError;
use crate::text::lowercase;

verus! {

/// A plan may be written when none exists or when overwriting was asked
/// for; else `PlanAlreadyExists`.
pub fn check_overwrite(plan_present: bool, force: bool) -> (r: Result<(), CamshaftError>)
    ensures
        plan_present && !force ==> r == Err::<(), CamshaftError>(CamshaftError::PlanAlreadyExists),
        !(plan_present && !force) ==> r is Ok,
{
    if plan_present && !force {
        Err(CamshaftError::PlanAlreadyExists)
    } else {
        Ok(())
    }
}

/// The files a command reads, each with its size limit.
#[derive(Debug, Clone, Copy, PartialEq, Eq)]
pub enum InputFile {
    Plan,
    Import,
    Bulk,
}

/// The size limit of a file, in bytes: 50 MB for plans and imports,
/// 10 MB for bulk files.
pub open spec fn size_limit(kind: InputFile) -> u64 {
    match kind {
        InputFile::Plan => 52428800,
        InputFile::Import => 52428800,
        InputFile::Bulk => 10485760,
    }
}

/// The message for a file over its size limit.
pub open spec fn too_large_message(kind: InputFile) -> Seq<char> {
    match kind {
        InputFile::Plan => "Plan file exceeds maximum size of 50 MB."@,
        InputFile::Import => "Import file exceeds maximum size of 50 MB."@,
        InputFile::Bulk => "Bulk file exceeds maximum size of 10 MB."@,
    }
}

/// Accepts a file of `len` bytes when it is within its limit.
pub fn check_file_size(len: u64, kind: InputFile) -> (r: Result<(), CamshaftError>)
    ensures
        len <= size_limit(kind) ==> r is Ok,
        len > size_limit(kind) ==> (r matches Err(CamshaftError::ValidationFailed(m)) && m@
            == too_large_message(kind)),
{
    let (limit, msg) = match kind {
        InputFile::Plan => (52428800u64, "Plan file exceeds maximum size of 50 MB."),
        InputFile::Import => (52428800u64, "Import file exceeds maximum size of 50 MB."),
        InputFile::Bulk => (10485760u64, "Bulk file exceeds maximum size of 10 MB."),
    };
    if len > limit {
        Err(CamshaftError::ValidationFailed(String::from_str(msg)))
    } else {
        Ok(())
    }
}

/// The error for an input file that does not exist: a missing plan is
/// `NoPlan`, a missing import or bulk file an I/O error that names it.
pub fn missing_input_file(kind: InputFile, file: &str) -> (r: CamshaftError)
    ensures
        kind == InputFile::Plan ==> r == CamshaftError::NoPlan,
        kind == InputFile::Import ==> (r matches CamshaftError::Io(m) && m@ == "Import file does not exist: "@ + file@),
        kind == InputFile::Bulk ==> (r matches CamshaftError::Io(m) && m@ == "Bulk file does not exist: "@ + file@),
{
    match kind {
        InputFile::Plan => CamshaftError::NoPlan,
        InputFile::Import => CamshaftError::Io(String::from_str("Import file does not exist: ").concat(file)),
        InputFile::Bulk => CamshaftError::Io(String::from_str("Bulk file does not exist: ").concat(file)),
    }
}

// ---------------------------------------------------------------------------
// The format of a bulk file
// ---------------------------------------------------------------------------

/// What `Path::extension` gives for a path, as text.
pub uninterp spec fn path_extension(p: Seq<char>) -> Option<Seq<char>>;

/// `std::path::Path::extension`, read back as text (a `&str` path is valid
/// UTF-8, so its extension is too). Its result is a function of the path
/// alone; the contract names it.
#[verifier::external_body]
fn file_extension(path: &str) -> (r: Option<String>)
    ensures
        match r {
            Some(e) => path_extension(path@) == Some(e@),
            None => path_extension(path@) is None,
        },
{
    std::path::Path::new(path).extension().and_then(|e| e.to_str()).map(|e| e.to_string())
}

/// How a bulk file is read.
#[derive(Debug, Clone, Copy, PartialEq, Eq)]
pub enum BulkFormat {
    Yaml,
    Json,
    /// JSON is tried first, then YAML.
    Either,
}

/// The format a bulk file's extension names, case aside: `yaml` and `yml`
/// are YAML, `json` is JSON, anything else (or none) is tried both ways.
pub open spec fn format_for(ext: Option<Seq<char>>) -> BulkFormat {
    match ext {
        Some(e) => {
            let l = lowercase(e);
            if l == "yaml"@ || l == "yml"@ {
                BulkFormat::Yaml
            } else if l == "json"@ {
                BulkFormat::Json
            } else {
                BulkFormat::Either
            }
        },
        None => BulkFormat::Either,
    }
}

/// The format of the bulk file at `path`, from its extension.
pub fn bulk_format(path: &str) -> (r: BulkFormat)
    ensures
        r == format_for(path_extension(path@)),
{
    match file_extension(path) {
        None => BulkFormat::Either,
        Some(e) => {
            let l = crate::text::to_lowercase(e.as_str());
            if crate::text::str_eq(l.as_str(), "yaml") || crate::text::str_eq(l.as_str(), "yml") {
                BulkFormat::Yaml
            } else if crate::text::str_eq(l.as_str(), "json") {
                BulkFormat::Json
            } else {
                BulkFormat::Either
            }
        },
    }
}

// ---------------------------------------------------------------------------
// A new plan
// ---------------------------------------------------------------------------

/// Whether `c` is a lowercase hexadecimal digit.
pub open spec fn is_lower_hex(c: char) -> bool {
    ('0' <= c && c <= '9') || ('a' <= c && c <= 'f')
}

/// Whether `s` is a UUID in its hyphenated lowercase text form.
pub open spec fn hyphenated_uuid(s: Seq<char>) -> bool {
    &&& s.len() == 36
    &&& forall|i: int|
        0 <= i < 36 ==> if i == 8 || i == 13 || i == 18 || i == 23 {
            #[trigger] s[i] == '-'
        } else {
            is_lower_hex(s[i])
        }
}

/// `uuid::Uuid::new_v4()`, written with `to_string`. The UUID is random;
/// what holds of every outcome is its text form: 36 characters, lowercase
/// hexadecimal digits with hyphens at positions 8, 13, 18 and 23.
#[verifier::external_body]
fn random_uuid_text() -> (r: String)
    ensures
        hyphenated_uuid(r@),
{
    uuid::Uuid::new_v4().to_string()
}

/// The plan id taken from a UUID's text: its first eight characters.
pub fn plan_id_of(uuid_text: &str) -> (r: String)
    requires
        hyphenated_uuid(uuid_text@),
    ensures
        r@ == uuid_text@.subrange(0, 8),
        forall|i: int| 0 <= i < 8 ==> is_lower_hex(#[trigger] r@[i]),
{
    let u = crate::text::chars_of(uuid_text);
    let head = crate::text::slice_chars(&u, 0, 8);
    assert forall|i: int| 0 <= i < 8 implies is_lower_hex(#[trigger] head@[i]) by {
        assert(head@[i] == u@[i]);
    }
    crate::text::string_of(&head)
}

/// Whether `s` has the form of a plan id: eight lowercase hexadecimal
/// digits.
pub open spec fn is_plan_id(s: Seq<char>) -> bool {
    s.len() == 8 && forall|i: int| 0 <= i < 8 ==> is_lower_hex(#[trigger] s[i])
}

/// A fresh id for a new plan: the first eight characters of a random UUID
/// drawn for it, so eight lowercase hexadecimal digits.
pub fn new_plan_id() -> (r: String)
    ensures
        is_plan_id(r@),
{
    let u = random_uuid_text();
    plan_id_of(u.as_str())
}

/// The id and start date of a plan `init` creates.
#[derive(Debug, Clone)]
pub struct NewPlan {
    pub id: String,
    pub start: Option<CalendarDate>,
}

/// What `init` decides before it creates a plan: an existing plan is kept
/// unless overwriting was asked for, then the start date (if given) must be
/// a `YYYY-MM-DD` date. The new plan gets a fresh id.
pub fn init_plan(start: Option<&str>, plan_present: bool, force: bool) -> (r: Result<NewPlan, CamshaftError>)
    ensures
        plan_present && !force ==> r == Err::<NewPlan, CamshaftError>(CamshaftError::PlanAlreadyExists),
        !(plan_present && !force) ==> match start {
            None => (r matches Ok(p) && p.start is None && is_plan_id(p.id@)),
            Some(s) => match ymd_parse(s@) {
                Ok(t) => (r matches Ok(p) && (p.start matches Some(d) && (d.year, d.month, d.day)
                    == t) && is_plan_id(p.id@)),
                Err(e) => (r matches Err(CamshaftError::ValidationFailed(m)) && m@ == "Invalid date: "@
                    + e),
            },
        },
{
    check_overwrite(plan_present, force)?;
    let id = new_plan_id();
    let date = match start {
        None => None,
        Some(s) => Some(parse_start_date(s)?),
    };
    Ok(NewPlan { id, start: date })
}

// ---------------------------------------------------------------------------
// Arguments
// ---------------------------------------------------------------------------

/// What the `template` command was asked to do.
#[derive(Debug, Clone, Copy, PartialEq, Eq)]
pub enum TemplateRequest {
    List,
    Create,
}

/// Reads the `template` command's arguments: `--list` lists; otherwise a
/// template name and then a plan name are required.
pub fn template_request(list: bool, template: &str, name: &str) -> (r: Result<TemplateRequest, CamshaftError>)
    ensures
        list ==> r == Ok::<TemplateRequest, CamshaftError>(TemplateRequest::List),
        !list && template@.len() == 0 ==> (r matches Err(CamshaftError::ValidationFailed(m)) && m@
            == "Template name required. Pass a template name or --list to see options."@),
        !list && template@.len() > 0 && name@.len() == 0 ==> (r matches Err(
            CamshaftError::ValidationFailed(m),
        ) && m@ == "Plan name required. Pass --name <plan name>."@),
        !list && template@.len() > 0 && name@.len() > 0 ==> r == Ok::<TemplateRequest, CamshaftError>(
            TemplateRequest::Create,
        ),
{
    if list {
        Ok(TemplateRequest::List)
    } else if crate::text::chars_of(template).len() == 0 {
        Err(
            CamshaftError::ValidationFailed(
                String::from_str(
                    "Template name required. Pass a template name or --list to see options.",
                ),
            ),
        )
    } else if crate::text::chars_of(name).len() == 0 {
        Err(CamshaftError::ValidationFailed(String::from_str("Plan name required. Pass --name <plan name>.")))
    } else {
        Ok(TemplateRequest::Create)
    }
}

/// A simulation needs at least one iteration.
pub fn check_iterations(iterations: usize) -> (r: Result<(), CamshaftError>)
    ensures
        iterations > 0 ==> r is Ok,
        iterations == 0 ==> (r matches Err(CamshaftError::ValidationFailed(m)) && m@
            == "iterations must be > 0"@),
{
    if iterations == 0 {
        Err(CamshaftError::ValidationFailed(String::from_str("iterations must be > 0")))
    } else {
        Ok(())
    }
}

/// The commands that need a plan with tasks.
#[derive(Debug, Clone, Copy, PartialEq, Eq)]
pub enum NeedsTasks {
    Optimize,
    EarnedValue,
    RiskAnalysis,
}

/// Accepts a plan with `activities` tasks for the given command; an empty
/// plan is an optimization error for the optimizer and a validation error
/// for the others.
pub fn require_tasks(activities: usize, command: NeedsTasks) -> (r: Result<(), CamshaftError>)
    ensures
        activities > 0 ==> r is Ok,
        activities == 0 ==> match command {
            NeedsTasks::Optimize => (r matches Err(CamshaftError::OptimizationFailed(m)) && m@
                == "No activities in plan. Add tasks before optimizing."@),
            NeedsTasks::EarnedValue => (r matches Err(CamshaftError::ValidationFailed(m)) && m@
                == "No activities in plan. Add tasks before running EVM."@),
            NeedsTasks::RiskAnalysis => (r matches Err(CamshaftError::ValidationFailed(m)) && m@
                == "No activities in plan. Add tasks before running risk analysis."@),
        },
{
    if activities > 0 {
        return Ok(());
    }
    match command {
        NeedsTasks::Optimize => Err(
            CamshaftError::OptimizationFailed(
                String::from_str("No activities in plan. Add tasks before optimizing."),
            ),
        ),
        NeedsTasks::EarnedValue => Err(
            CamshaftError::ValidationFailed(
                String::from_str("No activities in plan. Add tasks before running EVM."),
            ),
        ),
        NeedsTasks::RiskAnalysis => Err(
            CamshaftError::ValidationFailed(
                String::from_str("No activities in plan. Add tasks before running risk analysis."),
            ),
        ),
    }
}

} // verus!
