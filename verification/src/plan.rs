//! Where the plan lives and the two planning modes.

use vstd::prelude::*;

use crate::error::CamshaftError;
use crate::text::{lowercase, str_eq, to_lowercase};

verus! {

/// The two planning horizons: hour-scale sprints and day-scale roadmaps.
#[derive(Debug, Clone, Copy, PartialEq, Eq)]
pub enum PlanMode {
    Sprint,
    Roadmap,
}

/// The name under which a mode is written and read.
pub open spec fn mode_name(m: PlanMode) -> Seq<char> {
    match m {
        PlanMode::Sprint => "sprint"@,
        PlanMode::Roadmap => "roadmap"@,
    }
}

/// The unit in which a mode measures durations.
pub open spec fn mode_unit(m: PlanMode) -> Seq<char> {
    match m {
        PlanMode::Sprint => "hours"@,
        PlanMode::Roadmap => "days"@,
    }
}

impl PlanMode {
    /// The name of this mode (`"sprint"` or `"roadmap"`).
    pub fn name(&self) -> (r: &'static str)
        ensures
            r@ == mode_name(*self),
    {
        match self {
            PlanMode::Sprint => "sprint",
            PlanMode::Roadmap => "roadmap",
        }
    }
}

/// The unit in which durations of a plan in `mode` are measured.
pub fn duration_unit(mode: &PlanMode) -> (r: &'static str)
    ensures
        r@ == mode_unit(*mode),
{
    match mode {
        PlanMode::Sprint => "hours",
        PlanMode::Roadmap => "days",
    }
}

/// The mode a bulk plan names, read case-insensitively: the mode whose name
/// is the lowercase form of `s`, else a validation error quoting that form.
pub fn parse_plan_mode(s: &str) -> (r: Result<PlanMode, CamshaftError>)
    ensures
        lowercase(s@) == "sprint"@ ==> r == Ok::<PlanMode, CamshaftError>(PlanMode::Sprint),
        lowercase(s@) == "roadmap"@ ==> r == Ok::<PlanMode, CamshaftError>(PlanMode::Roadmap),
        lowercase(s@) != "sprint"@ && lowercase(s@) != "roadmap"@ ==> (r matches Err(
            CamshaftError::ValidationFailed(m),
        ) && m@ == "Unknown mode: "@ + lowercase(s@) + ". Use 'sprint' or 'roadmap'."@),
{
    let l = to_lowercase(s);
    proof {
        reveal_strlit("sprint");
        reveal_strlit("roadmap");
        assert("sprint"@.len() != "roadmap"@.len());
    }
    if str_eq(l.as_str(), "sprint") {
        Ok(PlanMode::Sprint)
    } else if str_eq(l.as_str(), "roadmap") {
        Ok(PlanMode::Roadmap)
    } else {
        let m = String::from_str("Unknown mode: ").concat(l.as_str()).concat(
            ". Use 'sprint' or 'roadmap'.",
        );
        Err(CamshaftError::ValidationFailed(m))
    }
}

/// The directory that holds the plan.
pub fn plan_dir() -> (r: String)
    ensures
        r@ == ".camshaft"@,
{
    String::from_str(".camshaft")
}

/// The plan file, inside [`plan_dir`].
pub fn plan_path() -> (r: String)
    ensures
        r@ == ".camshaft/plan.json"@,
{
    String::from_str(".camshaft/plan.json")
}

/// `Path::exists` on `path`: whether something is on disk there now. What it
/// answers depends on the file system, so nothing is stated of it.
#[verifier::external_body]
fn path_exists(path: &str) -> bool {
    std::path::Path::new(path).exists()
}

/// Whether a plan file is present in the working directory. The answer
/// comes from the file system at the time of the call.
pub fn plan_exists() -> bool {
    let p = plan_path();
    path_exists(p.as_str())
}

} // verus!
