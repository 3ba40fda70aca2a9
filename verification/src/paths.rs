//! Checks on the relative file paths the planner reads and writes: a path
//! must stay below the working directory.

use vstd::prelude::*;

use crate::error::CamshaftError;
use crate::text::{chars_of, chars_eq, split, split_chars, views_of};

verus! {

/// Whether one of the components of `p` is `..`, as `Path::components`
/// reports `Component::ParentDir` on Unix: a piece between slashes that is
/// exactly `..`.
pub open spec fn has_parent_dir(p: Seq<char>) -> bool {
    exists|i: int| 0 <= i < split(p, seq!['/']).len() && #[trigger] split(p, seq!['/'])[i] == ".."@
}

/// Whether `p` is absolute, as `Path::is_absolute` decides on Unix: it
/// starts at the root.
pub open spec fn is_absolute(p: Seq<char>) -> bool {
    p.len() > 0 && p[0] == '/'
}

/// Whether `path` has a `..` component.
pub fn has_parent_component(path: &str) -> (r: bool)
    ensures
        r == has_parent_dir(path@),
{
    let chars = chars_of(path);
    let slash: Vec<char> = vec!['/'];
    assert(slash@ =~= seq!['/']);
    let parts = split_chars(&chars, &slash);
    let dots: Vec<char> = vec!['.', '.'];
    proof {
        reveal_strlit("..");
    }
    assert(dots@ =~= ".."@);
    let ghost pv = views_of(parts@);
    let mut i: usize = 0;
    while i < parts.len()
        invariant
            i <= parts.len(),
            pv == views_of(parts@),
            pv == split(path@, seq!['/']),
            dots@ == ".."@,
            forall|j: int| 0 <= j < i ==> pv[j] != ".."@,
        decreases parts.len() - i,
    {
        if chars_eq(&parts[i], &dots) {
            assert(pv[i as int] == ".."@);
            return true;
        }
        i = i + 1;
    }
    false
}

/// Whether `path` is absolute.
pub fn is_absolute_path(path: &str) -> (r: bool)
    ensures
        r == is_absolute(path@),
{
    let chars = chars_of(path);
    chars.len() > 0 && chars[0] == '/'
}

/// The error for a path with a `..` component, for a path of the given kind.
pub open spec fn parent_dir_message(label: Seq<char>) -> Seq<char> {
    label + " path must not contain '..' components."@
}

/// The error for an absolute path, for a path of the given kind.
pub open spec fn absolute_message(label: Seq<char>) -> Seq<char> {
    label + " path must be relative, not absolute."@
}

/// The message with which a path of the given kind is refused, if it is:
/// a `..` component is reported first, then an absolute path.
pub open spec fn relative_path_refusal(p: Seq<char>, label: Seq<char>) -> Option<Seq<char>> {
    if has_parent_dir(p) {
        Some(parent_dir_message(label))
    } else if is_absolute(p) {
        Some(absolute_message(label))
    } else {
        None
    }
}

/// The message with which a baseline path is refused, if it is: here an
/// absolute path is reported first.
pub open spec fn baseline_path_refusal(p: Seq<char>) -> Option<Seq<char>> {
    if is_absolute(p) {
        Some(absolute_message("Baseline"@))
    } else if has_parent_dir(p) {
        Some(parent_dir_message("Baseline"@))
    } else {
        None
    }
}

/// Whether `r` is the verdict given by `refusal`.
pub open spec fn is_verdict(r: Result<(), CamshaftError>, refusal: Option<Seq<char>>) -> bool {
    match refusal {
        None => r is Ok,
        Some(msg) => (r matches Err(CamshaftError::ValidationFailed(m)) && m@ == msg),
    }
}

/// Accepts `path` when it is relative and has no `..` component. `label`
/// names the kind of path in the message (`"Export"`, `"Import"`, `"Bulk"`,
/// `"Output"`, `"Repo"`).
pub fn check_relative_path(path: &str, label: &str) -> (r: Result<(), CamshaftError>)
    ensures
        is_verdict(r, relative_path_refusal(path@, label@)),
{
    if has_parent_component(path) {
        let m = String::from_str(label).concat(" path must not contain '..' components.");
        return Err(CamshaftError::ValidationFailed(m));
    }
    if is_absolute_path(path) {
        let m = String::from_str(label).concat(" path must be relative, not absolute.");
        return Err(CamshaftError::ValidationFailed(m));
    }
    Ok(())
}

/// Accepts a repository path for the velocity analysis.
pub fn validate_repo_path(repo_path: &str) -> (r: Result<(), CamshaftError>)
    ensures
        is_verdict(r, relative_path_refusal(repo_path@, "Repo"@)),
{
    check_relative_path(repo_path, "Repo")
}

/// Accepts a baseline plan path for a diff.
pub fn validate_baseline_path(path: &str) -> (r: Result<(), CamshaftError>)
    ensures
        is_verdict(r, baseline_path_refusal(path@)),
{
    if is_absolute_path(path) {
        let m = String::from_str("Baseline").concat(" path must be relative, not absolute.");
        return Err(CamshaftError::ValidationFailed(m));
    }
    if has_parent_component(path) {
        let m = String::from_str("Baseline").concat(" path must not contain '..' components.");
        return Err(CamshaftError::ValidationFailed(m));
    }
    Ok(())
}

} // verus!
