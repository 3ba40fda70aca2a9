//! Reading git history for velocity estimates: commits and active days from
//! `git log --format=%H|%ci|%an|%s`, and files per commit, bucketed by size,
//! from `git log --numstat --format=__COMMIT__%H`.

use vstd::prelude::*;

use crate::text::{
    chars_of, chars_eq, is_ws, lines, lines_of, split, split_chars, trim, trim_chars, trim_start,
    views_of,
};
use crate::validate::first_occurrences;

verus! {

/// What the numstat reader carries from line to line.
pub struct NumstatState {
    pub total: nat,
    pub small: nat,
    pub medium: nat,
    pub large: nat,
    pub current: nat,
    pub in_commit: bool,
}

/// The size buckets after closing a commit of `files` counted files: none
/// for an empty commit, small for one or two files, medium up to seven,
/// large beyond.
pub open spec fn flush(st: NumstatState) -> NumstatState {
    if st.current == 0 {
        st
    } else if st.current <= 2 {
        NumstatState { small: st.small + 1, ..st }
    } else if st.current <= 7 {
        NumstatState { medium: st.medium + 1, ..st }
    } else {
        NumstatState { large: st.large + 1, ..st }
    }
}

/// Whether `line` opens a commit section.
pub open spec fn is_commit_marker(line: Seq<char>) -> bool {
    line.len() >= 10 && line.subrange(0, 10) == "__COMMIT__"@
}

/// Whether `line` is a numstat line that counts as a changed file: after
/// trimming it has at least three tab-separated fields, the first is not
/// `-` (a binary file) and the third, the path, is not empty.
pub open spec fn counts_as_file(line: Seq<char>) -> bool {
    let t = trim(line);
    let f = split(t, seq!['\t']);
    t.len() > 0 && f.len() >= 3 && f[0] != "-"@ && f[2].len() > 0
}

/// The reader's state after one more line.
pub open spec fn numstat_step(st: NumstatState, line: Seq<char>) -> NumstatState {
    if is_commit_marker(line) {
        let closed = if st.in_commit { flush(st) } else { st };
        NumstatState { current: 0, in_commit: true, ..closed }
    } else if counts_as_file(line) {
        NumstatState { current: st.current + 1, total: st.total + 1, ..st }
    } else {
        st
    }
}

/// The reader's state after the first `k` lines.
pub open spec fn numstat_after(ls: Seq<Seq<char>>, k: int) -> NumstatState
    decreases k,
{
    if k <= 0 {
        NumstatState { total: 0, small: 0, medium: 0, large: 0, current: 0, in_commit: false }
    } else {
        numstat_step(numstat_after(ls, k - 1), ls[k - 1])
    }
}

/// The counts of a numstat listing: changed files in all, and commits with
/// a small, medium and large number of changed files.
pub open spec fn numstat_counts(output: Seq<char>) -> (nat, nat, nat, nat) {
    let ls = lines(output);
    let st = numstat_after(ls, ls.len() as int);
    let fin = if st.in_commit { flush(st) } else { st };
    (fin.total, fin.small, fin.medium, fin.large)
}

proof fn lemma_numstat_bounded(ls: Seq<Seq<char>>, k: int)
    requires
        0 <= k,
    ensures
        numstat_after(ls, k).total <= k,
        numstat_after(ls, k).current <= k,
        numstat_after(ls, k).small + numstat_after(ls, k).medium + numstat_after(ls, k).large + (
        if numstat_after(ls, k).in_commit {
            1int
        } else {
            0int
        }) <= k,
    decreases k,
{
    if k > 0 {
        lemma_numstat_bounded(ls, k - 1);
    }
}

fn starts_with_marker(line: &Vec<char>) -> (r: bool)
    ensures
        r == is_commit_marker(line@),
{
    let marker = chars_of("__COMMIT__");
    proof {
        reveal_strlit("__COMMIT__");
    }
    if line.len() < 10 {
        return false;
    }
    let head = crate::text::slice_chars(line, 0, 10);
    chars_eq(&head, &marker)
}

fn counts_file(line: &Vec<char>) -> (r: bool)
    ensures
        r == counts_as_file(line@),
{
    let t = trim_chars(line);
    if t.len() == 0 {
        return false;
    }
    let tab: Vec<char> = vec!['\t'];
    assert(tab@ =~= seq!['\t']);
    let f = split_chars(&t, &tab);
    assert(views_of(f@).len() == f@.len());
    if f.len() < 3 {
        return false;
    }
    let dash: Vec<char> = vec!['-'];
    proof {
        reveal_strlit("-");
    }
    assert(dash@ =~= "-"@);
    assert(views_of(f@)[0] == f@[0]@);
    assert(views_of(f@)[2] == f@[2]@);
    !chars_eq(&f[0], &dash) && f[2].len() > 0
}

/// The counts of a numstat listing: `(total_files, small, medium, large)`.
/// Each line `added<TAB>removed<TAB>path` counts as one changed file, except
/// binary files (`-` added); commits open at `__COMMIT__` lines and are
/// bucketed by their number of changed files (1-2 small, 3-7 medium, 8 or
/// more large; commits without changed files are not bucketed).
pub fn parse_numstat(output: &str) -> (r: (usize, usize, usize, usize))
    ensures
        (r.0 as nat, r.1 as nat, r.2 as nat, r.3 as nat) == numstat_counts(output@),
{
    let chars = chars_of(output);
    let ls = lines_of(&chars);
    let ghost lv = views_of(ls@);
    let mut total: usize = 0;
    let mut small: usize = 0;
    let mut medium: usize = 0;
    let mut large: usize = 0;
    let mut current: usize = 0;
    let mut in_commit = false;
    let mut k: usize = 0;
    while k < ls.len()
        invariant
            k <= ls.len(),
            lv == views_of(ls@),
            lv == lines(output@),
            numstat_after(lv, k as int) == (NumstatState {
                total: total as nat,
                small: small as nat,
                medium: medium as nat,
                large: large as nat,
                current: current as nat,
                in_commit,
            }),
        decreases ls.len() - k,
    {
        proof {
            lemma_numstat_bounded(lv, k as int);
        }
        let line = &ls[k];
        assert(lv[k as int] == line@);
        if starts_with_marker(line) {
            if in_commit {
                if current == 0 {
                } else if current <= 2 {
                    small = small + 1;
                } else if current <= 7 {
                    medium = medium + 1;
                } else {
                    large = large + 1;
                }
            }
            current = 0;
            in_commit = true;
        } else if counts_file(line) {
            current = current + 1;
            total = total + 1;
        }
        k = k + 1;
    }
    proof {
        lemma_numstat_bounded(lv, k as int);
    }
    if in_commit {
        if current == 0 {
        } else if current <= 2 {
            small = small + 1;
        } else if current <= 7 {
            medium = medium + 1;
        } else {
            large = large + 1;
        }
    }
    (total, small, medium, large)
}

/// How many of the first `k` lines `ls` open a commit section.
pub open spec fn markers_before(ls: Seq<Seq<char>>, k: int) -> nat
    decreases k,
{
    if k <= 0 {
        0
    } else {
        markers_before(ls, k - 1) + if is_commit_marker(ls[k - 1]) {
            1nat
        } else {
            0nat
        }
    }
}

/// How many commit sections a numstat listing opens.
pub open spec fn commit_count(output: Seq<char>) -> nat {
    let ls = lines(output);
    markers_before(ls, ls.len() as int)
}

proof fn lemma_buckets_within(ls: Seq<Seq<char>>, k: int)
    requires
        0 <= k,
    ensures
        ({
            let st = numstat_after(ls, k);
            &&& st.small + st.medium + st.large + (if st.in_commit {
                1int
            } else {
                0int
            }) <= markers_before(ls, k)
            &&& st.small + st.medium + st.large + st.current <= st.total
        }),
    decreases k,
{
    if k > 0 {
        lemma_buckets_within(ls, k - 1);
    }
}

/// A numstat listing puts no more commits into the size buckets than it
/// has commit sections, nor more than it has changed files: each bucketed
/// commit is a section with at least one counted file.
pub proof fn lemma_numstat_buckets_bounded(output: Seq<char>)
    ensures
        numstat_counts(output).1 + numstat_counts(output).2 + numstat_counts(output).3
            <= commit_count(output),
        numstat_counts(output).1 + numstat_counts(output).2 + numstat_counts(output).3
            <= numstat_counts(output).0,
{
    let ls = lines(output);
    lemma_buckets_within(ls, ls.len() as int);
}

/// How many of the first `k` lines `ls` count as changed files.
pub open spec fn file_lines(ls: Seq<Seq<char>>, k: int) -> nat
    decreases k,
{
    if k <= 0 {
        0
    } else {
        file_lines(ls, k - 1) + if !is_commit_marker(ls[k - 1]) && counts_as_file(ls[k - 1]) {
            1nat
        } else {
            0nat
        }
    }
}

/// How many commit sections among the first `k` lines `ls` have at least
/// one changed file, where `has` tells whether the lines from `k` on, up to
/// the next `__COMMIT__` line, hold one. Read from the back: a section
/// opened at line `j` counts once exactly when a counted file follows it
/// before the next section opens.
pub open spec fn sections_with_files(ls: Seq<Seq<char>>, k: int, has: bool) -> nat
    decreases k,
{
    if k <= 0 {
        0
    } else if is_commit_marker(ls[k - 1]) {
        (if has {
            1nat
        } else {
            0nat
        }) + sections_with_files(ls, k - 1, false)
    } else {
        sections_with_files(ls, k - 1, has || counts_as_file(ls[k - 1]))
    }
}

proof fn lemma_numstat_state(ls: Seq<Seq<char>>, k: int, has: bool)
    requires
        0 <= k <= ls.len(),
    ensures
        ({
            let st = numstat_after(ls, k);
            &&& st.total == file_lines(ls, k)
            &&& sections_with_files(ls, k, has) == st.small + st.medium + st.large + if st.in_commit && (
            st.current > 0 || has) {
                1int
            } else {
                0int
            }
        }),
    decreases k,
{
    if k > 0 {
        let line = ls[k - 1];
        if is_commit_marker(line) {
            lemma_numstat_state(ls, k - 1, false);
        } else {
            lemma_numstat_state(ls, k - 1, has || counts_as_file(line));
        }
        lemma_numstat_state(ls, k - 1, has);
    }
}

/// The counts of a numstat listing, line by line: the changed files are
/// exactly the lines that count as files, and every commit section with at
/// least one changed file lands in exactly one size bucket, while sections
/// without one land in none.
pub proof fn lemma_numstat_counts_lines_and_sections(output: Seq<char>)
    ensures
        numstat_counts(output).0 == file_lines(lines(output), lines(output).len() as int),
        numstat_counts(output).1 + numstat_counts(output).2 + numstat_counts(output).3
            == sections_with_files(lines(output), lines(output).len() as int, false),
{
    let ls = lines(output);
    lemma_numstat_state(ls, ls.len() as int, false);
}

// ---------------------------------------------------------------------------
// Commits and active days
// ---------------------------------------------------------------------------

/// The first `k` of the lines `ls` that are not blank.
pub open spec fn nonblank(ls: Seq<Seq<char>>, k: int) -> Seq<Seq<char>>
    decreases k,
{
    if k <= 0 {
        seq![]
    } else {
        let r = nonblank(ls, k - 1);
        if trim(ls[k - 1]).len() > 0 {
            r.push(ls[k - 1])
        } else {
            r
        }
    }
}

/// The lines of a commit listing that are not blank: one per commit.
pub open spec fn commit_lines(log: Seq<char>) -> Seq<Seq<char>> {
    nonblank(lines(log), lines(log).len() as int)
}

/// The first whitespace-separated word of `s`, if it has one.
pub open spec fn first_word(s: Seq<char>) -> Option<Seq<char>> {
    let t = trim_start(s);
    if t.len() == 0 {
        None
    } else if exists|k: int| 0 < k < t.len() && is_ws(t[k]) {
        let end = choose|k: int| 0 < k < t.len() && is_ws(t[k]) && forall|j: int| 0 <= j < k ==> !is_ws(t[j]);
        Some(t.subrange(0, end))
    } else {
        Some(t)
    }
}

/// The day a commit line names: the first word of its second `|` field.
pub open spec fn commit_day(line: Seq<char>) -> Option<Seq<char>> {
    let f = split(line, seq!['|']);
    if f.len() >= 2 {
        first_word(f[1])
    } else {
        None
    }
}

/// The days named by the first `k` lines, in order, with repeats.
pub open spec fn days_named(ls: Seq<Seq<char>>, k: int) -> Seq<Seq<char>>
    decreases k,
{
    if k <= 0 {
        seq![]
    } else {
        let r = days_named(ls, k - 1);
        match commit_day(ls[k - 1]) {
            Some(d) => r.push(d),
            None => r,
        }
    }
}

/// The first whitespace-separated word of `s`.
fn first_word_of(s: &Vec<char>) -> (r: Option<Vec<char>>)
    ensures
        match r {
            Some(w) => first_word(s@) == Some(w@),
            None => first_word(s@) is None,
        },
{
    let n = s.len();
    let mut i: usize = 0;
    assert(s@.subrange(0, n as int) =~= s@);
    while i < n
        invariant
            n == s.len(),
            i <= n,
            trim_start(s@) == trim_start(s@.subrange(i as int, n as int)),
        ensures
            i <= n,
            trim_start(s@) == trim_start(s@.subrange(i as int, n as int)),
            i == n || !is_ws(s@[i as int]),
        decreases n - i,
    {
        if !crate::text::is_whitespace(s[i]) {
            break;
        }
        let ghost rest = s@.subrange(i as int, n as int);
        assert(rest.drop_first() =~= s@.subrange(i + 1, n as int));
        i = i + 1;
    }
    let ghost t = s@.subrange(i as int, n as int);
    assert(trim_start(s@) == t);
    if i == n {
        return None;
    }
    let mut j: usize = i + 1;
    while j < n
        invariant
            n == s.len(),
            i < j <= n,
            forall|x: int| i <= x < j ==> !is_ws(#[trigger] s@[x]),
        ensures
            i < j <= n,
            forall|x: int| i <= x < j ==> !is_ws(#[trigger] s@[x]),
            j == n || is_ws(s@[j as int]),
        decreases n - j,
    {
        if crate::text::is_whitespace(s[j]) {
            break;
        }
        j = j + 1;
    }
    let w = crate::text::slice_chars(s, i, j);
    proof {
        let end = (j - i) as int;
        assert forall|x: int| 0 <= x < end implies !is_ws(t[x]) by {
            assert(t[x] == s@[i + x]);
        }
        if j < n {
            assert(t[end] == s@[j as int]);
            let chosen = choose|k: int| 0 < k < t.len() && is_ws(t[k]) && forall|x: int| 0 <= x < k ==> !is_ws(t[x]);
            assert(chosen == end) by {
                if chosen < end {
                    assert(!is_ws(t[chosen]));
                } else if chosen > end {
                    assert(!is_ws(t[end]));
                }
            }
            assert(t.subrange(0, end) =~= w@);
        } else {
            assert forall|k: int| 0 < k < t.len() implies !is_ws(t[k]) by {
                assert(t[k] == s@[i + k]);
            }
            assert(t =~= w@);
        }
    }
    Some(w)
}

/// The number of commits in a `git log --format=%H|%ci|%an|%s` listing (its
/// non-blank lines) and the number of distinct days they were made on (the
/// date part of the second `|` field).
pub fn commit_activity(log: &str) -> (r: (usize, usize))
    ensures
        r.0 == commit_lines(log@).len(),
        r.1 == first_occurrences(days_named(commit_lines(log@), commit_lines(log@).len() as int)).len(),
{
    let chars = chars_of(log);
    let ls = lines_of(&chars);
    let ghost lv = views_of(ls@);
    let bar: Vec<char> = vec!['|'];
    assert(bar@ =~= seq!['|']);
    let mut commits: usize = 0;
    let mut days: Vec<String> = Vec::new();
    let ghost kept: Seq<Seq<char>> = seq![];
    let mut k: usize = 0;
    while k < ls.len()
        invariant
            k <= ls.len(),
            lv == views_of(ls@),
            lv == lines(log@),
            bar@ == seq!['|'],
            kept == nonblank(lv, k as int),
            commits as int == kept.len(),
            commits <= k,
            crate::text::string_views(days@) == days_named(kept, kept.len() as int),
        decreases ls.len() - k,
    {
        let line = &ls[k];
        assert(lv[k as int] == line@);
        let t = trim_chars(line);
        if t.len() > 0 {
            let ghost before = kept;
            proof {
                kept = kept.push(line@);
                assert(kept.drop_last() =~= before);
                assert(days_named(kept, kept.len() - 1) == days_named(before, before.len() as int)) by {
                    lemma_days_named_prefix(kept, before, before.len() as int);
                }
            }
            commits = commits + 1;
            let f = split_chars(line, &bar);
            assert(views_of(f@).len() == f@.len());
            if f.len() >= 2 {
                assert(views_of(f@)[1] == f@[1]@);
                match first_word_of(&f[1]) {
                    Some(w) => {
                        let ghost dbefore = days@;
                        days.push(crate::text::string_of(&w));
                        assert(crate::text::string_views(days@) =~= crate::text::string_views(dbefore).push(w@));
                    },
                    None => {},
                }
            }
        }
        k = k + 1;
    }
    let distinct = crate::validate::first_occurrences_of(&days);
    proof {
        assert(distinct@.len() == crate::text::string_views(distinct@).len());
    }
    (commits, distinct.len())
}

proof fn lemma_days_named_prefix(a: Seq<Seq<char>>, b: Seq<Seq<char>>, k: int)
    requires
        0 <= k <= b.len(),
        k <= a.len(),
        forall|i: int| 0 <= i < k ==> a[i] == b[i],
    ensures
        days_named(a, k) == days_named(b, k),
    decreases k,
{
    if k > 0 {
        lemma_days_named_prefix(a, b, k - 1);
    }
}

} // verus!
