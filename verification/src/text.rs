//! Character-level text handling shared by the planner: conversion between
//! `String` and `Vec<char>`, whitespace trimming, splitting on a pattern,
//! line splitting, joining, decimal formatting and lexicographic order.
//!
//! Every operation is specified over `Seq<char>`, the view of `str` and
//! `String`.

use vstd::prelude::*;

verus! {

// ---------------------------------------------------------------------------
// Specifications
// ---------------------------------------------------------------------------

/// Unicode `White_Space` property, the definition `char::is_whitespace` uses.
pub open spec fn is_ws(c: char) -> bool {
    let x = c as u32;
    ||| 0x9 <= x <= 0xd
    ||| x == 0x20
    ||| x == 0x85
    ||| x == 0xa0
    ||| x == 0x1680
    ||| 0x2000 <= x <= 0x200a
    ||| x == 0x2028
    ||| x == 0x2029
    ||| x == 0x202f
    ||| x == 0x205f
    ||| x == 0x3000
}

/// `s` with its leading whitespace removed.
pub open spec fn trim_start(s: Seq<char>) -> Seq<char>
    decreases s.len(),
{
    if s.len() > 0 && is_ws(s[0]) {
        trim_start(s.drop_first())
    } else {
        s
    }
}

/// `s` with its trailing whitespace removed.
pub open spec fn trim_end(s: Seq<char>) -> Seq<char>
    decreases s.len(),
{
    if s.len() > 0 && is_ws(s.last()) {
        trim_end(s.drop_last())
    } else {
        s
    }
}

/// `s` with whitespace removed at both ends (what `str::trim` returns).
pub open spec fn trim(s: Seq<char>) -> Seq<char> {
    trim_end(trim_start(s))
}

/// Whether `p` occurs in `s` at position `k`.
pub open spec fn matches_at(s: Seq<char>, p: Seq<char>, k: int) -> bool {
    &&& 0 <= k
    &&& k + p.len() <= s.len()
    &&& s.subrange(k, k + p.len()) == p
}

/// The first position `>= k` at which `p` occurs in `s`, or `-1`.
pub open spec fn find_from(s: Seq<char>, p: Seq<char>, k: int) -> int
    decreases s.len() - k,
{
    if k < 0 || k + p.len() > s.len() {
        -1
    } else if p.len() == 0 || matches_at(s, p, k) {
        k
    } else {
        find_from(s, p, k + 1)
    }
}

/// The pieces of `s` from position `start` on, cut at each non-overlapping
/// occurrence of the non-empty pattern `p`, scanning left to right.
pub open spec fn split_from(s: Seq<char>, p: Seq<char>, start: int) -> Seq<Seq<char>>
    decreases s.len() - start,
{
    if p.len() == 0 || start < 0 || start > s.len() {
        seq![]
    } else {
        let k = find_from(s, p, start);
        if k < 0 {
            seq![s.subrange(start, s.len() as int)]
        } else {
            proof {
                lemma_find_from_bounds(s, p, start);
            }
            seq![s.subrange(start, k)] + split_from(s, p, k + p.len())
        }
    }
}

/// What `str::split` yields for a non-empty pattern `p`.
pub open spec fn split(s: Seq<char>, p: Seq<char>) -> Seq<Seq<char>> {
    split_from(s, p, 0)
}

/// `s` without a trailing carriage return.
pub open spec fn strip_cr(s: Seq<char>) -> Seq<char> {
    if s.len() > 0 && s.last() == '\r' {
        s.drop_last()
    } else {
        s
    }
}

/// What `str::lines` yields: the pieces between line feeds, a `"\r\n"`
/// ending counting as one line ending, and no empty piece after a final
/// line feed.
pub open spec fn lines(s: Seq<char>) -> Seq<Seq<char>> {
    let parts = split(s, seq!['\n']);
    let n = parts.len();
    let full = Seq::new((n - 1) as nat, |i: int| strip_cr(parts[i]));
    if n == 0 {
        seq![]
    } else if parts[n - 1].len() == 0 {
        full
    } else {
        full.push(parts[n - 1])
    }
}

/// The elements of `parts` with `sep` between each two neighbours.
pub open spec fn join(parts: Seq<Seq<char>>, sep: Seq<char>) -> Seq<char>
    decreases parts.len(),
{
    if parts.len() == 0 {
        seq![]
    } else if parts.len() == 1 {
        parts[0]
    } else {
        join(parts.drop_last(), sep) + sep + parts.last()
    }
}

/// The decimal digit for `d < 10`.
pub open spec fn digit(d: nat) -> char {
    if d == 0 { '0' }
    else if d == 1 { '1' }
    else if d == 2 { '2' }
    else if d == 3 { '3' }
    else if d == 4 { '4' }
    else if d == 5 { '5' }
    else if d == 6 { '6' }
    else if d == 7 { '7' }
    else if d == 8 { '8' }
    else { '9' }
}

/// The decimal representation of `n`, without leading zeros.
pub open spec fn decimal(n: nat) -> Seq<char>
    decreases n,
{
    if n < 10 {
        seq![digit(n)]
    } else {
        decimal(n / 10).push(digit(n % 10))
    }
}

/// Strict lexicographic order on character sequences. It is the order of
/// `str`: UTF-8 keeps the order of code points, so comparing the bytes and
/// comparing the characters agree.
pub open spec fn lex_lt(a: Seq<char>, b: Seq<char>) -> bool
    decreases a.len(),
{
    if a.len() == 0 {
        b.len() > 0
    } else if b.len() == 0 {
        false
    } else if a[0] != b[0] {
        a[0] < b[0]
    } else {
        lex_lt(a.drop_first(), b.drop_first())
    }
}

/// The views of a vector of character vectors.
pub open spec fn views_of(v: Seq<Vec<char>>) -> Seq<Seq<char>> {
    v.map_values(|x: Vec<char>| x@)
}

/// The views of a vector of strings.
pub open spec fn string_views(v: Seq<String>) -> Seq<Seq<char>> {
    v.map_values(|x: String| x@)
}

// ---------------------------------------------------------------------------
// Lemmas
// ---------------------------------------------------------------------------

pub proof fn lemma_find_from_bounds(s: Seq<char>, p: Seq<char>, k: int)
    ensures
        find_from(s, p, k) == -1 || (k <= find_from(s, p, k) && matches_at(
            s,
            p,
            find_from(s, p, k),
        )),
    decreases s.len() - k,
{
    if k < 0 || k + p.len() > s.len() {
    } else if p.len() == 0 {
        assert(s.subrange(k, k + p.len()) =~= p);
    } else if matches_at(s, p, k) {
    } else {
        lemma_find_from_bounds(s, p, k + 1);
    }
}

pub proof fn lemma_lex_irreflexive(a: Seq<char>)
    ensures
        !lex_lt(a, a),
    decreases a.len(),
{
    if a.len() > 0 {
        lemma_lex_irreflexive(a.drop_first());
    }
}

pub proof fn lemma_lex_total(a: Seq<char>, b: Seq<char>)
    ensures
        a != b ==> (lex_lt(a, b) || lex_lt(b, a)),
        !(lex_lt(a, b) && lex_lt(b, a)),
    decreases a.len(),
{
    if a.len() > 0 && b.len() > 0 && a[0] == b[0] {
        lemma_lex_total(a.drop_first(), b.drop_first());
        if a.drop_first() == b.drop_first() {
            assert(a =~= seq![a[0]] + a.drop_first());
            assert(b =~= seq![b[0]] + b.drop_first());
        }
    } else if a.len() == 0 && b.len() == 0 {
        assert(a =~= b);
    }
}

pub proof fn lemma_lex_transitive(a: Seq<char>, b: Seq<char>, c: Seq<char>)
    requires
        lex_lt(a, b),
        lex_lt(b, c),
    ensures
        lex_lt(a, c),
    decreases a.len(),
{
    if a.len() > 0 && b.len() > 0 && c.len() > 0 && a[0] == b[0] && b[0] == c[0] {
        lemma_lex_transitive(a.drop_first(), b.drop_first(), c.drop_first());
    }
}

// ---------------------------------------------------------------------------
// Executable operations
// ---------------------------------------------------------------------------

/// The characters of `s`.
pub fn chars_of(s: &str) -> (v: Vec<char>)
    ensures
        v@ == s@,
{
    let mut v: Vec<char> = Vec::new();
    for c in it: s.chars()
        invariant
            v@ == it.seq().take(it.index() as int),
    {
        v.push(c);
    }
    v
}

/// The string made of the characters of `v` (`String`'s `FromIterator<&char>`,
/// which appends each character in turn).
#[verifier::external_body]
pub(crate) fn string_of(v: &Vec<char>) -> (s: String)
    ensures
        s@ == v@,
{
    v.iter().collect::<String>()
}

/// A copy of `s[from..to]`.
pub fn slice_chars(s: &Vec<char>, from: usize, to: usize) -> (r: Vec<char>)
    requires
        from <= to <= s.len(),
    ensures
        r@ == s@.subrange(from as int, to as int),
{
    let mut r: Vec<char> = Vec::new();
    let mut i = from;
    while i < to
        invariant
            from <= i <= to <= s.len(),
            r@ == s@.subrange(from as int, i as int),
        decreases to - i,
    {
        r.push(s[i]);
        i = i + 1;
        assert(r@ =~= s@.subrange(from as int, i as int));
    }
    r
}

/// `a` followed by `b`.
pub fn concat_chars(a: &Vec<char>, b: &Vec<char>) -> (r: Vec<char>)
    ensures
        r@ == a@ + b@,
{
    let mut r = a.clone();
    assert(r@ =~= a@);
    let mut i: usize = 0;
    while i < b.len()
        invariant
            i <= b.len(),
            r@ == a@ + b@.subrange(0, i as int),
        decreases b.len() - i,
    {
        r.push(b[i]);
        i = i + 1;
        assert(r@ =~= a@ + b@.subrange(0, i as int));
    }
    assert(b@.subrange(0, b.len() as int) =~= b@);
    r
}

/// Whether two character vectors hold the same characters.
pub fn chars_eq(a: &Vec<char>, b: &Vec<char>) -> (r: bool)
    ensures
        r == (a@ == b@),
{
    if a.len() != b.len() {
        return false;
    }
    let mut i: usize = 0;
    while i < a.len()
        invariant
            a.len() == b.len(),
            i <= a.len(),
            forall|j: int| 0 <= j < i ==> a@[j] == b@[j],
        decreases a.len() - i,
    {
        if a[i] != b[i] {
            return false;
        }
        i = i + 1;
    }
    assert(a@ =~= b@);
    true
}

/// Whether two strings are equal.
pub fn str_eq(a: &str, b: &str) -> (r: bool)
    ensures
        r == (a@ == b@),
{
    let x = chars_of(a);
    let y = chars_of(b);
    chars_eq(&x, &y)
}

/// Whether `c` is Unicode whitespace.
pub fn is_whitespace(c: char) -> (r: bool)
    ensures
        r == is_ws(c),
{
    let x = c as u32;
    (0x9 <= x && x <= 0xd) || x == 0x20 || x == 0x85 || x == 0xa0 || x == 0x1680 || (0x2000
        <= x && x <= 0x200a) || x == 0x2028 || x == 0x2029 || x == 0x202f || x == 0x205f || x
        == 0x3000
}

/// `s` without leading and trailing whitespace.
pub fn trim_chars(s: &Vec<char>) -> (r: Vec<char>)
    ensures
        r@ == trim(s@),
{
    let n = s.len();
    let mut i: usize = 0;
    assert(s@.subrange(0, n as int) =~= s@);
    while i < n
        invariant
            n == s.len(),
            i <= n,
            trim_start(s@) == trim_start(s@.subrange(i as int, n as int)),
        ensures
            i <= n,
            trim_start(s@) == trim_start(s@.subrange(i as int, n as int)),
            i == n || !is_ws(s@[i as int]),
        decreases n - i,
    {
        if !is_whitespace(s[i]) {
            break;
        }
        let ghost rest = s@.subrange(i as int, n as int);
        assert(rest.drop_first() =~= s@.subrange(i + 1, n as int));
        i = i + 1;
    }
    let ghost t = s@.subrange(i as int, n as int);
    assert(trim_start(s@) == t);
    let mut j: usize = n;
    while j > i
        invariant
            n == s.len(),
            i <= j <= n,
            t == s@.subrange(i as int, n as int),
            trim_end(t) == trim_end(s@.subrange(i as int, j as int)),
        ensures
            i <= j <= n,
            trim_end(t) == trim_end(s@.subrange(i as int, j as int)),
            j == i || !is_ws(s@[j - 1]),
        decreases j - i,
    {
        if !is_whitespace(s[j - 1]) {
            break;
        }
        let ghost cur = s@.subrange(i as int, j as int);
        assert(cur.drop_last() =~= s@.subrange(i as int, j - 1));
        j = j - 1;
    }
    slice_chars(s, i, j)
}

/// Whether `p` occurs in `s` at position `k`.
pub fn occurs_at(s: &Vec<char>, p: &Vec<char>, k: usize) -> (r: bool)
    ensures
        r == matches_at(s@, p@, k as int),
{
    if k > s.len() || p.len() > s.len() - k {
        return false;
    }
    let mut i: usize = 0;
    while i < p.len()
        invariant
            k + p.len() <= s.len(),
            i <= p.len(),
            forall|j: int| 0 <= j < i ==> s@[k + j] == p@[j],
        decreases p.len() - i,
    {
        if s[k + i] != p[i] {
            assert(s@.subrange(k as int, k + p.len())[i as int] != p@[i as int]);
            return false;
        }
        i = i + 1;
    }
    assert(s@.subrange(k as int, k + p.len()) =~= p@);
    true
}

/// The first position `>= from` at which `p` occurs in `s`.
pub fn find_chars(s: &Vec<char>, p: &Vec<char>, from: usize) -> (r: Option<usize>)
    requires
        p.len() > 0,
    ensures
        match r {
            Some(k) => k as int == find_from(s@, p@, from as int),
            None => find_from(s@, p@, from as int) == -1,
        },
{
    let mut k = from;
    while k <= s.len() && p.len() <= s.len() - k
        invariant
            from <= k,
            p.len() > 0,
            find_from(s@, p@, from as int) == find_from(s@, p@, k as int),
        decreases s.len() - k,
    {
        if occurs_at(s, p, k) {
            return Some(k);
        }
        k = k + 1;
    }
    None
}

/// The pieces of `s` cut at each occurrence of the non-empty pattern `p`.
pub fn split_chars(s: &Vec<char>, p: &Vec<char>) -> (r: Vec<Vec<char>>)
    requires
        p.len() > 0,
    ensures
        views_of(r@) == split(s@, p@),
{
    let mut out: Vec<Vec<char>> = Vec::new();
    let mut start: usize = 0;
    loop
        invariant
            p.len() > 0,
            start <= s.len(),
            views_of(out@) + split_from(s@, p@, start as int) == split_from(s@, p@, 0),
        decreases s.len() - start,
    {
        let found = find_chars(s, p, start);
        match found {
            None => {
                let piece = slice_chars(s, start, s.len());
                let ghost before = out@;
                out.push(piece);
                assert(views_of(out@) =~= views_of(before).push(piece@));
                assert(split_from(s@, p@, start as int) =~= seq![piece@]);
                assert(views_of(out@) =~= views_of(before) + split_from(s@, p@, start as int));
                return out;
            },
            Some(k) => {
                proof {
                    lemma_find_from_bounds(s@, p@, start as int);
                }
                let piece = slice_chars(s, start, k);
                let ghost before = out@;
                out.push(piece);
                assert(views_of(out@) =~= views_of(before).push(piece@));
                let ghost rest = split_from(s@, p@, k + p.len());
                assert(split_from(s@, p@, start as int) == seq![piece@] + rest);
                assert(views_of(before) + (seq![piece@] + rest) =~= views_of(out@) + rest);
                start = k + p.len();
            },
        }
    }
}

/// The lines of `s`, as `str::lines` yields them.
pub fn lines_of(s: &Vec<char>) -> (r: Vec<Vec<char>>)
    ensures
        views_of(r@) == lines(s@),
{
    let nl: Vec<char> = vec!['\n'];
    assert(nl@ =~= seq!['\n']);
    let parts = split_chars(s, &nl);
    let ghost pv = views_of(parts@);
    let n = parts.len();
    let mut out: Vec<Vec<char>> = Vec::new();
    if n == 0 {
        assert(views_of(out@) =~= lines(s@));
        return out;
    }
    let mut i: usize = 0;
    while i + 1 < n
        invariant
            n == parts.len(),
            pv == views_of(parts@),
            n > 0,
            i < n,
            views_of(out@) == Seq::new(i as nat, |j: int| strip_cr(pv[j])),
        decreases n - i,
    {
        let piece = &parts[i];
        let m = piece.len();
        let stripped = if m > 0 && piece[m - 1] == '\r' {
            slice_chars(piece, 0, m - 1)
        } else {
            piece.clone()
        };
        proof {
            if m > 0 && piece@[m - 1] == '\r' {
                assert(piece@.subrange(0, m - 1) =~= piece@.drop_last());
            }
        }
        let ghost before = out@;
        out.push(stripped);
        assert(views_of(out@) =~= views_of(before).push(stripped@));
        assert(views_of(out@) =~= Seq::new((i + 1) as nat, |j: int| strip_cr(pv[j])));
        i = i + 1;
    }
    if parts[n - 1].len() > 0 {
        let last = parts[n - 1].clone();
        let ghost before = out@;
        out.push(last);
        assert(views_of(out@) =~= views_of(before).push(last@));
    }
    assert(views_of(out@) =~= lines(s@));
    out
}

/// The elements of `parts` with `sep` between neighbours.
pub fn join_chars(parts: &Vec<Vec<char>>, sep: &Vec<char>) -> (r: Vec<char>)
    ensures
        r@ == join(views_of(parts@), sep@),
{
    let mut r: Vec<char> = Vec::new();
    let mut i: usize = 0;
    while i < parts.len()
        invariant
            i <= parts.len(),
            r@ == join(views_of(parts@).subrange(0, i as int), sep@),
        decreases parts.len() - i,
    {
        let ghost prefix = views_of(parts@).subrange(0, i as int);
        let ghost next = views_of(parts@).subrange(0, i + 1);
        assert(next.drop_last() =~= prefix);
        if i == 0 {
            r = parts[0].clone();
            assert(next =~= seq![parts@[0]@]);
        } else {
            let with_sep = concat_chars(&r, sep);
            r = concat_chars(&with_sep, &parts[i]);
        }
        i = i + 1;
    }
    assert(views_of(parts@).subrange(0, parts.len() as int) =~= views_of(parts@));
    r
}

/// The decimal representation of `n`.
pub fn decimal_chars(n: usize) -> (r: Vec<char>)
    ensures
        r@ == decimal(n as nat),
    decreases n,
{
    let d = n % 10;
    let c = if d == 0 { '0' }
        else if d == 1 { '1' }
        else if d == 2 { '2' }
        else if d == 3 { '3' }
        else if d == 4 { '4' }
        else if d == 5 { '5' }
        else if d == 6 { '6' }
        else if d == 7 { '7' }
        else if d == 8 { '8' }
        else { '9' };
    if n < 10 {
        vec![c]
    } else {
        let mut r = decimal_chars(n / 10);
        r.push(c);
        r
    }
}

/// Whether `a` orders strictly before `b`.
pub fn lex_less(a: &Vec<char>, b: &Vec<char>) -> (r: bool)
    ensures
        r == lex_lt(a@, b@),
{
    let mut i: usize = 0;
    assert(a@.subrange(0, a.len() as int) =~= a@);
    assert(b@.subrange(0, b.len() as int) =~= b@);
    while i < a.len() && i < b.len()
        invariant
            i <= a.len(),
            i <= b.len(),
            lex_lt(a@, b@) == lex_lt(a@.subrange(i as int, a.len() as int), b@.subrange(
                i as int,
                b.len() as int,
            )),
        decreases a.len() - i,
    {
        let ghost sa = a@.subrange(i as int, a.len() as int);
        let ghost sb = b@.subrange(i as int, b.len() as int);
        if a[i] != b[i] {
            return a[i] < b[i];
        }
        assert(sa.drop_first() =~= a@.subrange(i + 1, a.len() as int));
        assert(sb.drop_first() =~= b@.subrange(i + 1, b.len() as int));
        i = i + 1;
    }
    i < b.len()
}

/// Whether `v` holds a string equal to `x`.
pub fn contains_str(v: &Vec<String>, x: &str) -> (r: bool)
    ensures
        r == string_views(v@).contains(x@),
{
    let mut i: usize = 0;
    while i < v.len()
        invariant
            i <= v.len(),
            forall|j: int| 0 <= j < i ==> v@[j]@ != x@,
        decreases v.len() - i,
    {
        if str_eq(v[i].as_str(), x) {
            assert(string_views(v@)[i as int] == x@);
            return true;
        }
        i = i + 1;
    }
    assert forall|j: int| 0 <= j < string_views(v@).len() implies string_views(v@)[j] != x@ by {
        assert(v@[j]@ != x@);
    }
    false
}

/// The elements of `v` with `sep` between neighbours.
pub fn join_strings(v: &Vec<String>, sep: &str) -> (r: String)
    ensures
        r@ == join(string_views(v@), sep@),
{
    let mut parts: Vec<Vec<char>> = Vec::new();
    let mut i: usize = 0;
    while i < v.len()
        invariant
            i <= v.len(),
            views_of(parts@) == string_views(v@).subrange(0, i as int),
        decreases v.len() - i,
    {
        let c = chars_of(v[i].as_str());
        let ghost before = parts@;
        parts.push(c);
        assert(views_of(parts@) =~= views_of(before).push(c@));
        assert(string_views(v@).subrange(0, i + 1) =~= string_views(v@).subrange(0, i as int).push(
            v@[i as int]@,
        ));
        i = i + 1;
    }
    assert(string_views(v@).subrange(0, v.len() as int) =~= string_views(v@));
    let sep_chars = chars_of(sep);
    string_of(&join_chars(&parts, &sep_chars))
}

/// What `str::to_lowercase` returns for `s`: the Unicode lowercase mapping
/// of each character, which may change the number of characters.
pub uninterp spec fn lowercase(s: Seq<char>) -> Seq<char>;

/// `str::to_lowercase`. Its result is a function of `s` alone; the
/// contract names it and states nothing more of the Unicode mapping.
#[verifier::external_body]
pub(crate) fn to_lowercase(s: &str) -> (r: String)
    ensures
        r@ == lowercase(s@),
{
    s.to_lowercase()
}

} // verus!
