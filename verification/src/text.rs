//! Character-level text utilities shared by the protocol codec, the tag
//! validator and the subtitle file formats.
//!
//! Exec code works on `Vec<char>` so that every operation is verified against
//! a `Seq<char>` model; `String` values are converted at the module
//! boundaries.

use vstd::prelude::*;

verus! {

// ---------------------------------------------------------------------------
// Conversions between `String`/`&str` and `Vec<char>`
// ---------------------------------------------------------------------------

/// Collects the characters of a string slice into a vector.
#[verifier::loop_isolation(false)]
pub fn str_to_chars(s: &str) -> (v: Vec<char>)
    ensures
        v@ == s@,
{
    let n = s.unicode_len();
    let mut v: Vec<char> = Vec::new();
    let mut i: usize = 0;
    while i < n
        invariant
            i <= n,
            n == s@.len(),
            v@ == s@.take(i as int),
        decreases n - i,
    {
        let c = s.get_char(i);
        v.push(c);
        i = i + 1;
        assert(v@ =~= s@.take(i as int));
    }
    assert(v@ =~= s@);
    v
}

/// Relies on `String::push`: appends the given character to the end of the
/// string.
pub assume_specification[ String::push ](s: &mut String, ch: char)
    ensures
        final(s)@ == old(s)@.push(ch),
;

/// Builds a `String` holding exactly the given characters.
#[verifier::loop_isolation(false)]
pub fn chars_to_string(v: &Vec<char>) -> (s: String)
    ensures
        s@ == v@,
{
    let mut s = String::new();
    let mut i: usize = 0;
    while i < v.len()
        invariant
            i <= v.len(),
            s@ == v@.take(i as int),
        decreases v.len() - i,
    {
        s.push(v[i]);
        i = i + 1;
        assert(s@ =~= v@.take(i as int));
    }
    assert(s@ =~= v@);
    s
}

// ---------------------------------------------------------------------------
// Substring search
// ---------------------------------------------------------------------------

/// The pattern `pat` occurs in `s` starting at position `i`.
pub open spec fn match_at(s: Seq<char>, pat: Seq<char>, i: int) -> bool {
    &&& 0 <= i
    &&& i + pat.len() <= s.len()
    &&& s.subrange(i, i + pat.len() as int) == pat
}

/// Position of the first occurrence of `pat` in `s` at or after `from`.
pub open spec fn first_match_from(s: Seq<char>, pat: Seq<char>, from: int) -> Option<int>
    decreases s.len() - from,
{
    if pat.len() == 0 || from < 0 || from + pat.len() > s.len() {
        None
    } else if s.subrange(from, from + pat.len() as int) == pat {
        Some(from)
    } else {
        first_match_from(s, pat, from + 1)
    }
}

/// What `first_match_from` returns is the leftmost match position.
pub proof fn lemma_first_match_from(s: Seq<char>, pat: Seq<char>, from: int)
    requires
        0 <= from,
        pat.len() >= 1,
    ensures
        match first_match_from(s, pat, from) {
            Some(i) => {
                &&& from <= i
                &&& match_at(s, pat, i)
                &&& forall|j: int| from <= j < i ==> !match_at(s, pat, j)
            },
            None => forall|j: int| from <= j ==> !match_at(s, pat, j),
        },
    decreases s.len() - from,
{
    if pat.len() == 0 || from + pat.len() > s.len() {
    } else if s.subrange(from, from + pat.len() as int) == pat {
    } else {
        lemma_first_match_from(s, pat, from + 1);
    }
}

/// Compares `pat` against `s` at position `i`.
#[verifier::loop_isolation(false)]
fn is_match_at(s: &Vec<char>, pat: &Vec<char>, i: usize) -> (r: bool)
    requires
        i + pat.len() <= s.len(),
    ensures
        r == match_at(s@, pat@, i as int),
{
    let mut j: usize = 0;
    while j < pat.len()
        invariant
            j <= pat.len(),
            i + pat.len() <= s.len(),
            forall|k: int| 0 <= k < j ==> s@[i + k] == pat@[k],
        decreases pat.len() - j,
    {
        if s[i + j] != pat[j] {
            assert(s@.subrange(i as int, i + pat@.len() as int)[j as int] != pat@[j as int]);
            return false;
        }
        j = j + 1;
    }
    assert(s@.subrange(i as int, i + pat@.len() as int) =~= pat@);
    true
}

/// Finds the first occurrence of `pat` in `s` at or after `from`.
#[verifier::loop_isolation(false)]
pub fn find_sub(s: &Vec<char>, pat: &Vec<char>, from: usize) -> (r: Option<usize>)
    requires
        pat.len() >= 1,
    ensures
        match r {
            Some(i) => Some(i as int) == first_match_from(s@, pat@, from as int),
            None => first_match_from(s@, pat@, from as int) is None,
        },
{
    if pat.len() > s.len() || from > s.len() - pat.len() {
        return None;
    }
    let last = s.len() - pat.len();
    let mut i: usize = from;
    while i <= last
        invariant
            from <= i,
            i <= last + 1,
            pat.len() >= 1,
            last == s.len() - pat.len(),
            first_match_from(s@, pat@, from as int) == first_match_from(s@, pat@, i as int),
        decreases last + 1 - i,
    {
        if is_match_at(s, pat, i) {
            assert(s@.subrange(i as int, i + pat@.len() as int) == pat@);
            return Some(i);
        }
        assert(s@.subrange(i as int, i + pat@.len() as int) != pat@);
        i = i + 1;
    }
    None
}

// ---------------------------------------------------------------------------
// Whitespace trimming
// ---------------------------------------------------------------------------

/// The whitespace characters recognized when trimming protocol lines.
pub open spec fn is_ws(c: char) -> bool {
    c == ' ' || c == '\t' || c == '\n' || c == '\r' || c == '\u{b}' || c == '\u{c}'
}

/// Length of `s` once trailing whitespace is removed.
pub open spec fn trim_end_idx(s: Seq<char>) -> int
    decreases s.len(),
{
    if s.len() == 0 {
        0
    } else if is_ws(s.last()) {
        trim_end_idx(s.drop_last())
    } else {
        s.len() as int
    }
}

/// Number of leading whitespace characters of `s`.
pub open spec fn trim_start_idx(s: Seq<char>) -> int
    decreases s.len(),
{
    if s.len() == 0 {
        0
    } else if is_ws(s.first()) {
        1 + trim_start_idx(s.drop_first())
    } else {
        0
    }
}

/// `s` with trailing whitespace removed.
pub open spec fn spec_trim_end(s: Seq<char>) -> Seq<char> {
    s.take(trim_end_idx(s))
}

/// `s` with leading and trailing whitespace removed.
pub open spec fn spec_trim(s: Seq<char>) -> Seq<char> {
    spec_trim_end(s).skip(trim_start_idx(spec_trim_end(s)))
}

pub proof fn lemma_trim_end_idx(s: Seq<char>)
    ensures
        0 <= trim_end_idx(s) <= s.len(),
        forall|j: int| trim_end_idx(s) <= j < s.len() ==> is_ws(s[j]),
        trim_end_idx(s) > 0 ==> !is_ws(s[trim_end_idx(s) - 1]),
    decreases s.len(),
{
    if s.len() > 0 && is_ws(s.last()) {
        lemma_trim_end_idx(s.drop_last());
        assert(forall|j: int|
            trim_end_idx(s) <= j < s.len() - 1 ==> s[j] == s.drop_last()[j] && is_ws(s[j]));
    }
}

pub proof fn lemma_trim_start_idx(s: Seq<char>)
    ensures
        0 <= trim_start_idx(s) <= s.len(),
        forall|j: int| 0 <= j < trim_start_idx(s) ==> is_ws(s[j]),
        trim_start_idx(s) < s.len() ==> !is_ws(s[trim_start_idx(s)]),
    decreases s.len(),
{
    if s.len() > 0 && is_ws(s.first()) {
        lemma_trim_start_idx(s.drop_first());
        assert forall|j: int| 1 <= j < trim_start_idx(s) implies is_ws(s[j]) by {
            assert(is_ws(s.drop_first()[j - 1]));
            assert(s.drop_first()[j - 1] == s[j]);
        }
        if trim_start_idx(s) < s.len() {
            assert(s.drop_first()[trim_start_idx(s) - 1] == s[trim_start_idx(s)]);
        }
    }
}

/// Tests whether a character is trimmed as whitespace.
pub fn ws_char(c: char) -> (r: bool)
    ensures
        r == is_ws(c),
{
    c == ' ' || c == '\t' || c == '\n' || c == '\r' || c == '\u{b}' || c == '\u{c}'
}

/// Removes trailing whitespace.
#[verifier::loop_isolation(false)]
pub fn trim_end_chars(s: &Vec<char>) -> (r: Vec<char>)
    ensures
        r@ == spec_trim_end(s@),
{
    let mut end: usize = s.len();
    proof {
        lemma_trim_end_idx(s@);
        assert(s@.take(end as int) =~= s@);
    }
    while end > 0 && ws_char(s[end - 1])
        invariant
            end <= s.len(),
            trim_end_idx(s@) == trim_end_idx(s@.take(end as int)),
            trim_end_idx(s@.take(end as int)) <= end,
        decreases end,
    {
        proof {
            assert(s@.take(end as int).last() == s@[end - 1]);
            assert(s@.take(end as int).drop_last() =~= s@.take(end - 1));
            lemma_trim_end_idx(s@.take(end - 1));
        }
        end = end - 1;
    }
    if end > 0 {
        assert(s@.take(end as int).last() == s@[end - 1]);
        assert(trim_end_idx(s@.take(end as int)) == end);
    }
    let mut r: Vec<char> = Vec::new();
    let mut i: usize = 0;
    while i < end
        invariant
            i <= end,
            end <= s.len(),
            r@ == s@.take(i as int),
        decreases end - i,
    {
        r.push(s[i]);
        i = i + 1;
        assert(r@ =~= s@.take(i as int));
    }
    assert(r@ =~= s@.take(end as int));
    r
}

/// Removes leading and trailing whitespace.
#[verifier::loop_isolation(false)]
pub fn trim_chars(s: &Vec<char>) -> (r: Vec<char>)
    ensures
        r@ == spec_trim(s@),
{
    let t = trim_end_chars(s);
    let mut start: usize = 0;
    assert(t@.skip(0) =~= t@);
    while start < t.len() && ws_char(t[start])
        invariant
            start <= t.len(),
            t@ == spec_trim_end(s@),
            trim_start_idx(t@) == start + trim_start_idx(t@.skip(start as int)),
        decreases t.len() - start,
    {
        assert(t@.skip(start as int).first() == t@[start as int]);
        assert(t@.skip(start as int).drop_first() =~= t@.skip(start + 1));
        start = start + 1;
    }
    if start < t.len() {
        assert(t@.skip(start as int).first() == t@[start as int]);
        assert(trim_start_idx(t@.skip(start as int)) == 0);
    } else {
        assert(t@.skip(start as int) =~= Seq::<char>::empty());
    }
    let mut r: Vec<char> = Vec::new();
    let mut i: usize = start;
    while i < t.len()
        invariant
            start <= i <= t.len(),
            t@ == spec_trim_end(s@),
            r@ == t@.subrange(start as int, i as int),
        decreases t.len() - i,
    {
        r.push(t[i]);
        i = i + 1;
        assert(r@ =~= t@.subrange(start as int, i as int));
    }
    assert(r@ =~= t@.skip(start as int));
    r
}

// ---------------------------------------------------------------------------
// ASCII helpers
// ---------------------------------------------------------------------------

/// A decimal digit.
pub open spec fn is_digit(c: char) -> bool {
    '0' <= c && c <= '9'
}

/// ASCII lower-casing of a single character.
pub open spec fn spec_to_lower(c: char) -> char {
    if 'A' <= c && c <= 'Z' {
        (((c as u32) + 32) as u8) as char
    } else {
        c
    }
}

/// Tests whether a character is a decimal digit.
pub fn digit_char(c: char) -> (r: bool)
    ensures
        r == is_digit(c),
{
    '0' <= c && c <= '9'
}

/// Lower-cases an ASCII letter, leaving every other character unchanged.
pub fn to_lower(c: char) -> (r: char)
    ensures
        r == spec_to_lower(c),
{
    if 'A' <= c && c <= 'Z' {
        (((c as u32) + 32) as u8) as char
    } else {
        c
    }
}

/// All characters of `s` are decimal digits.
pub open spec fn all_digits(s: Seq<char>) -> bool {
    forall|i: int| 0 <= i < s.len() ==> is_digit(s[i])
}

/// Numeric value of a digit string.
pub open spec fn digits_to_nat(s: Seq<char>) -> nat
    decreases s.len(),
{
    if s.len() == 0 {
        0
    } else {
        digits_to_nat(s.drop_last()) * 10 + (((s.last() as u32) - 48) as nat)
    }
}

proof fn lemma_digits_to_nat_monotone(s: Seq<char>, i: int)
    requires
        0 <= i <= s.len(),
        all_digits(s),
    ensures
        digits_to_nat(s.take(i)) <= digits_to_nat(s),
    decreases s.len() - i,
{
    if i < s.len() {
        lemma_digits_to_nat_monotone(s, i + 1);
        assert(s.take(i + 1).drop_last() =~= s.take(i));
        assert(digits_to_nat(s.take(i + 1)) == digits_to_nat(s.take(i)) * 10 + (((s.take(i + 1).last() as u32) - 48) as nat));
        assert(digits_to_nat(s.take(i)) <= digits_to_nat(s.take(i)) * 10) by (nonlinear_arith);
    } else {
        assert(s.take(i) =~= s);
    }
}

/// Parses a decimal digit string into a `usize`; `None` when the string is
/// empty, holds a non-digit, or does not fit.
#[verifier::loop_isolation(false)]
pub fn parse_usize(s: &Vec<char>) -> (r: Option<usize>)
    ensures
        match r {
            Some(n) => s@.len() > 0 && all_digits(s@) && n == digits_to_nat(s@),
            None => s@.len() == 0 || !all_digits(s@) || digits_to_nat(s@) > usize::MAX,
        },
{
    if s.len() == 0 {
        return None;
    }
    let mut n: usize = 0;
    let mut i: usize = 0;
    while i < s.len()
        invariant
            i <= s.len(),
            all_digits(s@.take(i as int)),
            n == digits_to_nat(s@.take(i as int)),
        decreases s.len() - i,
    {
        let c = s[i];
        if !digit_char(c) {
            assert(!all_digits(s@));
            return None;
        }
        let d: usize = ((c as u32) - 48) as usize;
        if n > (usize::MAX - d) / 10 {
            proof {
                assert(s@.take(i + 1).drop_last() =~= s@.take(i as int));
                assert(digits_to_nat(s@.take(i + 1)) == n * 10 + d);
                assert(n * 10 + d > usize::MAX) by (nonlinear_arith)
                    requires n > (usize::MAX - d) / 10 && d <= 9;
                if all_digits(s@) {
                    lemma_digits_to_nat_monotone(s@, i + 1);
                }
            }
            return None;
        }
        proof {
            assert(n * 10 + d <= usize::MAX) by (nonlinear_arith)
                requires n <= (usize::MAX - d) / 10 && d <= 9;
            assert(s@.take(i + 1).drop_last() =~= s@.take(i as int));
        }
        n = n * 10 + d;
        i = i + 1;
    }
    assert(s@.take(i as int) =~= s@);
    Some(n)
}

/// Decimal representation of a natural number.
pub open spec fn dec_rep(n: nat) -> Seq<char>
    decreases n,
{
    if n < 10 {
        seq![(((48 + n) as u8) as char)]
    } else {
        dec_rep(n / 10).push((((48 + n % 10) as u8) as char))
    }
}

/// Writes a number in decimal.
pub fn usize_to_chars(n: usize) -> (v: Vec<char>)
    ensures
        v@ == dec_rep(n as nat),
    decreases n,
{
    if n < 10 {
        let c: char = (((48 + n) as u8) as char);
        let mut v: Vec<char> = Vec::new();
        v.push(c);
        assert(v@ =~= dec_rep(n as nat));
        v
    } else {
        let mut v = usize_to_chars(n / 10);
        let c: char = (((48 + n % 10) as u8) as char);
        v.push(c);
        v
    }
}

// ---------------------------------------------------------------------------
// Single-pattern replacement
// ---------------------------------------------------------------------------

/// `s` with every occurrence of `pat` replaced by `repl`, scanning left to
/// right without revisiting replaced text.
pub open spec fn spec_replace(s: Seq<char>, pat: Seq<char>, repl: Seq<char>) -> Seq<char>
    decreases s.len(),
{
    if pat.len() == 0 || s.len() < pat.len() {
        s
    } else if s.take(pat.len() as int) == pat {
        repl + spec_replace(s.skip(pat.len() as int), pat, repl)
    } else {
        seq![s[0]] + spec_replace(s.skip(1), pat, repl)
    }
}

/// Replaces every occurrence of `pat` in `s` by `repl`.
#[verifier::loop_isolation(false)]
pub fn replace_chars(s: &Vec<char>, pat: &Vec<char>, repl: &Vec<char>) -> (r: Vec<char>)
    requires
        pat.len() >= 1,
    ensures
        r@ == spec_replace(s@, pat@, repl@),
{
    let mut out: Vec<char> = Vec::new();
    let mut i: usize = 0;
    assert(s@.skip(0) =~= s@);
    assert(out@ + spec_replace(s@, pat@, repl@) =~= spec_replace(s@, pat@, repl@));
    while i < s.len()
        invariant
            i <= s.len(),
            pat.len() >= 1,
            spec_replace(s@, pat@, repl@) == out@ + spec_replace(s@.skip(i as int), pat@, repl@),
        decreases s.len() - i,
    {
        if pat.len() <= s.len() - i && is_match_at(s, pat, i) {
            proof {
                assert(s@.skip(i as int).take(pat@.len() as int) =~= s@.subrange(
                    i as int,
                    i + pat@.len() as int,
                ));
                assert(s@.skip(i as int).skip(pat@.len() as int) =~= s@.skip(
                    i + pat@.len() as int,
                ));
            }
            let ghost old_out = out@;
            let mut j: usize = 0;
            while j < repl.len()
                invariant
                    j <= repl.len(),
                    out@ == old_out + repl@.take(j as int),
                decreases repl.len() - j,
            {
                out.push(repl[j]);
                j = j + 1;
                assert(out@ =~= old_out + repl@.take(j as int));
            }
            assert(out@ =~= old_out + repl@);
            i = i + pat.len();
        } else {
            proof {
                if i + pat.len() <= s.len() {
                    assert(s@.skip(i as int).take(pat@.len() as int) =~= s@.subrange(
                        i as int,
                        i + pat@.len() as int,
                    ));
                } else {
                    assert(s@.skip(i as int).len() < pat@.len());
                }
                assert(s@.skip(i as int).skip(1) =~= s@.skip(i + 1));
                assert(s@.skip(i as int)[0] == s@[i as int]);
            }
            out.push(s[i]);
            i = i + 1;
        }
    }
    assert(s@.skip(i as int) =~= Seq::<char>::empty());
    assert(out@ =~= out@ + spec_replace(s@.skip(i as int), pat@, repl@));
    out
}

// ---------------------------------------------------------------------------
// Splitting into lines
// ---------------------------------------------------------------------------

/// Splits `s` at every `'\n'`; `cur` is the partial line read so far.
pub open spec fn lines_acc(s: Seq<char>, cur: Seq<char>) -> Seq<Seq<char>>
    decreases s.len(),
{
    if s.len() == 0 {
        seq![cur]
    } else if s[0] == '\n' {
        seq![cur] + lines_acc(s.skip(1), Seq::empty())
    } else {
        lines_acc(s.skip(1), cur.push(s[0]))
    }
}

/// The lines of `s`, split at `'\n'`.
pub open spec fn spec_lines(s: Seq<char>) -> Seq<Seq<char>> {
    lines_acc(s, Seq::empty())
}

/// Splits text into lines at `'\n'`.
#[verifier::loop_isolation(false)]
pub fn split_lines(s: &Vec<char>) -> (r: Vec<Vec<char>>)
    ensures
        r@.map_values(|l: Vec<char>| l@) == spec_lines(s@),
{
    let mut out: Vec<Vec<char>> = Vec::new();
    let mut cur: Vec<char> = Vec::new();
    let mut i: usize = 0;
    assert(s@.skip(0) =~= s@);
    assert(out@.map_values(|l: Vec<char>| l@) + lines_acc(s@, cur@) =~= lines_acc(s@, cur@));
    while i < s.len()
        invariant
            i <= s.len(),
            spec_lines(s@) == out@.map_values(|l: Vec<char>| l@) + lines_acc(
                s@.skip(i as int),
                cur@,
            ),
        decreases s.len() - i,
    {
        proof {
            assert(s@.skip(i as int)[0] == s@[i as int]);
            assert(s@.skip(i as int).skip(1) =~= s@.skip(i + 1));
        }
        if s[i] == '\n' {
            let ghost prev = out@;
            out.push(cur);
            cur = Vec::new();
            proof {
                assert(out@.map_values(|l: Vec<char>| l@) =~= prev.map_values(|l: Vec<char>| l@)
                    + seq![out@.last()@]);
            }
        } else {
            cur.push(s[i]);
        }
        i = i + 1;
    }
    assert(s@.skip(i as int) =~= Seq::<char>::empty());
    let ghost prev = out@;
    out.push(cur);
    proof {
        assert(out@.map_values(|l: Vec<char>| l@) =~= prev.map_values(|l: Vec<char>| l@)
            + seq![out@.last()@]);
    }
    out
}

// ---------------------------------------------------------------------------
// Prefix and suffix tests
// ---------------------------------------------------------------------------

/// `pre` is a prefix of `s`.
pub open spec fn has_prefix(s: Seq<char>, pre: Seq<char>) -> bool {
    pre.len() <= s.len() && s.take(pre.len() as int) == pre
}

/// `suf` is a suffix of `s`.
pub open spec fn has_suffix(s: Seq<char>, suf: Seq<char>) -> bool {
    suf.len() <= s.len() && s.skip(s.len() - suf.len()) == suf
}

/// Tests whether `s` starts with `pre`.
pub fn starts_with_chars(s: &Vec<char>, pre: &Vec<char>) -> (r: bool)
    ensures
        r == has_prefix(s@, pre@),
{
    if pre.len() > s.len() {
        return false;
    }
    let r = is_match_at(s, pre, 0);
    proof {
        assert(s@.subrange(0, pre@.len() as int) =~= s@.take(pre@.len() as int));
    }
    r
}

/// Tests whether `s` ends with `suf`.
pub fn ends_with_chars(s: &Vec<char>, suf: &Vec<char>) -> (r: bool)
    ensures
        r == has_suffix(s@, suf@),
{
    if suf.len() > s.len() {
        return false;
    }
    let start = s.len() - suf.len();
    let r = is_match_at(s, suf, start);
    proof {
        assert(s@.subrange(start as int, start + suf@.len() as int) =~= s@.skip(
            s@.len() - suf@.len(),
        ));
    }
    r
}


/// Copies the range `[from, to)` of `v` into a new vector.
#[verifier::loop_isolation(false)]
pub fn sub_chars(v: &Vec<char>, from: usize, to: usize) -> (r: Vec<char>)
    requires
        from <= to,
        to <= v.len(),
    ensures
        r@ == v@.subrange(from as int, to as int),
{
    let mut r: Vec<char> = Vec::new();
    let mut i: usize = from;
    while i < to
        invariant
            from <= i <= to,
            r@ == v@.subrange(from as int, i as int),
        decreases to - i,
    {
        r.push(v[i]);
        i = i + 1;
        assert(r@ =~= v@.subrange(from as int, i as int));
    }
    r
}

/// Compares two character vectors.
#[verifier::loop_isolation(false)]
pub fn eq_chars(a: &Vec<char>, b: &Vec<char>) -> (r: bool)
    ensures
        r == (a@ == b@),
{
    if a.len() != b.len() {
        return false;
    }
    let mut i: usize = 0;
    while i < a.len()
        invariant
            i <= a.len(),
            a.len() == b.len(),
            forall|k: int| 0 <= k < i ==> a@[k] == b@[k],
        decreases a.len() - i,
    {
        if a[i] != b[i] {
            return false;
        }
        i = i + 1;
    }
    assert(a@ =~= b@);
    true
}


/// Appends all characters of `src` to `dst`.
#[verifier::loop_isolation(false)]
pub fn push_all(dst: &mut Vec<char>, src: &Vec<char>)
    ensures
        final(dst)@ == old(dst)@ + src@,
{
    let mut i: usize = 0;
    while i < src.len()
        invariant
            i <= src.len(),
            dst@ == old(dst)@ + src@.take(i as int),
        decreases src.len() - i,
    {
        dst.push(src[i]);
        i = i + 1;
        assert(dst@ =~= old(dst)@ + src@.take(i as int));
    }
    assert(dst@ =~= old(dst)@ + src@);
}


// ---------------------------------------------------------------------------
// Splitting on a separator
// ---------------------------------------------------------------------------

/// The pieces of `s` between non-overlapping occurrences of `sep`, found
/// left to right.
pub open spec fn split_by(s: Seq<char>, sep: Seq<char>) -> Seq<Seq<char>>
    decreases s.len(),
    via split_by_dec
{
    if sep.len() == 0 {
        seq![s]
    } else {
        match first_match_from(s, sep, 0) {
            Option::None => seq![s],
            Option::Some(i) => seq![s.take(i)] + split_by(s.skip(i + sep.len() as int), sep),
        }
    }
}

#[via_fn]
proof fn split_by_dec(s: Seq<char>, sep: Seq<char>) {
    if sep.len() > 0 {
        lemma_first_match_from(s, sep, 0);
    }
}

/// Splits `s` at every occurrence of `sep`.
#[verifier::loop_isolation(false)]
pub fn split_by_chars(s: &Vec<char>, sep: &Vec<char>) -> (r: Vec<Vec<char>>)
    requires
        sep.len() >= 1,
    ensures
        r@.map_values(|p: Vec<char>| p@) == split_by(s@, sep@),
{
    let mut r: Vec<Vec<char>> = Vec::new();
    let mut rest: Vec<char> = sub_chars(s, 0, s.len());
    assert(rest@ =~= s@);
    loop
        invariant
            sep.len() >= 1,
            split_by(s@, sep@) == r@.map_values(|p: Vec<char>| p@) + split_by(rest@, sep@),
        decreases rest@.len(),
    {
        let found = find_sub(&rest, sep, 0);
        proof {
            lemma_first_match_from(rest@, sep@, 0);
        }
        match found {
            Option::None => {
                break;
            },
            Option::Some(i) => {
                let rest_len = rest.len();
                let piece = sub_chars(&rest, 0, i);
                assert(piece@ =~= rest@.take(i as int));
                let ghost prev = r@;
                r.push(piece);
                proof {
                    assert(r@.map_values(|p: Vec<char>| p@) =~= prev.map_values(
                        |p: Vec<char>| p@,
                    ) + seq![rest@.take(i as int)]);
                }
                let next = sub_chars(&rest, i + sep.len(), rest_len);
                assert(next@ =~= rest@.skip(i + sep@.len()));
                rest = next;
            },
        }
    }
    let ghost prev = r@;
    r.push(rest);
    proof {
        assert(r@.map_values(|p: Vec<char>| p@) =~= prev.map_values(|p: Vec<char>| p@)
            + seq![r@.last()@]);
    }
    r
}

// ---------------------------------------------------------------------------
// Signed decimal numbers
// ---------------------------------------------------------------------------

/// The numeric value of a signed digit string: an optional single `+` or
/// `-`, then at least one digit.
pub open spec fn signed_digits_ok(s: Seq<char>) -> bool {
    if s.len() == 0 {
        false
    } else if s[0] == '+' || s[0] == '-' {
        s.len() > 1 && all_digits(s.skip(1))
    } else {
        all_digits(s)
    }
}

/// The value of a well-formed signed digit string.
pub open spec fn signed_digits_val(s: Seq<char>) -> int {
    if s.len() > 0 && s[0] == '-' {
        -(digits_to_nat(s.skip(1)) as int)
    } else if s.len() > 0 && s[0] == '+' {
        digits_to_nat(s.skip(1)) as int
    } else {
        digits_to_nat(s) as int
    }
}

/// Parses a signed decimal `i32`; `None` when malformed or out of range.
pub fn parse_i32(s: &Vec<char>) -> (r: Option<i32>)
    ensures
        match r {
            Some(n) => signed_digits_ok(s@) && n == signed_digits_val(s@),
            None => !signed_digits_ok(s@) || signed_digits_val(s@) > i32::MAX
                || signed_digits_val(s@) < i32::MIN,
        },
{
    if s.len() == 0 {
        return None;
    }
    let c0 = s[0];
    let negative = c0 == '-';
    let digits = if c0 == '-' || c0 == '+' {
        sub_chars(s, 1, s.len())
    } else {
        sub_chars(s, 0, s.len())
    };
    proof {
        if c0 == '-' || c0 == '+' {
            assert(digits@ =~= s@.skip(1));
        } else {
            assert(digits@ =~= s@);
        }
    }
    let parsed = parse_usize(&digits);
    match parsed {
        None => {
            proof {
                if digits@.len() == 0 || !all_digits(digits@) {
                } else {
                    assert(digits_to_nat(digits@) > usize::MAX >= i32::MAX);
                }
            }
            None
        },
        Some(n) => {
            if negative {
                if n > 0x8000_0000usize {
                    return None;
                }
                if n == 0x8000_0000usize {
                    return Some(i32::MIN);
                }
                Some(-(n as i32))
            } else {
                if n > 0x7fff_ffffusize {
                    return None;
                }
                Some(n as i32)
            }
        },
    }
}

/// Decimal representation of a signed number.
pub open spec fn signed_dec_rep(n: int) -> Seq<char> {
    if n < 0 {
        seq!['-'] + dec_rep((-n) as nat)
    } else {
        dec_rep(n as nat)
    }
}

/// Writes a signed number in decimal.
pub fn i32_to_chars(n: i32) -> (v: Vec<char>)
    ensures
        v@ == signed_dec_rep(n as int),
{
    if n >= 0 {
        let r = usize_to_chars(n as usize);
        r
    } else {
        let mag: usize = if n == i32::MIN {
            0x8000_0000usize
        } else {
            (-n) as usize
        };
        let mut v: Vec<char> = Vec::new();
        v.push('-');
        let digits = usize_to_chars(mag);
        push_all(&mut v, &digits);
        assert(v@ =~= signed_dec_rep(n as int));
        v
    }
}


/// `s` lower-cased character by character (ASCII case folding).
pub open spec fn lower_seq(s: Seq<char>) -> Seq<char> {
    s.map_values(|c: char| spec_to_lower(c))
}

/// Lower-cases every character of `v`.
#[verifier::loop_isolation(false)]
pub fn lower_chars(v: &Vec<char>) -> (r: Vec<char>)
    ensures
        r@ == lower_seq(v@),
{
    let mut r: Vec<char> = Vec::new();
    let mut i: usize = 0;
    while i < v.len()
        invariant
            i <= v.len(),
            r@ =~= lower_seq(v@).take(i as int),
        decreases v.len() - i,
    {
        r.push(to_lower(v[i]));
        i = i + 1;
        assert(r@ =~= lower_seq(v@).take(i as int));
    }
    assert(r@ =~= lower_seq(v@));
    r
}


/// Line endings normalized to bare newlines.
pub open spec fn spec_normalize_newlines(s: Seq<char>) -> Seq<char> {
    spec_replace(spec_replace(s, seq!['\r', '\n'], seq!['\n']), seq!['\r'], seq!['\n'])
}

/// Normalizes line endings to bare newlines.
pub fn normalize_newlines(v: &Vec<char>) -> (r: Vec<char>)
    ensures
        r@ == spec_normalize_newlines(v@),
{
    let mut crlf: Vec<char> = Vec::new();
    crlf.push('\r');
    crlf.push('\n');
    assert(crlf@ =~= seq!['\r', '\n']);
    let mut cr: Vec<char> = Vec::new();
    cr.push('\r');
    assert(cr@ =~= seq!['\r']);
    let mut nl: Vec<char> = Vec::new();
    nl.push('\n');
    assert(nl@ =~= seq!['\n']);
    replace_chars(&replace_chars(v, &crlf, &nl), &cr, &nl)
}


/// The lines of a list joined by newlines; empty when there is none.
pub open spec fn join_lines(ls: Seq<Seq<char>>) -> Seq<char>
    decreases ls.len(),
{
    if ls.len() == 0 {
        Seq::empty()
    } else if ls.len() == 1 {
        ls[0]
    } else {
        join_lines(ls.drop_last()) + seq!['\n'] + ls.last()
    }
}


/// Splitting always yields at least one line.
pub proof fn lemma_lines_nonempty(s: Seq<char>, cur: Seq<char>)
    ensures
        lines_acc(s, cur).len() >= 1,
    decreases s.len(),
{
    if s.len() > 0 {
        if s[0] == '\n' {
            lemma_lines_nonempty(s.skip(1), Seq::empty());
        } else {
            lemma_lines_nonempty(s.skip(1), cur.push(s[0]));
        }
    }
}

} // verus!
