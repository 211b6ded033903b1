//! Override-tag compatibility validator.
//!
//! Subtitle text may carry inline styling directives written as
//! `{\...}` blocks.  A translation is compatible with its original when the
//! two texts carry the same multiset of tags, once each tag is normalized by
//! lower-casing and by erasing the numeric parameters that follow each
//! backslash-introduced directive name.

use vstd::prelude::*;

use crate::text::{
    digit_char, chars_to_string, eq_chars, find_sub, first_match_from, is_digit,
    lemma_first_match_from, spec_to_lower, str_to_chars, sub_chars, to_lower,
};

verus! {

// ---------------------------------------------------------------------------
// Tag extraction
// ---------------------------------------------------------------------------

/// The `{\...}` blocks of `s`, in order of appearance.  Each extracted block
/// runs from a `{` that is immediately followed by a backslash up to the next
/// `}`, and is returned with the surrounding braces.
pub open spec fn spec_extract_tags(s: Seq<char>) -> Seq<Seq<char>>
    decreases s.len(),
    via spec_extract_tags_dec
{
    match first_match_from(s, seq!['{', '\\'], 0) {
        Option::None => Seq::empty(),
        Option::Some(i) => {
            let after = s.skip(i + 1);
            match first_match_from(after, seq!['}'], 0) {
                Option::None => Seq::empty(),
                Option::Some(j) => seq![seq!['{'] + after.take(j) + seq!['}']]
                    + spec_extract_tags(after.skip(j + 1)),
            }
        },
    }
}

#[via_fn]
proof fn spec_extract_tags_dec(s: Seq<char>) {
    lemma_first_match_from(s, seq!['{', '\\'], 0);
    if let Option::Some(i) = first_match_from(s, seq!['{', '\\'], 0) {
        let after = s.skip(i + 1);
        lemma_first_match_from(after, seq!['}'], 0);
    }
}

/// Extracts every `{\...}` block of `text`, braces included.
#[verifier::loop_isolation(false)]
pub fn extract_ass_tags(text: &str) -> (tags: Vec<String>)
    ensures
        tags@.map_values(|t: String| t@) == spec_extract_tags(text@),
{
    let mut open_pat: Vec<char> = Vec::new();
    open_pat.push('{');
    open_pat.push('\\');
    let mut close_pat: Vec<char> = Vec::new();
    close_pat.push('}');
    assert(open_pat@ =~= seq!['{', '\\']);
    assert(close_pat@ =~= seq!['}']);

    let mut tags: Vec<String> = Vec::new();
    let mut rest: Vec<char> = str_to_chars(text);
    loop
        invariant
            spec_extract_tags(text@) == tags@.map_values(|t: String| t@) + spec_extract_tags(
                rest@,
            ),
            open_pat@ == seq!['{', '\\'],
            close_pat@ == seq!['}'],
        decreases rest@.len(),
    {
        let found = find_sub(&rest, &open_pat, 0);
        if found.is_none() {
            break;
        }
        let start = found.unwrap();
        proof {
            lemma_first_match_from(rest@, open_pat@, 0);
            assert(start + 2 <= rest@.len());
        }
        let rest_len = rest.len();
        let after = sub_chars(&rest, start + 1, rest_len);
        assert(after@ =~= rest@.skip(start + 1));
        let found_end = find_sub(&after, &close_pat, 0);
        if found_end.is_none() {
            break;
        }
        let end = found_end.unwrap();
        proof {
            lemma_first_match_from(after@, close_pat@, 0);
            assert(end + 1 <= after@.len());
        }
        let mut tag: Vec<char> = Vec::new();
        tag.push('{');
        let block = sub_chars(&after, 0, end);
        let mut k: usize = 0;
        while k < block.len()
            invariant
                k <= block.len(),
                tag@ == seq!['{'] + block@.take(k as int),
            decreases block.len() - k,
        {
            tag.push(block[k]);
            k = k + 1;
            assert(tag@ =~= seq!['{'] + block@.take(k as int));
        }
        tag.push('}');
        assert(tag@ =~= seq!['{'] + after@.take(end as int) + seq!['}']);
        let ghost prev = tags@;
        tags.push(chars_to_string(&tag));
        proof {
            assert(tags@.map_values(|t: String| t@) =~= prev.map_values(|t: String| t@)
                + seq![tag@]);
        }
        let new_rest = sub_chars(&after, end + 1, after.len());
        assert(new_rest@ =~= after@.skip(end + 1));
        rest = new_rest;
    }
    assert(spec_extract_tags(rest@) =~= Seq::<Seq<char>>::empty());
    assert(tags@.map_values(|t: String| t@) =~= tags@.map_values(|t: String| t@)
        + spec_extract_tags(rest@));
    tags
}

// ---------------------------------------------------------------------------
// Tag normalization
// ---------------------------------------------------------------------------

/// A character that forms a numeric directive parameter.
pub open spec fn is_numericish(c: char) -> bool {
    is_digit(c) || c == '.' || c == '-'
}

/// The normalized form of a tag: numeric parameters (digits, dots and
/// signs) are dropped and every remaining character is lower-cased, so
/// that only directive identity is compared, never case or magnitude.
pub open spec fn spec_normalize_tag(s: Seq<char>) -> Seq<char>
    decreases s.len(),
{
    if s.len() == 0 {
        Seq::empty()
    } else if is_numericish(s[0]) {
        spec_normalize_tag(s.skip(1))
    } else {
        seq![spec_to_lower(s[0])] + spec_normalize_tag(s.skip(1))
    }
}

/// Normalizes one tag: drops its numeric parameters and lower-cases the
/// rest.
#[verifier::loop_isolation(false)]
pub fn normalize_ass_tag(tag: &str) -> (r: String)
    ensures
        r@ == spec_normalize_tag(tag@),
{
    let chars = str_to_chars(tag);
    let mut out: Vec<char> = Vec::new();
    let mut i: usize = 0;
    assert(chars@.skip(0) =~= chars@);
    assert(out@ + spec_normalize_tag(chars@) =~= spec_normalize_tag(chars@));
    while i < chars.len()
        invariant
            i <= chars.len(),
            chars@ == tag@,
            spec_normalize_tag(tag@) == out@ + spec_normalize_tag(chars@.skip(i as int)),
        decreases chars.len() - i,
    {
        let c = chars[i];
        proof {
            assert(chars@.skip(i as int)[0] == chars@[i as int]);
            assert(chars@.skip(i as int).skip(1) =~= chars@.skip(i + 1));
        }
        if !(digit_char(c) || c == '.' || c == '-') {
            out.push(to_lower(c));
        }
        i = i + 1;
    }
    assert(chars@.skip(i as int) =~= Seq::<char>::empty());
    assert(out@ =~= out@ + spec_normalize_tag(chars@.skip(i as int)));
    chars_to_string(&out)
}

// ---------------------------------------------------------------------------
// Compatibility
// ---------------------------------------------------------------------------

/// The normalized tags of `s`.
pub open spec fn normalized_tags(s: Seq<char>) -> Seq<Seq<char>> {
    spec_extract_tags(s).map_values(|t: Seq<char>| spec_normalize_tag(t))
}

/// Two texts are tag-compatible when they carry the same normalized tags,
/// the same number of times each, in any order.  In particular two texts
/// without tags are compatible, and a text with tags is never compatible
/// with a text without.
pub open spec fn spec_tags_compatible(original: Seq<char>, translated: Seq<char>) -> bool {
    normalized_tags(original).to_multiset() == normalized_tags(translated).to_multiset()
}

/// Number of occurrences of `x` in `s`.
pub open spec fn occurrences(s: Seq<Seq<char>>, x: Seq<char>) -> nat
    decreases s.len(),
{
    if s.len() == 0 {
        0
    } else {
        occurrences(s.drop_last(), x) + (if s.last() == x {
            1nat
        } else {
            0nat
        })
    }
}

proof fn lemma_occurrences_count(s: Seq<Seq<char>>, x: Seq<char>)
    ensures
        occurrences(s, x) == s.to_multiset().count(x),
    decreases s.len(),
{
    broadcast use vstd::multiset::group_multiset_axioms;

    if s.len() == 0 {
        s.to_multiset_ensures();
        assert(s.to_multiset().len() == 0);
        assert(s.to_multiset().count(x) <= s.to_multiset().len());
    } else {
        lemma_occurrences_count(s.drop_last(), x);
        s.drop_last().to_multiset_ensures();
        assert(s =~= s.drop_last().push(s.last()));
        assert(s.drop_last().push(s.last()).to_multiset() =~= s.drop_last().to_multiset().insert(
            s.last(),
        ));
    }
}

/// Counts how many entries of `v` equal `x`.
#[verifier::loop_isolation(false)]
fn count_eq(v: &Vec<Vec<char>>, x: &Vec<char>) -> (n: usize)
    ensures
        n == occurrences(v@.map_values(|t: Vec<char>| t@), x@),
{
    let ghost sv = v@.map_values(|t: Vec<char>| t@);
    let mut n: usize = 0;
    let mut i: usize = 0;
    while i < v.len()
        invariant
            i <= v.len(),
            sv == v@.map_values(|t: Vec<char>| t@),
            n <= i,
            n == occurrences(sv.take(i as int), x@),
        decreases v.len() - i,
    {
        proof {
            assert(sv.take(i + 1).drop_last() =~= sv.take(i as int));
            assert(sv.take(i + 1).last() == sv[i as int]);
        }
        if eq_chars(&v[i], x) {
            n = n + 1;
        }
        i = i + 1;
    }
    assert(sv.take(i as int) =~= sv);
    n
}

/// Extracts and normalizes the tags of `text`.
#[verifier::loop_isolation(false)]
fn gather_normalized_tags(text: &str) -> (out: Vec<Vec<char>>)
    ensures
        out@.map_values(|t: Vec<char>| t@) == normalized_tags(text@),
{
    let raw = extract_ass_tags(text);
    let mut out: Vec<Vec<char>> = Vec::new();
    let mut i: usize = 0;
    while i < raw.len()
        invariant
            i <= raw.len(),
            raw@.map_values(|t: String| t@) == spec_extract_tags(text@),
            out@.map_values(|t: Vec<char>| t@) =~= normalized_tags(text@).take(i as int),
        decreases raw.len() - i,
    {
        let norm = normalize_ass_tag(raw[i].as_str());
        let ghost prev = out@;
        out.push(str_to_chars(norm.as_str()));
        proof {
            assert(out@.map_values(|t: Vec<char>| t@) =~= prev.map_values(|t: Vec<char>| t@)
                + seq![spec_normalize_tag(spec_extract_tags(text@)[i as int])]);
            assert(out@.map_values(|t: Vec<char>| t@) =~= normalized_tags(text@).take(i + 1));
        }
        i = i + 1;
    }
    assert(out@.map_values(|t: Vec<char>| t@) =~= normalized_tags(text@));
    out
}

/// Decides whether a translated text keeps the original's styling tags:
/// compatible exactly when the two normalized tag multisets are equal.
#[verifier::loop_isolation(false)]
pub fn tags_compatible(original: &str, translated: &str) -> (r: bool)
    ensures
        r == spec_tags_compatible(original@, translated@),
{
    broadcast use vstd::multiset::group_multiset_axioms;

    let ta = gather_normalized_tags(original);
    let tb = gather_normalized_tags(translated);
    let ghost sa = ta@.map_values(|t: Vec<char>| t@);
    let ghost sb = tb@.map_values(|t: Vec<char>| t@);

    let mut i: usize = 0;
    while i < ta.len()
        invariant
            i <= ta.len(),
            sa == ta@.map_values(|t: Vec<char>| t@),
            sb == tb@.map_values(|t: Vec<char>| t@),
            sa == normalized_tags(original@),
            sb == normalized_tags(translated@),
            forall|k: int| 0 <= k < i ==> occurrences(sa, sa[k]) == occurrences(sb, sa[k]),
        decreases ta.len() - i,
    {
        let ca = count_eq(&ta, &ta[i]);
        let cb = count_eq(&tb, &ta[i]);
        if ca != cb {
            proof {
                lemma_occurrences_count(sa, sa[i as int]);
                lemma_occurrences_count(sb, sa[i as int]);
            }
            return false;
        }
        i = i + 1;
    }
    let mut j: usize = 0;
    while j < tb.len()
        invariant
            j <= tb.len(),
            sa == ta@.map_values(|t: Vec<char>| t@),
            sb == tb@.map_values(|t: Vec<char>| t@),
            sa == normalized_tags(original@),
            sb == normalized_tags(translated@),
            forall|k: int| 0 <= k < sa.len() ==> occurrences(sa, sa[k]) == occurrences(sb, sa[k]),
            forall|k: int| 0 <= k < j ==> occurrences(sa, sb[k]) == occurrences(sb, sb[k]),
        decreases tb.len() - j,
    {
        let ca = count_eq(&ta, &tb[j]);
        let cb = count_eq(&tb, &tb[j]);
        if ca != cb {
            proof {
                lemma_occurrences_count(sa, sb[j as int]);
                lemma_occurrences_count(sb, sb[j as int]);
            }
            return false;
        }
        j = j + 1;
    }
    proof {
        sa.to_multiset_ensures();
        sb.to_multiset_ensures();
        assert forall|x: Seq<char>| sa.to_multiset().count(x) == sb.to_multiset().count(x) by {
            lemma_occurrences_count(sa, x);
            lemma_occurrences_count(sb, x);
            if sa.contains(x) {
                let k = choose|k: int| 0 <= k < sa.len() && sa[k] == x;
                assert(occurrences(sa, sa[k]) == occurrences(sb, sa[k]));
            } else if sb.contains(x) {
                let k = choose|k: int| 0 <= k < sb.len() && sb[k] == x;
                assert(occurrences(sa, sb[k]) == occurrences(sb, sb[k]));
            } else {
                assert(sa.to_multiset().count(x) == 0);
                assert(sb.to_multiset().count(x) == 0);
            }
        }
        assert(sa.to_multiset() =~= sb.to_multiset());
    }
    true
}

// ---------------------------------------------------------------------------
// Laws
// ---------------------------------------------------------------------------

/// Every text is tag-compatible with itself.
pub proof fn lemma_tags_compatible_reflexive(s: Seq<char>)
    ensures
        spec_tags_compatible(s, s),
{
}

/// Tag compatibility is symmetric in its two texts.
pub proof fn lemma_tags_compatible_symmetric(a: Seq<char>, b: Seq<char>)
    ensures
        spec_tags_compatible(a, b) == spec_tags_compatible(b, a),
{
}

} // verus!
