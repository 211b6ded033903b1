//! The SubRip subtitle format: blank-line-separated blocks of an index
//! line, a timestamp line and the text.

use vstd::prelude::*;

use crate::subtitle::{
    entry_seq_view, SubtitleEntry, SubtitleEntryV, SubtitleFile, SubtitleFormat,
};
use crate::text::{
    all_digits, chars_to_string, dec_rep, digits_to_nat, is_digit, is_ws, join_lines, parse_usize,
    push_all, spec_lines, spec_normalize_newlines, spec_trim, spec_trim_end, split_by,
    split_by_chars, split_lines, str_to_chars, sub_chars, trim_chars, trim_end_chars,
    usize_to_chars,
};

verus! {

// ---------------------------------------------------------------------------
// The timestamp grammar
// ---------------------------------------------------------------------------

/// A `HH:MM:SS,mmm` timestamp starts at position `i`.
pub open spec fn ts_shape_at(s: Seq<char>, i: int) -> bool {
    &&& i >= 0
    &&& i + 12 <= s.len()
    &&& is_digit(s[i])
    &&& is_digit(s[i + 1])
    &&& s[i + 2] == ':'
    &&& is_digit(s[i + 3])
    &&& is_digit(s[i + 4])
    &&& s[i + 5] == ':'
    &&& is_digit(s[i + 6])
    &&& is_digit(s[i + 7])
    &&& s[i + 8] == ','
    &&& is_digit(s[i + 9])
    &&& is_digit(s[i + 10])
    &&& is_digit(s[i + 11])
}

/// The first non-whitespace position at or after `i`.
pub open spec fn skip_ws_from(s: Seq<char>, i: int) -> int
    decreases s.len() - i,
{
    if 0 <= i < s.len() && is_ws(s[i]) {
        skip_ws_from(s, i + 1)
    } else {
        i
    }
}

/// A whole `start --> end` timestamp pair begins at position `i`.
pub open spec fn ts_pair_at(s: Seq<char>, i: int) -> bool {
    &&& ts_shape_at(s, i)
    &&& {
        let a = skip_ws_from(s, i + 12);
        &&& a + 3 <= s.len()
        &&& s[a] == '-'
        &&& s[a + 1] == '-'
        &&& s[a + 2] == '>'
        &&& ts_shape_at(s, skip_ws_from(s, a + 3))
    }
}

/// The leftmost position where a timestamp pair begins.
pub open spec fn first_ts_pair_from(s: Seq<char>, i: int) -> Option<int>
    decreases s.len() - i,
{
    if i < 0 || i + 12 > s.len() {
        Option::None
    } else if ts_pair_at(s, i) {
        Option::Some(i)
    } else {
        first_ts_pair_from(s, i + 1)
    }
}

/// The two timestamps captured from a line, if it holds a pair.
pub open spec fn spec_ts_captures(s: Seq<char>) -> Option<(Seq<char>, Seq<char>)> {
    match first_ts_pair_from(s, 0) {
        Option::None => Option::None,
        Option::Some(i) => {
            let a = skip_ws_from(s, i + 12);
            let b = skip_ws_from(s, a + 3);
            Option::Some((s.subrange(i, i + 12), s.subrange(b, b + 12)))
        },
    }
}

proof fn lemma_skip_ws_bounds(s: Seq<char>, i: int)
    requires
        0 <= i <= s.len(),
    ensures
        i <= skip_ws_from(s, i) <= s.len(),
    decreases s.len() - i,
{
    if i < s.len() && is_ws(s[i]) {
        lemma_skip_ws_bounds(s, i + 1);
    }
}

/// Tests whether a timestamp starts at `i`.
fn ts_shape_at_exec(s: &Vec<char>, i: usize) -> (r: bool)
    requires
        i + 12 <= s.len(),
    ensures
        r == ts_shape_at(s@, i as int),
{
    let d = |c: char| -> (b: bool)
        ensures
            b == is_digit(c),
        { '0' <= c && c <= '9' };
    d(s[i]) && d(s[i + 1]) && s[i + 2] == ':' && d(s[i + 3]) && d(s[i + 4]) && s[i + 5] == ':'
        && d(s[i + 6]) && d(s[i + 7]) && s[i + 8] == ',' && d(s[i + 9]) && d(s[i + 10]) && d(
        s[i + 11],
    )
}

/// Advances past whitespace.
#[verifier::loop_isolation(false)]
fn skip_ws_exec(s: &Vec<char>, i: usize) -> (r: usize)
    requires
        i <= s.len(),
    ensures
        r == skip_ws_from(s@, i as int),
        i <= r <= s.len(),
{
    let mut j = i;
    while j < s.len() && crate::text::ws_char(s[j])
        invariant
            i <= j <= s.len(),
            skip_ws_from(s@, i as int) == skip_ws_from(s@, j as int),
        decreases s.len() - j,
    {
        j = j + 1;
    }
    j
}

/// Tests whether a whole timestamp pair starts at `i`.
fn ts_pair_at_exec(s: &Vec<char>, i: usize) -> (r: bool)
    requires
        i + 12 <= s.len(),
    ensures
        r == ts_pair_at(s@, i as int),
{
    if !ts_shape_at_exec(s, i) {
        return false;
    }
    let a = skip_ws_exec(s, i + 12);
    if s.len() - a < 3 {
        return false;
    }
    if !(s[a] == '-' && s[a + 1] == '-' && s[a + 2] == '>') {
        return false;
    }
    let b = skip_ws_exec(s, a + 3);
    if s.len() - b < 12 {
        proof {
            lemma_skip_ws_bounds(s@, a + 3);
        }
        return false;
    }
    ts_shape_at_exec(s, b)
}

/// Finds the two timestamps of a line.
#[verifier::loop_isolation(false)]
fn ts_captures(s: &Vec<char>) -> (r: Option<(Vec<char>, Vec<char>)>)
    ensures
        match r {
            Some((a, b)) => spec_ts_captures(s@) == Option::Some((a@, b@)),
            None => spec_ts_captures(s@) is None,
        },
{
    if s.len() < 12 {
        return None;
    }
    let last = s.len() - 12;
    let mut i: usize = 0;
    while i <= last
        invariant
            i <= last + 1,
            last == s.len() - 12,
            s@.len() >= 12,
            first_ts_pair_from(s@, 0) == first_ts_pair_from(s@, i as int),
        decreases last + 1 - i,
    {
        if ts_pair_at_exec(s, i) {
            let a = skip_ws_exec(s, i + 12);
            let b = skip_ws_exec(s, a + 3);
            let first = sub_chars(s, i, i + 12);
            let second = sub_chars(s, b, b + 12);
            return Some((first, second));
        }
        i = i + 1;
    }
    None
}

// ---------------------------------------------------------------------------
// Parsing
// ---------------------------------------------------------------------------

/// What one SubRip block yields: an index line, a timestamp line, and the
/// remaining lines as the text.  A malformed block yields nothing.
pub open spec fn srt_block_entry(block: Seq<char>) -> Option<SubtitleEntryV> {
    let b = spec_trim(block);
    if b.len() == 0 {
        Option::None
    } else {
        let ls = spec_lines(b);
        if ls.len() < 2 {
            Option::None
        } else {
            let idx_part = spec_trim(ls[0]);
            if idx_part.len() > 0 && all_digits(idx_part) && digits_to_nat(idx_part)
                <= usize::MAX {
                match spec_ts_captures(spec_trim(ls[1])) {
                    Option::None => Option::None,
                    Option::Some((start, end)) => Option::Some(
                        SubtitleEntryV {
                            index: digits_to_nat(idx_part) as usize,
                            start_time: start,
                            end_time: end,
                            text: if ls.len() > 2 {
                                join_lines(ls.skip(2))
                            } else {
                                Seq::empty()
                            },
                            metadata: Option::None,
                        },
                    ),
                }
            } else {
                Option::None
            }
        }
    }
}

/// The entries of a SubRip file: one per well-formed block.
pub open spec fn spec_srt_entries(blocks: Seq<Seq<char>>) -> Seq<SubtitleEntryV>
    decreases blocks.len(),
{
    if blocks.len() == 0 {
        Seq::empty()
    } else {
        spec_srt_entries(blocks.drop_last()) + (match srt_block_entry(blocks.last()) {
            Option::None => Seq::empty(),
            Option::Some(e) => seq![e],
        })
    }
}

/// What a whole SubRip document parses to.
pub open spec fn spec_srt_parse(content: Seq<char>) -> Seq<SubtitleEntryV> {
    spec_srt_entries(split_by(spec_normalize_newlines(content), seq!['\n', '\n']))
}

/// Parses a SubRip document; a document without one well-formed block is
/// an error.
#[verifier::loop_isolation(false)]
pub fn parse(content: &str) -> (r: Result<SubtitleFile, String>)
    ensures
        match r {
            Ok(f) => {
                &&& f.format == SubtitleFormat::Srt
                &&& f.headers is None
                &&& entry_seq_view(f.entries@) == spec_srt_parse(content@)
                &&& spec_srt_parse(content@).len() > 0
            },
            Err(m) => spec_srt_parse(content@).len() == 0 && m@
                == "No valid subtitle entries found"@,
        },
{
    let chars = str_to_chars(content);
    let normalized = crate::text::normalize_newlines(&chars);
    let mut sep: Vec<char> = Vec::new();
    sep.push('\n');
    sep.push('\n');
    assert(sep@ =~= seq!['\n', '\n']);
    let blocks = split_by_chars(&normalized, &sep);
    let ghost sblocks = blocks@.map_values(|b: Vec<char>| b@);

    let mut entries: Vec<SubtitleEntry> = Vec::new();
    let mut k: usize = 0;
    proof {
        assert(sblocks.take(0) =~= Seq::<Seq<char>>::empty());
        assert(entry_seq_view(entries@) =~= spec_srt_entries(sblocks.take(0)));
    }
    while k < blocks.len()
        invariant
            k <= blocks.len(),
            sblocks == blocks@.map_values(|b: Vec<char>| b@),
            sblocks == split_by(spec_normalize_newlines(content@), seq!['\n', '\n']),
            entry_seq_view(entries@) == spec_srt_entries(sblocks.take(k as int)),
        decreases blocks.len() - k,
    {
        proof {
            assert(sblocks.take(k + 1).drop_last() =~= sblocks.take(k as int));
            assert(sblocks.take(k + 1).last() == sblocks[k as int]);
        }
        let block = trim_chars(&blocks[k]);
        if block.len() > 0 {
            let ls = split_lines(&block);
            let ghost sls = ls@.map_values(|l: Vec<char>| l@);
            if ls.len() >= 2 {
                let idx_part = trim_chars(&ls[0]);
                match parse_usize(&idx_part) {
                    Some(index) => {
                        let ts_line = trim_chars(&ls[1]);
                        match ts_captures(&ts_line) {
                            Some((start, end)) => {
                                let mut text: Vec<char> = Vec::new();
                                if ls.len() > 2 {
                                    let mut j: usize = 2;
                                    proof {
                                        assert(sls.skip(2).take(0) =~= Seq::<Seq<char>>::empty());
                                        assert(text@ =~= join_lines(sls.skip(2).take(0)));
                                    }
                                    while j < ls.len()
                                        invariant
                                            2 <= j <= ls.len(),
                                            sls == ls@.map_values(|l: Vec<char>| l@),
                                            sls.len() >= 2,
                                            text@ == join_lines(sls.skip(2).take(j - 2)),
                                        decreases ls.len() - j,
                                    {
                                        proof {
                                            assert(sls.skip(2).take(j - 2 + 1).drop_last()
                                                =~= sls.skip(2).take(j - 2));
                                            assert(sls.skip(2).take(j - 2 + 1).last() == sls[
                                                j as int]);
                                        }
                                        if j > 2 {
                                            text.push('\n');
                                        }
                                        push_all(&mut text, &ls[j]);
                                        proof {
                                            if j == 2 {
                                                assert(text@ =~= join_lines(sls.skip(2).take(
                                                    j - 2 + 1,
                                                )));
                                            } else {
                                                assert(text@ =~= join_lines(sls.skip(2).take(
                                                    j - 2 + 1,
                                                )));
                                            }
                                        }
                                        j = j + 1;
                                    }
                                    proof {
                                        assert(sls.skip(2).take(j - 2) =~= sls.skip(2));
                                    }
                                }
                                let ghost prev = entries@;
                                entries.push(
                                    SubtitleEntry {
                                        index,
                                        start_time: chars_to_string(&start),
                                        end_time: chars_to_string(&end),
                                        text: chars_to_string(&text),
                                        metadata: None,
                                    },
                                );
                                proof {
                                    assert(entry_seq_view(entries@) =~= entry_seq_view(prev)
                                        + seq![entry_seq_view(entries@).last()]);
                                    assert(entry_seq_view(entries@) =~= spec_srt_entries(
                                        sblocks.take(k + 1),
                                    ));
                                }
                            },
                            None => {},
                        }
                    },
                    None => {},
                }
            }
        }
        proof {
            assert(entry_seq_view(entries@) =~= spec_srt_entries(sblocks.take(k + 1)));
        }
        k = k + 1;
    }
    proof {
        assert(sblocks.take(k as int) =~= sblocks);
    }
    if entries.len() == 0 {
        Err(String::from_str("No valid subtitle entries found"))
    } else {
        proof {
            reveal_strlit("No valid subtitle entries found");
        }
        Ok(SubtitleFile { format: SubtitleFormat::Srt, entries, headers: None })
    }
}

// ---------------------------------------------------------------------------
// Serialization
// ---------------------------------------------------------------------------

/// One serialized block: index, timestamps, text, and a blank line.
pub open spec fn srt_entry_text(e: SubtitleEntryV) -> Seq<char> {
    dec_rep(e.index as nat) + seq!['\n'] + e.start_time + " --> "@ + e.end_time + seq!['\n']
        + e.text + seq!['\n', '\n']
}

/// The blocks of every entry, concatenated.
pub open spec fn srt_body(es: Seq<SubtitleEntryV>) -> Seq<char>
    decreases es.len(),
{
    if es.len() == 0 {
        Seq::empty()
    } else {
        srt_body(es.drop_last()) + srt_entry_text(es.last())
    }
}

/// A serialized SubRip document: the blocks, with trailing whitespace
/// replaced by one final newline.
pub open spec fn spec_srt_serialize(es: Seq<SubtitleEntryV>) -> Seq<char> {
    spec_trim_end(srt_body(es)) + seq!['\n']
}

/// Writes a SubRip document.
#[verifier::loop_isolation(false)]
pub fn serialize(file: &SubtitleFile) -> (r: String)
    ensures
        r@ == spec_srt_serialize(entry_seq_view(file.entries@)),
{
    let ghost es = entry_seq_view(file.entries@);
    let mut out: Vec<char> = Vec::new();
    let mut i: usize = 0;
    proof {
        assert(es.take(0) =~= Seq::<SubtitleEntryV>::empty());
        assert(out@ =~= srt_body(es.take(0)));
    }
    while i < file.entries.len()
        invariant
            i <= file.entries.len(),
            es == entry_seq_view(file.entries@),
            es.len() == file.entries@.len(),
            out@ == srt_body(es.take(i as int)),
        decreases file.entries.len() - i,
    {
        proof {
            assert(es.take(i + 1).drop_last() =~= es.take(i as int));
            assert(es.take(i + 1).last() == es[i as int]);
        }
        let e = &file.entries[i];
        let idx_chars = usize_to_chars(e.index);
        push_all(&mut out, &idx_chars);
        out.push('\n');
        let start_chars = str_to_chars(e.start_time.as_str());
        push_all(&mut out, &start_chars);
        let arrow = str_to_chars(" --> ");
        push_all(&mut out, &arrow);
        let end_chars = str_to_chars(e.end_time.as_str());
        push_all(&mut out, &end_chars);
        out.push('\n');
        let text_chars = str_to_chars(e.text.as_str());
        push_all(&mut out, &text_chars);
        out.push('\n');
        out.push('\n');
        proof {
            assert(out@ =~= srt_body(es.take(i + 1)));
        }
        i = i + 1;
    }
    proof {
        assert(es.take(i as int) =~= es);
    }
    let mut trimmed = trim_end_chars(&out);
    trimmed.push('\n');
    chars_to_string(&trimmed)
}

} // verus!
