//! Protocol codec: the line-oriented `INDEX|TEXT` micro-protocol carried
//! inside free-form model responses.
//!
//! Encoding turns a batch of `(index, text)` entries into one line per
//! entry, with every line break of the text replaced by a reversible
//! placeholder token.  Decoding scans a response line by line, skipping
//! code fences and `<think>` blocks, opening a new record at every
//! `INDEX|TEXT` header and appending stray lines to the open record.

use vstd::prelude::*;

use crate::text::{
    all_digits, chars_to_string, dec_rep, digits_to_nat, find_sub, first_match_from, has_prefix,
    lemma_first_match_from, parse_usize, push_all, spec_lines, spec_trim,
    spec_trim_end, split_lines, starts_with_chars, str_to_chars, sub_chars, trim_chars,
    trim_end_chars, usize_to_chars,
};

verus! {

// ---------------------------------------------------------------------------
// The newline placeholder
// ---------------------------------------------------------------------------

/// The token that stands for a line break while an entry travels through
/// the protocol; chosen so that it does not occur in natural text.
pub const NEWLINE_PLACEHOLDER: &'static str = "<<NEWLINE>>";

/// The characters of the newline placeholder.
pub open spec fn placeholder() -> Seq<char> {
    seq!['<', '<', 'N', 'E', 'W', 'L', 'I', 'N', 'E', '>', '>']
}

/// The placeholder constant spells the placeholder characters.
pub proof fn lemma_placeholder_chars()
    ensures
        NEWLINE_PLACEHOLDER@ == placeholder(),
{
    reveal_strlit("<<NEWLINE>>");
    assert(NEWLINE_PLACEHOLDER@ =~= placeholder());
}

/// Builds the placeholder as a character vector.
pub fn placeholder_chars() -> (v: Vec<char>)
    ensures
        v@ == placeholder(),
{
    let mut v: Vec<char> = Vec::new();
    v.push('<');
    v.push('<');
    v.push('N');
    v.push('E');
    v.push('W');
    v.push('L');
    v.push('I');
    v.push('N');
    v.push('E');
    v.push('>');
    v.push('>');
    assert(v@ =~= placeholder());
    v
}

// ---------------------------------------------------------------------------
// Escaping line breaks
// ---------------------------------------------------------------------------

/// An escape pair (`\N` or `\n`) starts at the head of `s`.
pub open spec fn escape_pair_at(s: Seq<char>, i: int) -> bool {
    0 <= i && i + 2 <= s.len() && s[i] == '\\' && (s[i + 1] == 'N' || s[i + 1] == 'n')
}

/// `s` with every `\N` and `\n` escape pair and every literal newline
/// replaced by the placeholder, scanning left to right.
pub open spec fn spec_escape(s: Seq<char>) -> Seq<char>
    decreases s.len(),
{
    if s.len() == 0 {
        Seq::empty()
    } else if escape_pair_at(s, 0) {
        placeholder() + spec_escape(s.skip(2))
    } else if s[0] == '\n' {
        placeholder() + spec_escape(s.skip(1))
    } else {
        seq![s[0]] + spec_escape(s.skip(1))
    }
}

/// Replaces the line-break forms of `text` by the placeholder.
#[verifier::loop_isolation(false)]
pub fn escape_newlines(text: &Vec<char>) -> (r: Vec<char>)
    ensures
        r@ == spec_escape(text@),
{
    let ph = placeholder_chars();
    let mut out: Vec<char> = Vec::new();
    let mut i: usize = 0;
    assert(text@.skip(0) =~= text@);
    assert(out@ + spec_escape(text@) =~= spec_escape(text@));
    while i < text.len()
        invariant
            i <= text.len(),
            ph@ == placeholder(),
            spec_escape(text@) == out@ + spec_escape(text@.skip(i as int)),
        decreases text.len() - i,
    {
        proof {
            assert(text@.skip(i as int)[0] == text@[i as int]);
            assert(text@.skip(i as int).skip(1) =~= text@.skip(i + 1));
            if i + 2 <= text@.len() {
                assert(text@.skip(i as int).skip(2) =~= text@.skip(i + 2));
            }
            if i + 1 < text@.len() {
                assert(text@.skip(i as int)[1] == text@[i + 1]);
            }
        }
        let c = text[i];
        if c == '\\' && i + 1 < text.len() && (text[i + 1] == 'N' || text[i + 1] == 'n') {
            push_all(&mut out, &ph);
            i = i + 2;
        } else if c == '\n' {
            push_all(&mut out, &ph);
            i = i + 1;
        } else {
            out.push(c);
            i = i + 1;
        }
    }
    assert(text@.skip(i as int) =~= Seq::<char>::empty());
    assert(out@ =~= out@ + spec_escape(text@.skip(i as int)));
    out
}

// ---------------------------------------------------------------------------
// Unescaping line breaks
// ---------------------------------------------------------------------------

/// `s` with every placeholder and every remaining `\N`/`\n` escape pair
/// turned back into a literal newline, scanning left to right.
pub open spec fn spec_unescape(s: Seq<char>) -> Seq<char>
    decreases s.len(),
{
    if s.len() == 0 {
        Seq::empty()
    } else if s.len() >= 11 && s.take(11) == placeholder() {
        seq!['\n'] + spec_unescape(s.skip(11))
    } else if escape_pair_at(s, 0) {
        seq!['\n'] + spec_unescape(s.skip(2))
    } else {
        seq![s[0]] + spec_unescape(s.skip(1))
    }
}

/// Turns placeholders and escape pairs back into literal newlines.
#[verifier::loop_isolation(false)]
pub fn unescape_newlines(text: &Vec<char>) -> (r: Vec<char>)
    ensures
        r@ == spec_unescape(text@),
{
    let ph = placeholder_chars();
    let mut out: Vec<char> = Vec::new();
    let mut i: usize = 0;
    assert(text@.skip(0) =~= text@);
    assert(out@ + spec_unescape(text@) =~= spec_unescape(text@));
    while i < text.len()
        invariant
            i <= text.len(),
            ph@ == placeholder(),
            spec_unescape(text@) == out@ + spec_unescape(text@.skip(i as int)),
        decreases text.len() - i,
    {
        proof {
            assert(text@.skip(i as int)[0] == text@[i as int]);
            assert(text@.skip(i as int).skip(1) =~= text@.skip(i + 1));
            if i + 2 <= text@.len() {
                assert(text@.skip(i as int).skip(2) =~= text@.skip(i + 2));
            }
            if i + 11 <= text@.len() {
                assert(text@.skip(i as int).skip(11) =~= text@.skip(i + 11));
            }
            if i + 1 < text@.len() {
                assert(text@.skip(i as int)[1] == text@[i + 1]);
            }
        }
        let is_ph = text.len() - i >= 11 && {
            let w = sub_chars(text, i, i + 11);
            let eq = crate::text::eq_chars(&w, &ph);
            proof {
                assert(w@ =~= text@.skip(i as int).take(11));
            }
            eq
        };
        if is_ph {
            out.push('\n');
            i = i + 11;
        } else {
            let c = text[i];
            if c == '\\' && i + 1 < text.len() && (text[i + 1] == 'N' || text[i + 1] == 'n') {
                out.push('\n');
                i = i + 2;
            } else {
                out.push(c);
                i = i + 1;
            }
        }
    }
    assert(text@.skip(i as int) =~= Seq::<char>::empty());
    assert(out@ =~= out@ + spec_unescape(text@.skip(i as int)));
    out
}

// ---------------------------------------------------------------------------
// Encoding a batch
// ---------------------------------------------------------------------------

/// One protocol line: the entry's index in decimal, a `|`, and the escaped
/// text.
pub open spec fn spec_encode_entry(index: usize, text: Seq<char>) -> Seq<char> {
    dec_rep(index as nat) + seq!['|'] + spec_escape(text)
}

/// The protocol lines of a batch, joined by newlines.
pub open spec fn spec_encode_batch(entries: Seq<(usize, String)>) -> Seq<char>
    decreases entries.len(),
{
    if entries.len() == 0 {
        Seq::empty()
    } else if entries.len() == 1 {
        spec_encode_entry(entries[0].0, entries[0].1@)
    } else {
        spec_encode_batch(entries.drop_last()) + seq!['\n'] + spec_encode_entry(
            entries.last().0,
            entries.last().1@,
        )
    }
}

/// Encodes a batch, one line per entry.
#[verifier::loop_isolation(false)]
pub fn encode_batch(entries: &Vec<(usize, String)>) -> (r: String)
    ensures
        r@ == spec_encode_batch(entries@),
{
    let mut out: Vec<char> = Vec::new();
    let mut i: usize = 0;
    while i < entries.len()
        invariant
            i <= entries.len(),
            out@ == spec_encode_batch(entries@.take(i as int)),
        decreases entries.len() - i,
    {
        proof {
            assert(entries@.take(i + 1).drop_last() =~= entries@.take(i as int));
            assert(entries@.take(i + 1).last() == entries@[i as int]);
        }
        if i > 0 {
            out.push('\n');
        }
        let ghost before = out@;
        let line = usize_to_chars(entries[i].0);
        push_all(&mut out, &line);
        out.push('|');
        let escaped = escape_newlines(&str_to_chars(entries[i].1.as_str()));
        push_all(&mut out, &escaped);
        proof {
            assert(out@ =~= before + spec_encode_entry(entries@[i as int].0, entries@[
                i as int].1@));
            if i == 0 {
                assert(out@ =~= spec_encode_batch(entries@.take(i + 1)));
            } else {
                assert(out@ =~= spec_encode_batch(entries@.take(i + 1)));
            }
        }
        i = i + 1;
    }
    assert(entries@.take(i as int) =~= entries@);
    chars_to_string(&out)
}

// ---------------------------------------------------------------------------
// The instruction preamble
// ---------------------------------------------------------------------------

/// Head of the format instructions that follow the caller's prompt.
pub const INSTRUCTION_HEAD: &'static str = "\n\n---\nCRITICAL FORMAT INSTRUCTIONS:\n1. Return translations in EXACTLY this format: INDEX|TRANSLATED_TEXT\n2. Each subtitle must be on its own line: number|translated text\n3. The marker ";

/// Between the first and second placeholder mentions.
pub const INSTRUCTION_MID_A: &'static str =
    " represents a LINE BREAK within a subtitle. You MUST preserve it exactly as-is in your translation.\n   Example input:  5|It's a special event";

/// Between the second and third placeholder mentions.
pub const INSTRUCTION_MID_B: &'static str =
    "that everyone attends\n   Example output: 5|\u{c9} um evento especial";

/// Between the third and fourth placeholder mentions.
pub const INSTRUCTION_MID_C: &'static str =
    "que todos participam\n4. Do NOT remove, split, or modify ";

/// Tail of the format instructions.
pub const INSTRUCTION_TAIL: &'static str =
    " markers - they indicate where line breaks occur in the subtitle display.";

/// The full instruction text for a prompt: the prompt followed by the
/// format rules, with the placeholder spelled out at each mention.
pub open spec fn spec_instruction(prompt: Seq<char>) -> Seq<char> {
    prompt + INSTRUCTION_HEAD@ + placeholder() + INSTRUCTION_MID_A@ + placeholder()
        + INSTRUCTION_MID_B@ + placeholder() + INSTRUCTION_MID_C@ + placeholder()
        + INSTRUCTION_TAIL@
}

/// Builds the instruction preamble sent ahead of an encoded batch.
pub fn build_instruction(prompt: &str) -> (r: String)
    ensures
        r@ == spec_instruction(prompt@),
{
    proof {
        lemma_placeholder_chars();
    }
    let mut out = String::from_str(prompt);
    out.append(INSTRUCTION_HEAD);
    out.append(NEWLINE_PLACEHOLDER);
    out.append(INSTRUCTION_MID_A);
    out.append(NEWLINE_PLACEHOLDER);
    out.append(INSTRUCTION_MID_B);
    out.append(NEWLINE_PLACEHOLDER);
    out.append(INSTRUCTION_MID_C);
    out.append(NEWLINE_PLACEHOLDER);
    out.append(INSTRUCTION_TAIL);
    out
}

/// Joins an instruction and an encoded batch into the single user message
/// of a request; an empty batch sends the instruction alone.
pub open spec fn spec_user_content(instruction: Seq<char>, body: Seq<char>) -> Seq<char> {
    if body.len() == 0 {
        instruction
    } else {
        instruction + seq!['\n', '\n'] + body
    }
}

/// Builds the single user message of a request.
pub fn build_user_content(instruction: &str, body: &str) -> (r: String)
    ensures
        r@ == spec_user_content(instruction@, body@),
{
    let body_chars = str_to_chars(body);
    if body_chars.len() == 0 {
        return String::from_str(instruction);
    }
    let mut out = str_to_chars(instruction);
    out.push('\n');
    out.push('\n');
    push_all(&mut out, &body_chars);
    assert(out@ =~= spec_user_content(instruction@, body@));
    chars_to_string(&out)
}

// ---------------------------------------------------------------------------
// Stripping think blocks
// ---------------------------------------------------------------------------

/// The opening marker of a reasoning block.
pub open spec fn think_open() -> Seq<char> {
    seq!['<', 't', 'h', 'i', 'n', 'k', '>']
}

/// The closing marker of a reasoning block.
pub open spec fn think_close() -> Seq<char> {
    seq!['<', '/', 't', 'h', 'i', 'n', 'k', '>']
}

/// `s` with every paired `<think>...</think>` block removed; an unpaired
/// opening marker is left in place.
pub open spec fn spec_strip_think(s: Seq<char>) -> Seq<char>
    decreases s.len(),
    via spec_strip_think_dec
{
    match first_match_from(s, think_open(), 0) {
        Option::None => s,
        Option::Some(i) => match first_match_from(s, think_close(), i + 7) {
            Option::None => s,
            Option::Some(j) => spec_strip_think(s.take(i) + s.skip(j + 8)),
        },
    }
}

#[via_fn]
proof fn spec_strip_think_dec(s: Seq<char>) {
    lemma_first_match_from(s, think_open(), 0);
    if let Option::Some(i) = first_match_from(s, think_open(), 0) {
        lemma_first_match_from(s, think_close(), i + 7);
    }
}

/// Removes every paired `<think>...</think>` block from a response.
#[verifier::loop_isolation(false)]
pub fn strip_think_blocks(input: &str) -> (r: String)
    ensures
        r@ == spec_strip_think(input@),
{
    let mut open_pat: Vec<char> = Vec::new();
    open_pat.push('<');
    open_pat.push('t');
    open_pat.push('h');
    open_pat.push('i');
    open_pat.push('n');
    open_pat.push('k');
    open_pat.push('>');
    assert(open_pat@ =~= think_open());
    let mut close_pat: Vec<char> = Vec::new();
    close_pat.push('<');
    close_pat.push('/');
    close_pat.push('t');
    close_pat.push('h');
    close_pat.push('i');
    close_pat.push('n');
    close_pat.push('k');
    close_pat.push('>');
    assert(close_pat@ =~= think_close());

    let mut s = str_to_chars(input);
    loop
        invariant
            open_pat@ == think_open(),
            close_pat@ == think_close(),
            spec_strip_think(input@) == spec_strip_think(s@),
        decreases s@.len(),
    {
        let found_open = find_sub(&s, &open_pat, 0);
        if found_open.is_none() {
            break;
        }
        let i = found_open.unwrap();
        let s_len = s.len();
        proof {
            lemma_first_match_from(s@, open_pat@, 0);
            assert(i + 7 <= s_len);
        }
        let found_close = find_sub(&s, &close_pat, i + 7);
        if found_close.is_none() {
            break;
        }
        let j = found_close.unwrap();
        proof {
            lemma_first_match_from(s@, close_pat@, (i + 7) as int);
            assert(j + 8 <= s@.len());
        }
        let s_len = s.len();
        let mut next = sub_chars(&s, 0, i);
        let tail = sub_chars(&s, j + 8, s_len);
        push_all(&mut next, &tail);
        assert(next@ =~= s@.take(i as int) + s@.skip(j + 8));
        s = next;
    }
    chars_to_string(&s)
}


// ---------------------------------------------------------------------------
// Parsing a single protocol line
// ---------------------------------------------------------------------------

/// The code-fence marker that opens or closes a fenced block.
pub open spec fn fence() -> Seq<char> {
    seq!['`', '`', '`']
}

/// The header of a protocol line: the text before the first `|`, trimmed,
/// must be a digit string that fits an index; the rest of the line is the
/// raw payload.
pub open spec fn header_of(line: Seq<char>) -> Option<(usize, Seq<char>)> {
    match first_match_from(line, seq!['|'], 0) {
        Option::None => Option::None,
        Option::Some(p) => {
            let idx_part = spec_trim(line.take(p));
            if idx_part.len() > 0 && all_digits(idx_part) && digits_to_nat(idx_part) <= usize::MAX {
                Option::Some((digits_to_nat(idx_part) as usize, line.skip(p + 1)))
            } else {
                Option::None
            }
        },
    }
}

/// What a single protocol line decodes to: empty and fenced lines carry
/// nothing; a line with a valid header yields its index and the unescaped
/// payload.
pub open spec fn spec_parse_line(line: Seq<char>) -> Option<(usize, Seq<char>)> {
    if line.len() == 0 || has_prefix(line, fence()) {
        Option::None
    } else {
        match header_of(line) {
            Option::Some((i, t)) => Option::Some((i, spec_unescape(t))),
            Option::None => Option::None,
        }
    }
}

/// Reads the header of a protocol line, without unescaping the payload.
fn parse_header(line: &Vec<char>) -> (r: Option<(usize, Vec<char>)>)
    ensures
        match r {
            Some((i, t)) => header_of(line@) == Option::Some((i, t@)),
            None => header_of(line@) is None,
        },
{
    let mut bar: Vec<char> = Vec::new();
    bar.push('|');
    assert(bar@ =~= seq!['|']);
    let found = find_sub(line, &bar, 0);
    if found.is_none() {
        return None;
    }
    let p = found.unwrap();
    proof {
        lemma_first_match_from(line@, bar@, 0);
    }
    let line_len = line.len();
    let head = sub_chars(line, 0, p);
    assert(head@ =~= line@.take(p as int));
    let idx_part = trim_chars(&head);
    let parsed = parse_usize(&idx_part);
    if parsed.is_none() {
        return None;
    }
    let idx = parsed.unwrap();
    let rest = sub_chars(line, p + 1, line_len);
    assert(rest@ =~= line@.skip(p + 1));
    Some((idx, rest))
}

/// Parses one protocol line into an entry, unescaping its payload.
pub fn parse_translation_line(line: &str) -> (r: Option<(usize, String)>)
    ensures
        match r {
            Some((i, t)) => spec_parse_line(line@) == Option::Some((i, t@)),
            None => spec_parse_line(line@) is None,
        },
{
    let chars = str_to_chars(line);
    let mut fence_pat: Vec<char> = Vec::new();
    fence_pat.push('`');
    fence_pat.push('`');
    fence_pat.push('`');
    assert(fence_pat@ =~= fence());
    if chars.len() == 0 || starts_with_chars(&chars, &fence_pat) {
        return None;
    }
    match parse_header(&chars) {
        Some((idx, rest)) => {
            let text = unescape_newlines(&rest);
            Some((idx, chars_to_string(&text)))
        },
        None => None,
    }
}

// ---------------------------------------------------------------------------
// Decoding a whole response
// ---------------------------------------------------------------------------

/// Flushes the record that is currently open: its payload is unescaped.
pub open spec fn flush_open(cur: Option<(usize, Seq<char>)>) -> Seq<(usize, Seq<char>)> {
    match cur {
        Option::None => Seq::empty(),
        Option::Some((i, t)) => seq![(i, spec_unescape(t))],
    }
}

/// The decode state machine, one line at a time: a line with a valid
/// header closes the open record and opens a new one; empty and fenced
/// lines are skipped; any other line is appended to the open record,
/// joined by a newline.
pub open spec fn decode_lines(
    lines: Seq<Seq<char>>,
    cur: Option<(usize, Seq<char>)>,
) -> Seq<(usize, Seq<char>)>
    decreases lines.len(),
{
    if lines.len() == 0 {
        flush_open(cur)
    } else {
        let line = spec_trim_end(lines[0]);
        if line.len() == 0 || has_prefix(line, fence()) {
            decode_lines(lines.drop_first(), cur)
        } else {
            match header_of(line) {
                Option::Some((i, t)) => flush_open(cur) + decode_lines(
                    lines.drop_first(),
                    Option::Some((i, t)),
                ),
                Option::None => match cur {
                    Option::Some((ci, ct)) => decode_lines(
                        lines.drop_first(),
                        Option::Some(
                            (
                                ci,
                                if ct.len() == 0 {
                                    line
                                } else {
                                    ct + seq!['\n'] + line
                                },
                            ),
                        ),
                    ),
                    Option::None => decode_lines(lines.drop_first(), cur),
                },
            }
        }
    }
}

/// What a whole response decodes to, once its `<think>` blocks are
/// stripped.
pub open spec fn spec_decode(response: Seq<char>) -> Seq<(usize, Seq<char>)> {
    decode_lines(spec_lines(spec_strip_think(response)), Option::None)
}

/// View of the open record held during decoding.
pub open spec fn cur_view(c: Option<(usize, Vec<char>)>) -> Option<(usize, Seq<char>)> {
    match c {
        Option::None => Option::None,
        Option::Some((i, t)) => Option::Some((i, t@)),
    }
}

/// View of a list of decoded entries.
pub open spec fn entries_view(v: Seq<(usize, String)>) -> Seq<(usize, Seq<char>)> {
    v.map_values(|p: (usize, String)| (p.0, p.1@))
}

/// Closes the open record into the result list.
fn flush_record(results: &mut Vec<(usize, String)>, cur: Option<(usize, Vec<char>)>)
    ensures
        entries_view(final(results)@) == entries_view(old(results)@) + flush_open(cur_view(cur)),
{
    match cur {
        Some((i, t)) => {
            let text = unescape_newlines(&t);
            let ghost prev = results@;
            results.push((i, chars_to_string(&text)));
            proof {
                assert(entries_view(results@) =~= entries_view(prev) + flush_open(
                    cur_view(Some((i, t))),
                ));
            }
        },
        None => {
            proof {
                assert(entries_view(results@) =~= entries_view(results@) + flush_open(
                    cur_view(None),
                ));
            }
        },
    }
}

/// Decodes a model response into `(index, text)` entries.  An empty result
/// is a decode failure and is reported as an error.
#[verifier::loop_isolation(false)]
pub fn decode_translations(response: &str) -> (r: Result<Vec<(usize, String)>, String>)
    ensures
        match r {
            Ok(v) => entries_view(v@) == spec_decode(response@) && spec_decode(response@).len()
                > 0,
            Err(m) => spec_decode(response@).len() == 0 && m@
                == "Failed to parse translation response"@,
        },
{
    let stripped = strip_think_blocks(response);
    let lines = split_lines(&str_to_chars(stripped.as_str()));
    let ghost slines = lines@.map_values(|l: Vec<char>| l@);

    let mut fence_pat: Vec<char> = Vec::new();
    fence_pat.push('`');
    fence_pat.push('`');
    fence_pat.push('`');
    assert(fence_pat@ =~= fence());

    let mut results: Vec<(usize, String)> = Vec::new();
    let mut cur: Option<(usize, Vec<char>)> = None;
    let mut k: usize = 0;
    proof {
        assert(slines.skip(0) =~= slines);
        assert(entries_view(results@) + decode_lines(slines, cur_view(cur)) =~= decode_lines(
            slines,
            cur_view(cur),
        ));
    }
    while k < lines.len()
        invariant
            k <= lines.len(),
            slines == lines@.map_values(|l: Vec<char>| l@),
            slines == spec_lines(spec_strip_think(response@)),
            fence_pat@ == fence(),
            spec_decode(response@) == entries_view(results@) + decode_lines(
                slines.skip(k as int),
                cur_view(cur),
            ),
        decreases lines.len() - k,
    {
        proof {
            assert(slines.skip(k as int)[0] == slines[k as int]);
            assert(slines.skip(k as int).drop_first() =~= slines.skip(k + 1));
        }
        let line = trim_end_chars(&lines[k]);
        if line.len() == 0 || starts_with_chars(&line, &fence_pat) {
            k = k + 1;
            continue;
        }
        match parse_header(&line) {
            Some((idx, rest)) => {
                let prev = cur;
                flush_record(&mut results, prev);
                cur = Some((idx, rest));
            },
            None => {
                let prev = cur;
                match prev {
                    Some((ci, mut ct)) => {
                        if ct.len() > 0 {
                            let ghost before = ct@;
                            ct.push('\n');
                            push_all(&mut ct, &line);
                            assert(ct@ =~= before + seq!['\n'] + line@);
                        } else {
                            ct = line;
                        }
                        cur = Some((ci, ct));
                    },
                    None => {
                        cur = None;
                    },
                }
            },
        }
        k = k + 1;
    }
    assert(slines.skip(k as int) =~= Seq::<Seq<char>>::empty());
    let last = cur;
    flush_record(&mut results, last);
    if results.len() == 0 {
        assert(spec_decode(response@) =~= entries_view(results@));
        Err(String::from_str("Failed to parse translation response"))
    } else {
        assert(spec_decode(response@) =~= entries_view(results@));
        Ok(results)
    }
}


// ---------------------------------------------------------------------------
// Validating decoded entries against the originals
// ---------------------------------------------------------------------------

/// The text of the first entry carrying `idx`; empty when no entry does.
pub open spec fn original_text_of(entries: Seq<(usize, String)>, idx: usize) -> Seq<char>
    decreases entries.len(),
{
    if entries.len() == 0 {
        Seq::empty()
    } else if entries[0].0 == idx {
        entries[0].1@
    } else {
        original_text_of(entries.drop_first(), idx)
    }
}

/// Every decoded entry keeps the styling tags of its original.
pub open spec fn all_tags_compatible(
    entries: Seq<(usize, String)>,
    results: Seq<(usize, Seq<char>)>,
) -> bool {
    forall|k: int|
        0 <= k < results.len() ==> crate::tags::spec_tags_compatible(
            original_text_of(entries, #[trigger] results[k].0),
            results[k].1,
        )
}

/// Looks up the original text of an index.
#[verifier::loop_isolation(false)]
fn original_text(entries: &Vec<(usize, String)>, idx: usize) -> (r: String)
    ensures
        r@ == original_text_of(entries@, idx),
{
    let mut i: usize = 0;
    proof {
        assert(entries@.skip(0) =~= entries@);
    }
    while i < entries.len()
        invariant
            i <= entries.len(),
            original_text_of(entries@, idx) == original_text_of(entries@.skip(i as int), idx),
        decreases entries.len() - i,
    {
        proof {
            assert(entries@.skip(i as int)[0] == entries@[i as int]);
            assert(entries@.skip(i as int).drop_first() =~= entries@.skip(i + 1));
        }
        if entries[i].0 == idx {
            return entries[i].1.clone();
        }
        i = i + 1;
    }
    assert(entries@.skip(i as int) =~= Seq::<(usize, String)>::empty());
    String::new()
}

/// Decodes a response and enforces tag compatibility for the whole batch:
/// an empty decode is an error, and any tag mismatch rejects the batch with
/// a diagnostic that samples up to three mismatched pairs.
#[verifier::loop_isolation(false)]
pub fn parse_translated_batch(entries: &Vec<(usize, String)>, response: &str) -> (r: Result<
    Vec<(usize, String)>,
    String,
>)
    ensures
        match r {
            Ok(v) => {
                &&& entries_view(v@) == spec_decode(response@)
                &&& spec_decode(response@).len() > 0
                &&& all_tags_compatible(entries@, spec_decode(response@))
            },
            Err(m) => {
                &&& (spec_decode(response@).len() == 0 || !all_tags_compatible(
                    entries@,
                    spec_decode(response@),
                ))
                &&& m@.len() > 0
            },
        },
{
    let results = match decode_translations(response) {
        Ok(v) => v,
        Err(m) => {
            proof {
                reveal_strlit("Failed to parse translation response");
            }
            return Err(m);
        },
    };
    let ghost dec = spec_decode(response@);

    let mut warns: Vec<(usize, String, String)> = Vec::new();
    let mut i: usize = 0;
    while i < results.len()
        invariant
            i <= results.len(),
            entries_view(results@) == dec,
            results@.len() == dec.len(),
            warns@.len() == 0 ==> forall|k: int|
                0 <= k < i ==> crate::tags::spec_tags_compatible(
                    original_text_of(entries@, #[trigger] dec[k].0),
                    dec[k].1,
                ),
            warns@.len() > 0 ==> !all_tags_compatible(entries@, dec),
        decreases results.len() - i,
    {
        let orig = original_text(entries, results[i].0);
        proof {
            assert(dec[i as int] == (results@[i as int].0, results@[i as int].1@));
        }
        if !crate::tags::tags_compatible(orig.as_str(), results[i].1.as_str()) {
            proof {
                assert(!crate::tags::spec_tags_compatible(
                    original_text_of(entries@, dec[i as int].0),
                    dec[i as int].1,
                ));
            }
            warns.push((results[i].0, orig, results[i].1.clone()));
        }
        i = i + 1;
    }
    if warns.len() == 0 {
        return Ok(results);
    }

    let mut msg = str_to_chars("Translated lines contain incompatible ASS tags. Sample:\n");
    proof {
        reveal_strlit("Translated lines contain incompatible ASS tags. Sample:\n");
    }
    let mut j: usize = 0;
    while j < warns.len() && j < 3
        invariant
            msg@.len() > 0,
        decreases warns.len() - j,
    {
        if j > 0 {
            msg.push('\n');
            msg.push('\n');
        }
        msg.push('#');
        let idx_chars = usize_to_chars(warns[j].0);
        push_all(&mut msg, &idx_chars);
        let head = str_to_chars("\nORIGINAL: ");
        push_all(&mut msg, &head);
        let orig_chars = str_to_chars(warns[j].1.as_str());
        push_all(&mut msg, &orig_chars);
        let mid = str_to_chars("\nTRADUZIDO: ");
        push_all(&mut msg, &mid);
        let trad_chars = str_to_chars(warns[j].2.as_str());
        push_all(&mut msg, &trad_chars);
        j = j + 1;
    }
    Err(chars_to_string(&msg))
}


// ---------------------------------------------------------------------------
// The round-trip law
// ---------------------------------------------------------------------------

/// Escaping copies characters that start no line-break form.
proof fn lemma_escape_copies(t: Seq<char>, k: int)
    requires
        0 <= k <= t.len(),
        forall|j: int| 0 <= j < k ==> t[j] != '\\' && t[j] != '\n',
    ensures
        spec_escape(t) == t.take(k) + spec_escape(t.skip(k)),
    decreases k,
{
    if k == 0 {
        assert(t.skip(0) =~= t);
        assert(spec_escape(t) =~= t.take(0) + spec_escape(t));
    } else {
        assert(!escape_pair_at(t, 0));
        assert(t[0] != '\n');
        lemma_escape_copies(t.skip(1), k - 1);
        assert(t.skip(1).take(k - 1) =~= t.take(k).skip(1));
        assert(t.skip(1).skip(k - 1) =~= t.skip(k));
        assert(seq![t[0]] + (t.skip(1).take(k - 1) + spec_escape(t.skip(k))) =~= t.take(k)
            + spec_escape(t.skip(k)));
    }
}

/// The placeholder holds no backslash and no newline.
proof fn lemma_placeholder_plain()
    ensures
        forall|j: int| 0 <= j < 11 ==> placeholder()[j] != '\\' && placeholder()[j] != '\n',
        forall|j: int| 2 <= j <= 10 ==> placeholder()[j] != '<',
        placeholder()[0] == '<',
        placeholder()[1] == '<',
        placeholder().len() == 11,
{
}

/// If escaped text spells the placeholder's tail, the text itself did.
proof fn lemma_escape_no_fresh_placeholder(t: Seq<char>, k: int)
    requires
        1 <= k <= 11,
        spec_escape(t).len() >= 11 - k,
        spec_escape(t).take(11 - k) == placeholder().skip(k),
    ensures
        t.len() >= 11 - k,
        t.take(11 - k) == placeholder().skip(k),
    decreases 11 - k,
{
    lemma_placeholder_plain();
    if k == 11 {
        assert(t.take(0) =~= placeholder().skip(11));
    } else if t.len() == 0 {
        assert(spec_escape(t).len() == 0);
    } else if escape_pair_at(t, 0) || t[0] == '\n' {
        let e = spec_escape(t);
        assert(e.take(11 - k)[0] == placeholder()[0]);
        assert(placeholder().skip(k)[0] == placeholder()[k]);
        if k == 1 {
            assert(e.take(10)[1] == placeholder()[1]);
            assert(placeholder().skip(1)[1] == placeholder()[2]);
            assert(false);
        } else {
            assert(placeholder()[k] != '<');
            assert(false);
        }
    } else {
        let e = spec_escape(t);
        assert(e == seq![t[0]] + spec_escape(t.skip(1)));
        assert(e.take(11 - k)[0] == t[0]);
        assert(placeholder().skip(k)[0] == placeholder()[k]);
        assert(t[0] == placeholder()[k]);
        assert forall|i: int| 0 <= i < 11 - k - 1 implies #[trigger] spec_escape(t.skip(1))[i]
            == placeholder().skip(k + 1)[i] by {
            assert(spec_escape(t.skip(1))[i] == e[i + 1]);
            assert(e.take(11 - k)[i + 1] == placeholder().skip(k)[i + 1]);
            assert(placeholder().skip(k)[i + 1] == placeholder()[k + 1 + i]);
            assert(placeholder().skip(k + 1)[i] == placeholder()[k + 1 + i]);
        }
        assert(spec_escape(t.skip(1)).take(11 - k - 1) =~= placeholder().skip(k + 1));
        lemma_escape_no_fresh_placeholder(t.skip(1), k + 1);
        assert forall|i: int| 0 <= i < 11 - k implies #[trigger] t.take(11 - k)[i]
            == placeholder().skip(k)[i] by {
            if i == 0 {
            } else {
                assert(t.skip(1).take(11 - k - 1)[i - 1] == placeholder().skip(k + 1)[i - 1]);
                assert(t.skip(1)[i - 1] == t[i]);
                assert(placeholder().skip(k + 1)[i - 1] == placeholder()[k + i]);
                assert(placeholder().skip(k)[i] == placeholder()[k + i]);
            }
        }
        assert(t.take(11 - k) =~= placeholder().skip(k));
    }
}

/// *Round-trip*: escaping a text for transport and undoing the escape
/// yields exactly what undoing the escapes of the raw text yields — every
/// line-break form (`\N`, `\n`, a literal newline, or a placeholder the
/// text already held) comes back as the same literal newline, and every
/// other character is untouched.
pub proof fn lemma_escape_roundtrip(t: Seq<char>)
    ensures
        spec_unescape(spec_escape(t)) == spec_unescape(t),
    decreases t.len(),
{
    lemma_placeholder_plain();
    if t.len() == 0 {
    } else if escape_pair_at(t, 0) {
        let e = spec_escape(t);
        assert(e == placeholder() + spec_escape(t.skip(2)));
        assert(e.take(11) =~= placeholder());
        assert(e.skip(11) =~= spec_escape(t.skip(2)));
        lemma_escape_roundtrip(t.skip(2));
        if t.len() >= 11 {
            assert(t.take(11)[0] == '\\');
            assert(t.take(11) != placeholder());
        }
    } else if t[0] == '\n' {
        let e = spec_escape(t);
        assert(e == placeholder() + spec_escape(t.skip(1)));
        assert(e.take(11) =~= placeholder());
        assert(e.skip(11) =~= spec_escape(t.skip(1)));
        lemma_escape_roundtrip(t.skip(1));
        if t.len() >= 11 {
            assert(t.take(11)[0] == '\n');
            assert(t.take(11) != placeholder());
        }
        assert(!escape_pair_at(t, 0));
        assert(spec_unescape(t) == seq![t[0]] + spec_unescape(t.skip(1)));
    } else if t.len() >= 11 && t.take(11) == placeholder() {
        assert(forall|j: int| 0 <= j < 11 ==> t[j] == placeholder()[j]);
        lemma_escape_copies(t, 11);
        assert(t.take(11) == placeholder());
        let e = spec_escape(t);
        assert(e == placeholder() + spec_escape(t.skip(11)));
        assert(e.take(11) =~= placeholder());
        assert(e.skip(11) =~= spec_escape(t.skip(11)));
        lemma_escape_roundtrip(t.skip(11));
    } else {
        let e = spec_escape(t);
        assert(e == seq![t[0]] + spec_escape(t.skip(1)));
        assert(e[0] == t[0]);
        assert(e.skip(1) =~= spec_escape(t.skip(1)));
        lemma_escape_roundtrip(t.skip(1));

        // The escaped text cannot begin with the placeholder here.
        if e.len() >= 11 && e.take(11) == placeholder() {
            assert(t[0] == '<');
            assert forall|i: int| 0 <= i < 10 implies #[trigger] spec_escape(t.skip(1))[i]
                == placeholder().skip(1)[i] by {
                assert(spec_escape(t.skip(1))[i] == e[i + 1]);
                assert(e.take(11)[i + 1] == placeholder()[i + 1]);
                assert(placeholder().skip(1)[i] == placeholder()[i + 1]);
            }
            assert(spec_escape(t.skip(1)).take(10) =~= placeholder().skip(1));
            lemma_escape_no_fresh_placeholder(t.skip(1), 1);
            assert forall|i: int| 0 <= i < 11 implies #[trigger] t.take(11)[i]
                == placeholder()[i] by {
                if i == 0 {
                } else {
                    assert(t.skip(1).take(10)[i - 1] == placeholder().skip(1)[i - 1]);
                    assert(t.skip(1)[i - 1] == t[i]);
                    assert(placeholder().skip(1)[i - 1] == placeholder()[i]);
                }
            }
            assert(t.take(11) =~= placeholder());
            assert(false);
        }

        // Nor can it begin with an escape pair.
        if escape_pair_at(e, 0) {
            assert(t[0] == '\\');
            assert(e[1] == 'N' || e[1] == 'n');
            assert(e[1] == spec_escape(t.skip(1))[0]);
            if t.skip(1).len() == 0 {
                assert(spec_escape(t.skip(1)).len() == 0);
                assert(e.len() == 1);
            } else if escape_pair_at(t.skip(1), 0) || t.skip(1)[0] == '\n' {
                assert(spec_escape(t.skip(1))[0] == placeholder()[0]);
            } else {
                assert(spec_escape(t.skip(1))[0] == t.skip(1)[0]);
                assert(t[1] == 'N' || t[1] == 'n');
                assert(escape_pair_at(t, 0));
            }
            assert(false);
        }

        assert(spec_unescape(e) == seq![e[0]] + spec_unescape(e.skip(1)));
        assert(spec_unescape(t) == seq![t[0]] + spec_unescape(t.skip(1)));
    }
}


// ---------------------------------------------------------------------------
// Extracting a JSON candidate from a free-form answer
// ---------------------------------------------------------------------------

/// `s` without its leading whitespace.
pub open spec fn spec_trim_start(s: Seq<char>) -> Seq<char> {
    s.skip(crate::text::trim_start_idx(s))
}

/// The lines before the first fenced line.
pub open spec fn lines_before_fence(ls: Seq<Seq<char>>) -> Seq<Seq<char>>
    decreases ls.len(),
{
    if ls.len() == 0 {
        Seq::empty()
    } else if has_prefix(ls[0], fence()) {
        Seq::empty()
    } else {
        seq![ls[0]] + lines_before_fence(ls.drop_first())
    }
}

/// Position of the last `c` in `s`.
pub open spec fn last_index_of(s: Seq<char>, c: char) -> Option<int>
    decreases s.len(),
{
    if s.len() == 0 {
        Option::None
    } else if s.last() == c {
        Option::Some(s.len() - 1)
    } else {
        last_index_of(s.drop_last(), c)
    }
}

/// The JSON object a free-form answer most likely carries: the answer is
/// trimmed, its `<think>` blocks are stripped, a leading code fence is
/// opened and read up to its closing fence, and the text from the first
/// `{` to the last `}` is taken when both exist in that order.
pub open spec fn spec_json_candidate(response: Seq<char>) -> Seq<char> {
    let cleaned = spec_strip_think(spec_trim(response));
    let body = if has_prefix(spec_trim_start(cleaned), fence()) {
        crate::text::join_lines(lines_before_fence(spec_lines(cleaned).drop_first()))
    } else {
        cleaned
    };
    let t = spec_trim(body);
    match (first_match_from(t, seq!['{'], 0), last_index_of(t, '}')) {
        (Option::Some(a), Option::Some(b)) => if a <= b {
            t.subrange(a, b + 1)
        } else {
            t
        },
        _ => t,
    }
}

/// Finds the last `c` of `v`.
#[verifier::loop_isolation(false)]
fn find_last_char(v: &Vec<char>, c: char) -> (r: Option<usize>)
    ensures
        match r {
            Some(i) => last_index_of(v@, c) == Option::Some(i as int),
            None => last_index_of(v@, c) is None,
        },
{
    let mut i: usize = v.len();
    assert(v@.take(i as int) =~= v@);
    while i > 0
        invariant
            i <= v.len(),
            last_index_of(v@, c) == last_index_of(v@.take(i as int), c),
        decreases i,
    {
        proof {
            assert(v@.take(i as int).last() == v@[i - 1]);
            assert(v@.take(i as int).drop_last() =~= v@.take(i - 1));
        }
        if v[i - 1] == c {
            return Some(i - 1);
        }
        i = i - 1;
    }
    assert(v@.take(0) =~= Seq::<char>::empty());
    None
}

/// Cuts the likeliest JSON object out of a free-form answer.
#[verifier::loop_isolation(false)]
pub fn extract_json_candidate(response: &str) -> (r: String)
    ensures
        r@ == spec_json_candidate(response@),
{
    let trimmed = trim_chars(&str_to_chars(response));
    let cleaned_str = strip_think_blocks(chars_to_string(&trimmed).as_str());
    let cleaned = str_to_chars(cleaned_str.as_str());

    let mut fence_pat: Vec<char> = Vec::new();
    fence_pat.push('`');
    fence_pat.push('`');
    fence_pat.push('`');
    assert(fence_pat@ =~= fence());

    let mut j: usize = 0;
    assert(cleaned@.skip(0) =~= cleaned@);
    while j < cleaned.len() && crate::text::ws_char(cleaned[j])
        invariant
            j <= cleaned.len(),
            crate::text::trim_start_idx(cleaned@) == j + crate::text::trim_start_idx(
                cleaned@.skip(j as int),
            ),
        decreases cleaned.len() - j,
    {
        proof {
            assert(cleaned@.skip(j as int).first() == cleaned@[j as int]);
            assert(cleaned@.skip(j as int).drop_first() =~= cleaned@.skip(j + 1));
        }
        j = j + 1;
    }
    proof {
        if j < cleaned@.len() {
            assert(cleaned@.skip(j as int).first() == cleaned@[j as int]);
            assert(crate::text::trim_start_idx(cleaned@.skip(j as int)) == 0);
        } else {
            assert(cleaned@.skip(j as int) =~= Seq::<char>::empty());
        }
        assert(spec_trim_start(cleaned@) == cleaned@.skip(j as int));
    }
    let rest = sub_chars(&cleaned, j, cleaned.len());
    assert(rest@ =~= cleaned@.skip(j as int));
    let fenced = starts_with_chars(&rest, &fence_pat);

    let body: Vec<char> = if fenced {
        let ls = split_lines(&cleaned);
        let ghost sl = ls@.map_values(|l: Vec<char>| l@);
        let mut acc: Vec<char> = Vec::new();
        let ghost kept: Seq<Seq<char>> = Seq::empty();
        let mut kept_count: Ghost<Seq<Seq<char>>> = Ghost(kept);
        let mut k: usize = 1;
        proof {
            crate::text::lemma_lines_nonempty(cleaned@, Seq::empty());
            assert(sl.len() >= 1);
            assert(sl.drop_first() =~= sl.skip(1));
            assert(lines_before_fence(sl.skip(1)) =~= kept_count@ + lines_before_fence(
                sl.skip(1),
            ));
            assert(acc@ =~= crate::text::join_lines(kept_count@));
        }
        while k < ls.len()
            invariant
                1 <= k <= ls.len(),
                sl == ls@.map_values(|l: Vec<char>| l@),
                sl == spec_lines(cleaned@),
                fence_pat@ == fence(),
                lines_before_fence(sl.skip(1)) == kept_count@ + lines_before_fence(
                    sl.skip(k as int),
                ),
                acc@ == crate::text::join_lines(kept_count@),
                kept_count@.len() + 1 == k,
            decreases ls.len() - k,
        {
            proof {
                assert(sl.skip(k as int)[0] == sl[k as int]);
                assert(sl.skip(k as int).drop_first() =~= sl.skip(k + 1));
            }
            if starts_with_chars(&ls[k], &fence_pat) {
                proof {
                    assert(lines_before_fence(sl.skip(k as int)) =~= Seq::<Seq<char>>::empty());
                    assert(lines_before_fence(sl.skip(1)) =~= kept_count@);
                }
                break;
            }
            let ghost acc0 = acc@;
            if k > 1 {
                acc.push('\n');
            }
            push_all(&mut acc, &ls[k]);
            proof {
                let old_kept = kept_count@;
                kept_count@ = kept_count@.push(sl[k as int]);
                assert(kept_count@.drop_last() =~= old_kept);
                assert(kept_count@.last() == sl[k as int]);
                if old_kept.len() == 0 {
                    assert(crate::text::join_lines(kept_count@) == sl[k as int]);
                    assert(acc@ =~= sl[k as int]);
                } else {
                    assert(crate::text::join_lines(kept_count@) == crate::text::join_lines(
                        old_kept,
                    ) + seq!['\n'] + sl[k as int]);
                    assert(acc@ =~= acc0 + seq!['\n'] + sl[k as int]);
                }
                assert(lines_before_fence(sl.skip(1)) =~= kept_count@ + lines_before_fence(
                    sl.skip(k + 1),
                ));
            }
            k = k + 1;
        }
        proof {
            if k == ls@.len() {
                assert(sl.skip(k as int) =~= Seq::<Seq<char>>::empty());
                assert(lines_before_fence(sl.skip(1)) =~= kept_count@);
            }
            assert(acc@ == crate::text::join_lines(lines_before_fence(
                spec_lines(cleaned@).drop_first(),
            )));
        }
        acc
    } else {
        cleaned
    };

    let t = trim_chars(&body);
    let mut brace_pat: Vec<char> = Vec::new();
    brace_pat.push('{');
    assert(brace_pat@ =~= seq!['{']);
    let open_pos = find_sub(&t, &brace_pat, 0);
    let close_pos = find_last_char(&t, '}');
    match (open_pos, close_pos) {
        (Some(a), Some(b)) => {
            if a <= b {
                proof {
                    lemma_first_match_from(t@, brace_pat@, 0);
                    lemma_last_index_bound(t@, '}');
                }
                let cut = sub_chars(&t, a, b + 1);
                assert(cut@ =~= t@.subrange(a as int, b + 1));
                chars_to_string(&cut)
            } else {
                chars_to_string(&t)
            }
        },
        _ => chars_to_string(&t),
    }
}

proof fn lemma_last_index_bound(s: Seq<char>, c: char)
    ensures
        match last_index_of(s, c) {
            Option::Some(i) => 0 <= i < s.len(),
            Option::None => true,
        },
    decreases s.len(),
{
    if s.len() > 0 && s.last() != c {
        lemma_last_index_bound(s.drop_last(), c);
    }
}

} // verus!
