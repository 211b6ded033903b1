//! The Advanced SubStation (ASS/SSA) subtitle format: sectioned headers
//! kept verbatim, and dialogue lines split by a declared field order.

use vstd::prelude::*;

use crate::subtitle::{
    entry_seq_view, entry_view, AssHeaders, SubtitleEntry, SubtitleEntryV, SubtitleFile,
    SubtitleFormat, SubtitleMetadata, SubtitleMetadataV,
};
use crate::text::{
    chars_to_string, dec_rep, eq_chars, find_sub, first_match_from, has_prefix,
    lemma_first_match_from, lower_chars, lower_seq, parse_i32, push_all, replace_chars,
    signed_digits_ok, signed_digits_val, spec_lines, spec_replace, spec_trim, split_by,
    split_by_chars, split_lines, str_to_chars, sub_chars, trim_chars, usize_to_chars,
    starts_with_chars,
};

verus! {

// ---------------------------------------------------------------------------
// Splitting a dialogue line into fields
// ---------------------------------------------------------------------------

/// `s` split at `sep` into at most `n` pieces; the last piece keeps the
/// rest of the line, commas included.
pub open spec fn splitn_by(s: Seq<char>, sep: char, n: int) -> Seq<Seq<char>>
    decreases n,
    via splitn_by_dec
{
    if n <= 0 {
        Seq::empty()
    } else if n == 1 {
        seq![s]
    } else {
        match first_match_from(s, seq![sep], 0) {
            Option::None => seq![s],
            Option::Some(i) => seq![s.take(i)] + splitn_by(s.skip(i + 1), sep, n - 1),
        }
    }
}

#[via_fn]
proof fn splitn_by_dec(s: Seq<char>, sep: char, n: int) {
}

/// Splits into at most `n` comma-separated fields.
#[verifier::loop_isolation(false)]
fn splitn_exec(s: &Vec<char>, sep: char, n: usize) -> (r: Vec<Vec<char>>)
    ensures
        r@.map_values(|p: Vec<char>| p@) == splitn_by(s@, sep, n as int),
{
    let mut r: Vec<Vec<char>> = Vec::new();
    if n == 0 {
        assert(r@.map_values(|p: Vec<char>| p@) =~= splitn_by(s@, sep, 0));
        return r;
    }
    let mut rest: Vec<char> = sub_chars(s, 0, s.len());
    assert(rest@ =~= s@);
    let mut left: usize = n;
    let mut sep_pat: Vec<char> = Vec::new();
    sep_pat.push(sep);
    assert(sep_pat@ =~= seq![sep]);
    while left > 1
        invariant
            1 <= left <= n,
            sep_pat@ == seq![sep],
            splitn_by(s@, sep, n as int) == r@.map_values(|p: Vec<char>| p@) + splitn_by(
                rest@,
                sep,
                left as int,
            ),
        decreases left,
    {
        let found = find_sub(&rest, &sep_pat, 0);
        proof {
            lemma_first_match_from(rest@, sep_pat@, 0);
        }
        match found {
            None => {
                break;
            },
            Some(i) => {
                let rest_len = rest.len();
                let piece = sub_chars(&rest, 0, i);
                assert(piece@ =~= rest@.take(i as int));
                let ghost prev = r@;
                r.push(piece);
                proof {
                    assert(r@.map_values(|p: Vec<char>| p@) =~= prev.map_values(
                        |p: Vec<char>| p@,
                    ) + seq![rest@.take(i as int)]);
                }
                let next = sub_chars(&rest, i + 1, rest_len);
                assert(next@ =~= rest@.skip(i + 1));
                rest = next;
                left = left - 1;
            },
        }
    }
    let ghost prev = r@;
    r.push(rest);
    proof {
        assert(r@.map_values(|p: Vec<char>| p@) =~= prev.map_values(|p: Vec<char>| p@)
            + seq![r@.last()@]);
    }
    r
}

// ---------------------------------------------------------------------------
// Folding declared fields over the split parts
// ---------------------------------------------------------------------------

/// The fields a dialogue line can set, while they are being gathered.
pub struct DialogueFields {
    pub start_time: Seq<char>,
    pub end_time: Seq<char>,
    pub style: Option<Seq<char>>,
    pub name: Option<Seq<char>>,
    pub margin_l: Option<i32>,
    pub margin_r: Option<i32>,
    pub margin_v: Option<i32>,
    pub effect: Option<Seq<char>>,
    pub layer: Option<i32>,
    pub text: Seq<char>,
}

/// No field set yet.
pub open spec fn dlg_init() -> DialogueFields {
    DialogueFields {
        start_time: Seq::empty(),
        end_time: Seq::empty(),
        style: Option::None,
        name: Option::None,
        margin_l: Option::None,
        margin_r: Option::None,
        margin_v: Option::None,
        effect: Option::None,
        layer: Option::None,
        text: Seq::empty(),
    }
}

/// A number parsed the way a dialogue field is: a well-formed signed
/// decimal in range, or nothing.
pub open spec fn spec_field_i32(value: Seq<char>) -> Option<i32> {
    if signed_digits_ok(value) && i32::MIN <= signed_digits_val(value) <= i32::MAX {
        Option::Some(signed_digits_val(value) as i32)
    } else {
        Option::None
    }
}

/// One declared field applied to the gathered state.
pub open spec fn dlg_apply(st: DialogueFields, name: Seq<char>, value: Seq<char>) -> DialogueFields {
    if name == "layer"@ {
        DialogueFields { layer: spec_field_i32(value), ..st }
    } else if name == "start"@ {
        DialogueFields { start_time: value, ..st }
    } else if name == "end"@ {
        DialogueFields { end_time: value, ..st }
    } else if name == "style"@ {
        DialogueFields { style: Option::Some(value), ..st }
    } else if name == "name"@ || name == "actor"@ {
        DialogueFields { name: Option::Some(value), ..st }
    } else if name == "marginl"@ {
        DialogueFields { margin_l: spec_field_i32(value), ..st }
    } else if name == "marginr"@ {
        DialogueFields { margin_r: spec_field_i32(value), ..st }
    } else if name == "marginv"@ {
        DialogueFields { margin_v: spec_field_i32(value), ..st }
    } else if name == "effect"@ {
        DialogueFields { effect: Option::Some(value), ..st }
    } else if name == "text"@ {
        DialogueFields { text: value, ..st }
    } else {
        st
    }
}

/// The trimmed part a field reads, or nothing for a missing part.
pub open spec fn part_value(parts: Seq<Seq<char>>, i: int) -> Seq<char> {
    if 0 <= i < parts.len() {
        spec_trim(parts[i])
    } else {
        Seq::empty()
    }
}

/// All declared fields applied in order.
pub open spec fn dlg_fold(
    fmt: Seq<Seq<char>>,
    parts: Seq<Seq<char>>,
    i: int,
    st: DialogueFields,
) -> DialogueFields
    decreases fmt.len() - i,
{
    if i < 0 || i >= fmt.len() {
        st
    } else {
        dlg_fold(fmt, parts, i + 1, dlg_apply(st, fmt[i], part_value(parts, i)))
    }
}

/// What one dialogue or comment line parses to, under a declared field
/// order; the line's entry number becomes `index + 1`.
pub open spec fn spec_parse_dialogue_line(
    line: Seq<char>,
    fmt: Seq<Seq<char>>,
    index: usize,
) -> Option<SubtitleEntryV>
    recommends
        index < usize::MAX,
{
    let content = if has_prefix(line, "Comment:"@) {
        line.skip(8)
    } else if has_prefix(line, "Dialogue:"@) {
        line.skip(9)
    } else {
        line
    };
    let parts = splitn_by(content, ',', fmt.len() as int);
    if parts.len() < fmt.len() {
        Option::None
    } else {
        let st = dlg_fold(fmt, parts, 0, dlg_init());
        let text = if st.text.len() == 0 && parts.len() > 0 {
            spec_trim(parts.last())
        } else {
            st.text
        };
        Option::Some(
            SubtitleEntryV {
                index: (index + 1) as usize,
                start_time: st.start_time,
                end_time: st.end_time,
                text,
                metadata: Option::Some(
                    SubtitleMetadataV {
                        style: st.style,
                        name: st.name,
                        margin_l: st.margin_l,
                        margin_r: st.margin_r,
                        margin_v: st.margin_v,
                        effect: st.effect,
                        layer: st.layer,
                    },
                ),
            },
        )
    }
}

/// Gathered fields during parsing, executably.
struct DialogueFieldsExec {
    start_time: Vec<char>,
    end_time: Vec<char>,
    style: Option<Vec<char>>,
    name: Option<Vec<char>>,
    margin_l: Option<i32>,
    margin_r: Option<i32>,
    margin_v: Option<i32>,
    effect: Option<Vec<char>>,
    layer: Option<i32>,
    text: Vec<char>,
}

impl DialogueFieldsExec {
    spec fn view_df(&self) -> DialogueFields {
        DialogueFields {
            start_time: self.start_time@,
            end_time: self.end_time@,
            style: match self.style {
                Option::None => Option::None,
                Option::Some(ref v) => Option::Some(v@),
            },
            name: match self.name {
                Option::None => Option::None,
                Option::Some(ref v) => Option::Some(v@),
            },
            margin_l: self.margin_l,
            margin_r: self.margin_r,
            margin_v: self.margin_v,
            effect: match self.effect {
                Option::None => Option::None,
                Option::Some(ref v) => Option::Some(v@),
            },
            layer: self.layer,
            text: self.text@,
        }
    }
}

/// Parses one dialogue or comment line against the declared field order.
#[verifier::loop_isolation(false)]
pub fn parse_dialogue_line(line: &Vec<char>, fmt: &Vec<Vec<char>>, index: usize) -> (r: Option<
    SubtitleEntry,
>)
    requires
        index < usize::MAX,
    ensures
        match r {
            Some(e) => spec_parse_dialogue_line(
                line@,
                fmt@.map_values(|f: Vec<char>| f@),
                index,
            ) == Option::Some(entry_view(e)),
            None => spec_parse_dialogue_line(line@, fmt@.map_values(|f: Vec<char>| f@), index)
                is None,
        },
{
    let ghost sfmt = fmt@.map_values(|f: Vec<char>| f@);
    proof {
        reveal_strlit("Comment:");
        reveal_strlit("Dialogue:");
    }
    let comment_pat = str_to_chars("Comment:");
    let dialogue_pat = str_to_chars("Dialogue:");
    let content = if starts_with_chars(line, &comment_pat) {
        sub_chars(line, 8, line.len())
    } else if starts_with_chars(line, &dialogue_pat) {
        sub_chars(line, 9, line.len())
    } else {
        sub_chars(line, 0, line.len())
    };
    proof {
        if has_prefix(line@, "Comment:"@) {
            assert(content@ =~= line@.skip(8));
        } else if has_prefix(line@, "Dialogue:"@) {
            assert(content@ =~= line@.skip(9));
        } else {
            assert(content@ =~= line@);
        }
    }
    let parts = splitn_exec(&content, ',', fmt.len());
    let ghost sparts = parts@.map_values(|p: Vec<char>| p@);
    if parts.len() < fmt.len() {
        return None;
    }

    let mut st = DialogueFieldsExec {
        start_time: Vec::new(),
        end_time: Vec::new(),
        style: None,
        name: None,
        margin_l: None,
        margin_r: None,
        margin_v: None,
        effect: None,
        layer: None,
        text: Vec::new(),
    };
    assert(st.view_df() =~= dlg_init());
    proof {
        reveal_strlit("layer");
        reveal_strlit("start");
        reveal_strlit("end");
        reveal_strlit("style");
        reveal_strlit("name");
        reveal_strlit("actor");
        reveal_strlit("marginl");
        reveal_strlit("marginr");
        reveal_strlit("marginv");
        reveal_strlit("effect");
        reveal_strlit("text");
    }
    let p_layer = str_to_chars("layer");
    let p_start = str_to_chars("start");
    let p_end = str_to_chars("end");
    let p_style = str_to_chars("style");
    let p_name = str_to_chars("name");
    let p_actor = str_to_chars("actor");
    let p_marginl = str_to_chars("marginl");
    let p_marginr = str_to_chars("marginr");
    let p_marginv = str_to_chars("marginv");
    let p_effect = str_to_chars("effect");
    let p_text = str_to_chars("text");

    let mut i: usize = 0;
    while i < fmt.len()
        invariant
            i <= fmt.len(),
            sfmt == fmt@.map_values(|f: Vec<char>| f@),
            sparts == parts@.map_values(|p: Vec<char>| p@),
            sparts.len() >= sfmt.len(),
            dlg_fold(sfmt, sparts, 0, dlg_init()) == dlg_fold(sfmt, sparts, i as int, st.view_df()),
            p_layer@ == "layer"@,
            p_start@ == "start"@,
            p_end@ == "end"@,
            p_style@ == "style"@,
            p_name@ == "name"@,
            p_actor@ == "actor"@,
            p_marginl@ == "marginl"@,
            p_marginr@ == "marginr"@,
            p_marginv@ == "marginv"@,
            p_effect@ == "effect"@,
            p_text@ == "text"@,
        decreases fmt.len() - i,
    {
        let value = trim_chars(&parts[i]);
        assert(value@ == part_value(sparts, i as int));
        let fname = &fmt[i];
        let ghost st0 = st.view_df();
        if eq_chars(fname, &p_layer) {
            st.layer = parse_i32(&value);
        } else if eq_chars(fname, &p_start) {
            st.start_time = value;
        } else if eq_chars(fname, &p_end) {
            st.end_time = value;
        } else if eq_chars(fname, &p_style) {
            st.style = Some(value);
        } else if eq_chars(fname, &p_name) || eq_chars(fname, &p_actor) {
            st.name = Some(value);
        } else if eq_chars(fname, &p_marginl) {
            st.margin_l = parse_i32(&value);
        } else if eq_chars(fname, &p_marginr) {
            st.margin_r = parse_i32(&value);
        } else if eq_chars(fname, &p_marginv) {
            st.margin_v = parse_i32(&value);
        } else if eq_chars(fname, &p_effect) {
            st.effect = Some(value);
        } else if eq_chars(fname, &p_text) {
            st.text = value;
        }
        proof {
            assert(st.view_df() =~= dlg_apply(st0, sfmt[i as int], part_value(sparts, i as int)));
        }
        i = i + 1;
    }

    let DialogueFieldsExec {
        start_time,
        end_time,
        style,
        name,
        margin_l,
        margin_r,
        margin_v,
        effect,
        layer,
        text: gathered_text,
    } = st;
    let text = if gathered_text.len() == 0 && parts.len() > 0 {
        trim_chars(&parts[parts.len() - 1])
    } else {
        gathered_text
    };
    proof {
        if sparts.len() > 0 {
            assert(sparts.last() == sparts[sparts.len() - 1]);
        }
    }
    let entry = SubtitleEntry {
        index: index + 1,
        start_time: chars_to_string(&start_time),
        end_time: chars_to_string(&end_time),
        text: chars_to_string(&text),
        metadata: Some(
            SubtitleMetadata {
                style: match style {
                    Some(v) => Some(chars_to_string(&v)),
                    None => None,
                },
                name: match name {
                    Some(v) => Some(chars_to_string(&v)),
                    None => None,
                },
                margin_l,
                margin_r,
                margin_v,
                effect: match effect {
                    Some(v) => Some(chars_to_string(&v)),
                    None => None,
                },
                layer,
            },
        ),
    };
    Some(entry)
}


// ---------------------------------------------------------------------------
// The file-level parse machine
// ---------------------------------------------------------------------------

/// The section a parser is inside.
#[derive(Clone, Copy, Debug, PartialEq, Eq, Structural)]
pub enum AssSection {
    ScriptInfo,
    Styles,
    Fonts,
    Graphics,
    Events,
    Other,
}

/// The whole parse state.
#[verifier::ext_equal]
pub struct AssState {
    pub section: AssSection,
    pub fmt: Seq<Seq<char>>,
    pub script_info: Seq<Seq<char>>,
    pub styles: Seq<Seq<char>>,
    pub fonts: Seq<Seq<char>>,
    pub graphics: Seq<Seq<char>>,
    pub entries: Seq<SubtitleEntryV>,
}

/// Before any line: no section, no field order, nothing gathered.
pub open spec fn ass_init() -> AssState {
    AssState {
        section: AssSection::Other,
        fmt: Seq::empty(),
        script_info: Seq::empty(),
        styles: Seq::empty(),
        fonts: Seq::empty(),
        graphics: Seq::empty(),
        entries: Seq::empty(),
    }
}

/// The section a lower-cased bracketed name opens.
pub open spec fn section_of_name(name: Seq<char>) -> AssSection {
    if name == "script info"@ {
        AssSection::ScriptInfo
    } else if name == "v4+ styles"@ || name == "v4 styles"@ || name == "v4 styles+"@ {
        AssSection::Styles
    } else if name == "fonts"@ {
        AssSection::Fonts
    } else if name == "graphics"@ {
        AssSection::Graphics
    } else if name == "events"@ {
        AssSection::Events
    } else {
        AssSection::Other
    }
}

/// The declared field order of a `Format:` line: the comma-separated
/// names, trimmed and lower-cased.
pub open spec fn format_fields(rest: Seq<char>) -> Seq<Seq<char>> {
    split_by(rest, seq![',']).map_values(|p: Seq<char>| lower_seq(spec_trim(p)))
}

/// One line applied to the parse state.
pub open spec fn ass_step(st: AssState, raw: Seq<char>) -> AssState {
    let line = spec_trim(raw);
    if line.len() >= 2 && line[0] == '[' && line.last() == ']' {
        let sec = section_of_name(lower_seq(line.subrange(1, line.len() - 1)));
        match sec {
            AssSection::ScriptInfo => AssState {
                section: sec,
                script_info: st.script_info.push(line),
                ..st
            },
            AssSection::Styles => AssState { section: sec, styles: st.styles.push(line), ..st },
            AssSection::Fonts => AssState { section: sec, fonts: st.fonts.push(line), ..st },
            AssSection::Graphics => AssState {
                section: sec,
                graphics: st.graphics.push(line),
                ..st
            },
            _ => AssState { section: sec, ..st },
        }
    } else {
        match st.section {
            AssSection::ScriptInfo => if line.len() > 0 {
                AssState { script_info: st.script_info.push(line), ..st }
            } else {
                st
            },
            AssSection::Styles => if line.len() > 0 {
                AssState { styles: st.styles.push(line), ..st }
            } else {
                st
            },
            AssSection::Fonts => if line.len() > 0 {
                AssState { fonts: st.fonts.push(line), ..st }
            } else {
                st
            },
            AssSection::Graphics => if line.len() > 0 {
                AssState { graphics: st.graphics.push(line), ..st }
            } else {
                st
            },
            AssSection::Events => if has_prefix(line, "Format:"@) {
                AssState { fmt: format_fields(line.skip(7)), ..st }
            } else if has_prefix(line, "Dialogue:"@) || has_prefix(line, "Comment:"@) {
                match spec_parse_dialogue_line(line, st.fmt, st.entries.len() as usize) {
                    Option::Some(e) => AssState { entries: st.entries.push(e), ..st },
                    Option::None => st,
                }
            } else {
                st
            },
            AssSection::Other => st,
        }
    }
}

/// Every line applied in order.
pub open spec fn ass_run(lines: Seq<Seq<char>>, st: AssState) -> AssState
    decreases lines.len(),
{
    if lines.len() == 0 {
        st
    } else {
        ass_run(lines.drop_first(), ass_step(st, lines[0]))
    }
}

/// What a whole document parses to.
pub open spec fn spec_ass_parse(content: Seq<char>) -> AssState {
    ass_run(spec_lines(crate::text::spec_normalize_newlines(content)), ass_init())
}

/// Parses an Advanced SubStation document; a document without one
/// dialogue line is an error.
#[verifier::loop_isolation(false)]
pub fn parse(content: &str) -> (r: Result<SubtitleFile, String>)
    ensures
        match r {
            Ok(f) => {
                &&& f.format == SubtitleFormat::Ass
                &&& spec_ass_parse(content@).entries.len() > 0
                &&& entry_seq_view(f.entries@) == spec_ass_parse(content@).entries
                &&& (f.headers matches Option::Some(h) && h.script_info@.map_values(
                    |l: String| l@,
                ) == spec_ass_parse(content@).script_info && h.styles@.map_values(
                    |l: String| l@,
                ) == spec_ass_parse(content@).styles && h.fonts@.map_values(|l: String| l@)
                    == spec_ass_parse(content@).fonts && h.graphics@.map_values(
                    |l: String| l@,
                ) == spec_ass_parse(content@).graphics)
            },
            Err(m) => spec_ass_parse(content@).entries.len() == 0 && m@
                == "No dialogue entries found in ASS file"@,
        },
{
    let chars = str_to_chars(content);
    let normalized = crate::text::normalize_newlines(&chars);
    let lines = split_lines(&normalized);
    let ghost slines = lines@.map_values(|l: Vec<char>| l@);

    let mut section = AssSection::Other;
    let mut fmt: Vec<Vec<char>> = Vec::new();
    let mut script_info: Vec<String> = Vec::new();
    let mut styles: Vec<String> = Vec::new();
    let mut fonts: Vec<String> = Vec::new();
    let mut graphics: Vec<String> = Vec::new();
    let mut entries: Vec<SubtitleEntry> = Vec::new();

    proof {
        reveal_strlit("script info");
        reveal_strlit("v4+ styles");
        reveal_strlit("v4 styles");
        reveal_strlit("v4 styles+");
        reveal_strlit("fonts");
        reveal_strlit("graphics");
        reveal_strlit("events");
        reveal_strlit("Format:");
        reveal_strlit("Dialogue:");
        reveal_strlit("Comment:");
    }
    let n_scriptinfo = str_to_chars("script info");
    let n_styles1 = str_to_chars("v4+ styles");
    let n_styles2 = str_to_chars("v4 styles");
    let n_styles3 = str_to_chars("v4 styles+");
    let n_fonts = str_to_chars("fonts");
    let n_graphics = str_to_chars("graphics");
    let n_events = str_to_chars("events");
    let p_format = str_to_chars("Format:");
    let p_dialogue = str_to_chars("Dialogue:");
    let p_comment = str_to_chars("Comment:");
    let mut comma: Vec<char> = Vec::new();
    comma.push(',');
    assert(comma@ =~= seq![',']);

    let ghost st0 = ass_init();
    let mut k: usize = 0;
    proof {
        assert(slines.skip(0) =~= slines);
        assert((AssState {
            section,
            fmt: fmt@.map_values(|f: Vec<char>| f@),
            script_info: script_info@.map_values(|l: String| l@),
            styles: styles@.map_values(|l: String| l@),
            fonts: fonts@.map_values(|l: String| l@),
            graphics: graphics@.map_values(|l: String| l@),
            entries: entry_seq_view(entries@),
        }) =~~= ass_init());
    }
    while k < lines.len()
        invariant
            k <= lines.len(),
            slines == lines@.map_values(|l: Vec<char>| l@),
            entries@.len() <= k,
            n_scriptinfo@ == "script info"@,
            n_styles1@ == "v4+ styles"@,
            n_styles2@ == "v4 styles"@,
            n_styles3@ == "v4 styles+"@,
            n_fonts@ == "fonts"@,
            n_graphics@ == "graphics"@,
            n_events@ == "events"@,
            p_format@ == "Format:"@,
            p_dialogue@ == "Dialogue:"@,
            p_comment@ == "Comment:"@,
            comma@ == seq![','],
            ass_run(slines, ass_init()) == ass_run(
                slines.skip(k as int),
                AssState {
                    section,
                    fmt: fmt@.map_values(|f: Vec<char>| f@),
                    script_info: script_info@.map_values(|l: String| l@),
                    styles: styles@.map_values(|l: String| l@),
                    fonts: fonts@.map_values(|l: String| l@),
                    graphics: graphics@.map_values(|l: String| l@),
                    entries: entry_seq_view(entries@),
                },
            ),
        decreases lines.len() - k,
    {
        let ghost stk = AssState {
            section,
            fmt: fmt@.map_values(|f: Vec<char>| f@),
            script_info: script_info@.map_values(|l: String| l@),
            styles: styles@.map_values(|l: String| l@),
            fonts: fonts@.map_values(|l: String| l@),
            graphics: graphics@.map_values(|l: String| l@),
            entries: entry_seq_view(entries@),
        };
        proof {
            assert(slines.skip(k as int)[0] == slines[k as int]);
            assert(slines.skip(k as int).drop_first() =~= slines.skip(k + 1));
        }
        let line = trim_chars(&lines[k]);
        let line_len = line.len();
        if line_len >= 2 && line[0] == '[' && line[line_len - 1] == ']' {
            let inner = sub_chars(&line, 1, line_len - 1);
            assert(inner@ =~= line@.subrange(1, line@.len() - 1));
            let name = lower_chars(&inner);
            if eq_chars(&name, &n_scriptinfo) {
                section = AssSection::ScriptInfo;
                script_info.push(chars_to_string(&line));
            } else if eq_chars(&name, &n_styles1) || eq_chars(&name, &n_styles2) || eq_chars(
                &name,
                &n_styles3,
            ) {
                section = AssSection::Styles;
                styles.push(chars_to_string(&line));
            } else if eq_chars(&name, &n_fonts) {
                section = AssSection::Fonts;
                fonts.push(chars_to_string(&line));
            } else if eq_chars(&name, &n_graphics) {
                section = AssSection::Graphics;
                graphics.push(chars_to_string(&line));
            } else if eq_chars(&name, &n_events) {
                section = AssSection::Events;
            } else {
                section = AssSection::Other;
            }
        } else {
            match section {
                AssSection::ScriptInfo => {
                    if line.len() > 0 {
                        script_info.push(chars_to_string(&line));
                    }
                },
                AssSection::Styles => {
                    if line.len() > 0 {
                        styles.push(chars_to_string(&line));
                    }
                },
                AssSection::Fonts => {
                    if line.len() > 0 {
                        fonts.push(chars_to_string(&line));
                    }
                },
                AssSection::Graphics => {
                    if line.len() > 0 {
                        graphics.push(chars_to_string(&line));
                    }
                },
                AssSection::Events => {
                    if starts_with_chars(&line, &p_format) {
                        let rest = sub_chars(&line, 7, line.len());
                        assert(rest@ =~= line@.skip(7));
                        let raw_fields = split_by_chars(&rest, &comma);
                        let mut new_fmt: Vec<Vec<char>> = Vec::new();
                        let mut fj: usize = 0;
                        while fj < raw_fields.len()
                            invariant
                                fj <= raw_fields.len(),
                                new_fmt@.map_values(|f: Vec<char>| f@) =~= format_fields(
                                    line@.skip(7),
                                ).take(fj as int),
                                raw_fields@.map_values(|p: Vec<char>| p@) == split_by(
                                    line@.skip(7),
                                    seq![','],
                                ),
                            decreases raw_fields.len() - fj,
                        {
                            let f = lower_chars(&trim_chars(&raw_fields[fj]));
                            let ghost prevf = new_fmt@;
                            new_fmt.push(f);
                            proof {
                                assert(new_fmt@.map_values(|f2: Vec<char>| f2@) =~= prevf
                                    .map_values(|f2: Vec<char>| f2@) + seq![new_fmt@.last()@]);
                                assert(new_fmt@.map_values(|f2: Vec<char>| f2@) =~= format_fields(
                                    line@.skip(7),
                                ).take(fj + 1));
                            }
                            fj = fj + 1;
                        }
                        proof {
                            assert(format_fields(line@.skip(7)).take(fj as int) =~= format_fields(
                                line@.skip(7),
                            ));
                        }
                        fmt = new_fmt;
                    } else if starts_with_chars(&line, &p_dialogue) || starts_with_chars(
                        &line,
                        &p_comment,
                    ) {
                        match parse_dialogue_line(&line, &fmt, entries.len()) {
                            Some(e) => {
                                let ghost preve = entries@;
                                entries.push(e);
                                proof {
                                    assert(entry_seq_view(entries@) =~= entry_seq_view(preve)
                                        + seq![entry_seq_view(entries@).last()]);
                                }
                            },
                            None => {},
                        }
                    }
                },
                AssSection::Other => {},
            }
        }
        proof {
            let stn = AssState {
                section,
                fmt: fmt@.map_values(|f: Vec<char>| f@),
                script_info: script_info@.map_values(|l: String| l@),
                styles: styles@.map_values(|l: String| l@),
                fonts: fonts@.map_values(|l: String| l@),
                graphics: graphics@.map_values(|l: String| l@),
                entries: entry_seq_view(entries@),
            };
            assert(stn =~~= ass_step(stk, slines[k as int]));
        }
        k = k + 1;
    }
    proof {
        assert(slines.skip(k as int) =~= Seq::<Seq<char>>::empty());
    }

    if entries.len() == 0 {
        Err(String::from_str("No dialogue entries found in ASS file"))
    } else {
        Ok(
            SubtitleFile {
                format: SubtitleFormat::Ass,
                entries,
                headers: Some(AssHeaders { script_info, styles, fonts, graphics }),
            },
        )
    }
}


// ---------------------------------------------------------------------------
// Serialization
// ---------------------------------------------------------------------------

/// `k` zero characters.
pub open spec fn zeros(k: int) -> Seq<char>
    decreases k,
{
    if k <= 0 {
        Seq::empty()
    } else {
        zeros(k - 1).push('0')
    }
}

/// A number written in decimal and zero-padded to four characters, the
/// sign included in the width.
pub open spec fn pad4(n: int) -> Seq<char> {
    let sign: Seq<char> = if n < 0 {
        seq!['-']
    } else {
        Seq::empty()
    };
    let digits = dec_rep((if n < 0 {
        -n
    } else {
        n
    }) as nat);
    sign + zeros(4 - sign.len() - digits.len()) + digits
}

/// Writes a margin zero-padded to four characters.
#[verifier::loop_isolation(false)]
fn pad4_i32(n: i32) -> (v: Vec<char>)
    ensures
        v@ == pad4(n as int),
{
    let mut v: Vec<char> = Vec::new();
    let mag: usize = if n >= 0 {
        n as usize
    } else if n == i32::MIN {
        0x8000_0000usize
    } else {
        (-n) as usize
    };
    if n < 0 {
        v.push('-');
    }
    let ghost sign = v@;
    let digits = usize_to_chars(mag);
    let dlen = digits.len();
    let slen = v.len();
    let mut j: usize = 0;
    let pad: usize = if dlen >= 4 {
        0
    } else if slen >= 4 - dlen {
        0
    } else {
        4 - dlen - slen
    };
    while j < pad
        invariant
            j <= pad,
            v@ == sign + zeros(j as int),
        decreases pad - j,
    {
        v.push('0');
        j = j + 1;
        assert(v@ =~= sign + zeros(j as int));
    }
    proof {
        assert(zeros(4 - sign.len() - digits@.len()) =~= zeros(pad as int));
    }
    push_all(&mut v, &digits);
    assert(v@ =~= pad4(n as int));
    v
}

/// The lines of a section, each ended by a newline, and a blank line after
/// a non-empty section.
pub open spec fn lines_block(ls: Seq<Seq<char>>) -> Seq<char>
    decreases ls.len(),
{
    if ls.len() == 0 {
        Seq::empty()
    } else {
        lines_block(ls.drop_last()) + ls.last() + seq!['\n']
    }
}

/// A section written out: nothing when empty, else its lines and a blank
/// line.
pub open spec fn section_block(ls: Seq<Seq<char>>) -> Seq<char> {
    if ls.len() == 0 {
        Seq::empty()
    } else {
        lines_block(ls) + seq!['\n']
    }
}

/// An optional text, or a default.
pub open spec fn opt_or(o: Option<Seq<char>>, default: Seq<char>) -> Seq<char> {
    match o {
        Option::Some(v) => v,
        Option::None => default,
    }
}

/// An optional number, or zero.
pub open spec fn opt_or_zero(o: Option<i32>) -> int {
    match o {
        Option::Some(v) => v as int,
        Option::None => 0,
    }
}

/// One written dialogue line: the declared field order of the serializer,
/// with defaults for missing metadata and the text's newlines written as
/// `\N`.
pub open spec fn dialogue_line(e: SubtitleEntryV) -> Seq<char> {
    let m: SubtitleMetadataV = match e.metadata {
        Option::Some(m) => m,
        Option::None => SubtitleMetadataV {
            style: Option::None,
            name: Option::None,
            margin_l: Option::None,
            margin_r: Option::None,
            margin_v: Option::None,
            effect: Option::None,
            layer: Option::None,
        },
    };
    "Dialogue: "@ + crate::text::signed_dec_rep(opt_or_zero(m.layer)) + seq![','] + e.start_time
        + seq![','] + e.end_time + seq![','] + opt_or(m.style, "Default"@) + seq![','] + opt_or(
        m.name,
        Seq::empty(),
    ) + seq![','] + pad4(opt_or_zero(m.margin_l)) + seq![','] + pad4(opt_or_zero(m.margin_r))
        + seq![','] + pad4(opt_or_zero(m.margin_v)) + seq![','] + opt_or(m.effect, Seq::empty())
        + seq![','] + spec_replace(e.text, seq!['\n'], seq!['\\', 'N']) + seq!['\n']
}

/// Every dialogue line, in order.
pub open spec fn dialogue_lines(es: Seq<SubtitleEntryV>) -> Seq<char>
    decreases es.len(),
{
    if es.len() == 0 {
        Seq::empty()
    } else {
        dialogue_lines(es.drop_last()) + dialogue_line(es.last())
    }
}

/// A written document: the kept sections, then the events section with
/// its canonical field order and every dialogue line.
pub open spec fn spec_ass_serialize(f: SubtitleFile) -> Seq<char> {
    let headers: Seq<char> = match f.headers {
        Option::None => Seq::empty(),
        Option::Some(h) => section_block(h.script_info@.map_values(|l: String| l@))
            + section_block(h.styles@.map_values(|l: String| l@)) + section_block(
            h.fonts@.map_values(|l: String| l@),
        ) + section_block(h.graphics@.map_values(|l: String| l@)),
    };
    headers + "[Events]
"@
        + "Format: Layer, Start, End, Style, Name, MarginL, MarginR, MarginV, Effect, Text
"@
        + dialogue_lines(entry_seq_view(f.entries@))
}

/// Writes one section.
#[verifier::loop_isolation(false)]
fn write_section(out: &mut Vec<char>, ls: &Vec<String>)
    ensures
        final(out)@ == old(out)@ + section_block(ls@.map_values(|l: String| l@)),
{
    let ghost sls = ls@.map_values(|l: String| l@);
    if ls.len() == 0 {
        assert(old(out)@ =~= old(out)@ + section_block(sls));
        return ;
    }
    let mut i: usize = 0;
    proof {
        assert(sls.take(0) =~= Seq::<Seq<char>>::empty());
        assert(out@ =~= old(out)@ + lines_block(sls.take(0)));
    }
    while i < ls.len()
        invariant
            i <= ls.len(),
            sls == ls@.map_values(|l: String| l@),
            out@ == old(out)@ + lines_block(sls.take(i as int)),
        decreases ls.len() - i,
    {
        proof {
            assert(sls.take(i + 1).drop_last() =~= sls.take(i as int));
            assert(sls.take(i + 1).last() == sls[i as int]);
        }
        let lchars = str_to_chars(ls[i].as_str());
        push_all(out, &lchars);
        out.push('\n');
        proof {
            assert(out@ =~= old(out)@ + lines_block(sls.take(i + 1)));
        }
        i = i + 1;
    }
    proof {
        assert(sls.take(i as int) =~= sls);
    }
    out.push('\n');
}

/// The pieces of one written dialogue line, in order.
pub open spec fn dialogue_pieces(e: SubtitleEntryV) -> Seq<Seq<char>> {
    let m: SubtitleMetadataV = match e.metadata {
        Option::Some(m) => m,
        Option::None => SubtitleMetadataV {
            style: Option::None,
            name: Option::None,
            margin_l: Option::None,
            margin_r: Option::None,
            margin_v: Option::None,
            effect: Option::None,
            layer: Option::None,
        },
    };
    seq![
        "Dialogue: "@,
        crate::text::signed_dec_rep(opt_or_zero(m.layer)),
        seq![','],
        e.start_time,
        seq![','],
        e.end_time,
        seq![','],
        opt_or(m.style, "Default"@),
        seq![','],
        opt_or(m.name, Seq::empty()),
        seq![','],
        pad4(opt_or_zero(m.margin_l)),
        seq![','],
        pad4(opt_or_zero(m.margin_r)),
        seq![','],
        pad4(opt_or_zero(m.margin_v)),
        seq![','],
        opt_or(m.effect, Seq::empty()),
        seq![','],
        spec_replace(e.text, seq!['\n'], seq!['\\', 'N']),
        seq!['\n'],
    ]
}

/// A list of pieces, concatenated.
pub open spec fn concat_pieces(ps: Seq<Seq<char>>) -> Seq<char>
    decreases ps.len(),
{
    if ps.len() == 0 {
        Seq::empty()
    } else {
        concat_pieces(ps.drop_last()) + ps.last()
    }
}

/// The pieces spell exactly the written dialogue line.
proof fn lemma_dialogue_pieces(e: SubtitleEntryV)
    ensures
        concat_pieces(dialogue_pieces(e)) == dialogue_line(e),
{
    let ps = dialogue_pieces(e);
    assert(concat_pieces(ps.take(0)) =~= Seq::<char>::empty());
    assert forall|k: int| 0 < k <= ps.len() implies #[trigger] concat_pieces(ps.take(k))
        == concat_pieces(ps.take(k - 1)) + ps[k - 1] by {
        assert(ps.take(k).drop_last() =~= ps.take(k - 1));
        assert(ps.take(k).last() == ps[k - 1]);
    }
    assert(ps.take(ps.len() as int) =~= ps);
    assert(concat_pieces(ps) =~= dialogue_line(e));
}

/// Writes one dialogue line.
#[verifier::loop_isolation(false)]
#[verifier::rlimit(100)]
fn write_dialogue_line(out: &mut Vec<char>, e: &SubtitleEntry)
    ensures
        final(out)@ == old(out)@ + dialogue_line(entry_view(*e)),
{
    let ghost ev = entry_view(*e);
    let ghost ps = dialogue_pieces(ev);
    let mut pieces: Vec<Vec<char>> = Vec::new();

    pieces.push(str_to_chars("Dialogue: "));
    let layer = match &e.metadata {
        Some(m) => match m.layer {
            Some(l) => l,
            None => 0,
        },
        None => 0,
    };
    pieces.push(crate::text::i32_to_chars(layer));
    pieces.push(comma_piece());
    pieces.push(str_to_chars(e.start_time.as_str()));
    pieces.push(comma_piece());
    pieces.push(str_to_chars(e.end_time.as_str()));
    pieces.push(comma_piece());
    let style_piece = match &e.metadata {
        Some(m) => match &m.style {
            Some(st) => str_to_chars(st.as_str()),
            None => str_to_chars("Default"),
        },
        None => str_to_chars("Default"),
    };
    pieces.push(style_piece);
    pieces.push(comma_piece());
    let name_piece = match &e.metadata {
        Some(m) => match &m.name {
            Some(nm) => str_to_chars(nm.as_str()),
            None => Vec::new(),
        },
        None => Vec::new(),
    };
    pieces.push(name_piece);
    pieces.push(comma_piece());
    let ml = match &e.metadata {
        Some(m) => match m.margin_l {
            Some(v) => v,
            None => 0,
        },
        None => 0,
    };
    pieces.push(pad4_i32(ml));
    pieces.push(comma_piece());
    let mr = match &e.metadata {
        Some(m) => match m.margin_r {
            Some(v) => v,
            None => 0,
        },
        None => 0,
    };
    pieces.push(pad4_i32(mr));
    pieces.push(comma_piece());
    let mv = match &e.metadata {
        Some(m) => match m.margin_v {
            Some(v) => v,
            None => 0,
        },
        None => 0,
    };
    pieces.push(pad4_i32(mv));
    pieces.push(comma_piece());
    let effect_piece = match &e.metadata {
        Some(m) => match &m.effect {
            Some(ef) => str_to_chars(ef.as_str()),
            None => Vec::new(),
        },
        None => Vec::new(),
    };
    pieces.push(effect_piece);
    pieces.push(comma_piece());
    let text_chars = str_to_chars(e.text.as_str());
    let mut nl_pat: Vec<char> = Vec::new();
    nl_pat.push('\n');
    assert(nl_pat@ =~= seq!['\n']);
    let mut ass_nl: Vec<char> = Vec::new();
    ass_nl.push('\\');
    ass_nl.push('N');
    assert(ass_nl@ =~= seq!['\\', 'N']);
    pieces.push(replace_chars(&text_chars, &nl_pat, &ass_nl));
    let mut nl_piece: Vec<char> = Vec::new();
    nl_piece.push('\n');
    assert(nl_piece@ =~= seq!['\n']);
    pieces.push(nl_piece);

    proof {
        assert(pieces@.map_values(|p: Vec<char>| p@) =~= ps);
        lemma_dialogue_pieces(ev);
    }
    let ghost base = out@;
    let mut k: usize = 0;
    proof {
        assert(ps.take(0) =~= Seq::<Seq<char>>::empty());
        assert(out@ =~= base + concat_pieces(ps.take(0)));
    }
    while k < pieces.len()
        invariant
            k <= pieces.len(),
            ps == pieces@.map_values(|p: Vec<char>| p@),
            ps.len() == pieces@.len(),
            out@ == base + concat_pieces(ps.take(k as int)),
        decreases pieces.len() - k,
    {
        proof {
            assert(ps.take(k + 1).drop_last() =~= ps.take(k as int));
            assert(ps.take(k + 1).last() == ps[k as int]);
        }
        push_all(out, &pieces[k]);
        k = k + 1;
    }
    proof {
        assert(ps.take(k as int) =~= ps);
    }
}

/// A single comma.
fn comma_piece() -> (v: Vec<char>)
    ensures
        v@ == seq![','],
{
    let mut v: Vec<char> = Vec::new();
    v.push(',');
    assert(v@ =~= seq![',']);
    v
}

/// Writes an Advanced SubStation document.
#[verifier::loop_isolation(false)]
#[verifier::rlimit(60)]
pub fn serialize(file: &SubtitleFile) -> (r: String)
    ensures
        r@ == spec_ass_serialize(*file),
{
    let mut out: Vec<char> = Vec::new();
    match &file.headers {
        Some(h) => {
            write_section(&mut out, &h.script_info);
            write_section(&mut out, &h.styles);
            write_section(&mut out, &h.fonts);
            write_section(&mut out, &h.graphics);
        },
        None => {},
    }
    let events_head = str_to_chars("[Events]
");
    push_all(&mut out, &events_head);
    let format_head = str_to_chars(
        "Format: Layer, Start, End, Style, Name, MarginL, MarginR, MarginV, Effect, Text
",
    );
    push_all(&mut out, &format_head);

    let ghost es = entry_seq_view(file.entries@);
    let ghost head = out@;
    let mut i: usize = 0;
    proof {
        assert(es.take(0) =~= Seq::<SubtitleEntryV>::empty());
        assert(out@ =~= head + dialogue_lines(es.take(0)));
    }
    while i < file.entries.len()
        invariant
            i <= file.entries.len(),
            es == entry_seq_view(file.entries@),
            es.len() == file.entries@.len(),
            out@ == head + dialogue_lines(es.take(i as int)),
        decreases file.entries.len() - i,
    {
        proof {
            assert(es.take(i + 1).drop_last() =~= es.take(i as int));
            assert(es.take(i + 1).last() == es[i as int]);
        }
        let e = &file.entries[i];
        write_dialogue_line(&mut out, e);
        proof {
            assert(out@ =~= head + dialogue_lines(es.take(i + 1)));
        }
        i = i + 1;
    }
    proof {
        assert(es.take(i as int) =~= es);
    }
    chars_to_string(&out)
}

} // verus!
