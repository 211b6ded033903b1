//! Subtitle file model: entries with timing and format-specific metadata,
//! shared by the SubRip and Advanced SubStation formats.

use vstd::prelude::*;

use crate::text::{spec_to_lower, str_to_chars};

verus! {

/// One subtitle line with its timing.
#[derive(Clone, Debug)]
pub struct SubtitleEntry {
    pub index: usize,
    pub start_time: String,
    pub end_time: String,
    pub text: String,
    /// Format-specific fields (style, position, ...).
    pub metadata: Option<SubtitleMetadata>,
}

/// The extra fields an Advanced SubStation dialogue line carries.
#[derive(Clone, Debug)]
pub struct SubtitleMetadata {
    pub style: Option<String>,
    pub name: Option<String>,
    pub margin_l: Option<i32>,
    pub margin_r: Option<i32>,
    pub margin_v: Option<i32>,
    pub effect: Option<String>,
    pub layer: Option<i32>,
}

/// A parsed subtitle file.
#[derive(Clone, Debug)]
pub struct SubtitleFile {
    pub format: SubtitleFormat,
    pub entries: Vec<SubtitleEntry>,
    /// File-level sections kept verbatim (script info, styles, ...).
    pub headers: Option<AssHeaders>,
}

/// The subtitle file formats told apart by extension.
#[derive(Clone, Copy, Debug, PartialEq, Eq, Structural)]
pub enum SubtitleFormat {
    Srt,
    Ass,
    Ssa,
    Vtt,
}

/// The non-dialogue sections of an Advanced SubStation file, kept line by
/// line.
#[derive(Clone, Debug)]
pub struct AssHeaders {
    pub script_info: Vec<String>,
    pub styles: Vec<String>,
    pub fonts: Vec<String>,
    pub graphics: Vec<String>,
}

// ---------------------------------------------------------------------------
// Mathematical views
// ---------------------------------------------------------------------------

/// View of the metadata fields.
pub struct SubtitleMetadataV {
    pub style: Option<Seq<char>>,
    pub name: Option<Seq<char>>,
    pub margin_l: Option<i32>,
    pub margin_r: Option<i32>,
    pub margin_v: Option<i32>,
    pub effect: Option<Seq<char>>,
    pub layer: Option<i32>,
}

/// View of one entry.
pub struct SubtitleEntryV {
    pub index: usize,
    pub start_time: Seq<char>,
    pub end_time: Seq<char>,
    pub text: Seq<char>,
    pub metadata: Option<SubtitleMetadataV>,
}

/// View of an optional string.
pub open spec fn opt_str_view(o: Option<String>) -> Option<Seq<char>> {
    match o {
        Option::None => Option::None,
        Option::Some(s) => Option::Some(s@),
    }
}

/// View of the metadata.
pub open spec fn metadata_view(m: SubtitleMetadata) -> SubtitleMetadataV {
    SubtitleMetadataV {
        style: opt_str_view(m.style),
        name: opt_str_view(m.name),
        margin_l: m.margin_l,
        margin_r: m.margin_r,
        margin_v: m.margin_v,
        effect: opt_str_view(m.effect),
        layer: m.layer,
    }
}

/// View of one entry.
pub open spec fn entry_view(e: SubtitleEntry) -> SubtitleEntryV {
    SubtitleEntryV {
        index: e.index,
        start_time: e.start_time@,
        end_time: e.end_time@,
        text: e.text@,
        metadata: match e.metadata {
            Option::None => Option::None,
            Option::Some(m) => Option::Some(metadata_view(m)),
        },
    }
}

/// View of an entry list.
pub open spec fn entry_seq_view(es: Seq<SubtitleEntry>) -> Seq<SubtitleEntryV> {
    es.map_values(|e: SubtitleEntry| entry_view(e))
}

/// View of the header sections.
pub open spec fn headers_view(h: AssHeaders) -> (
    Seq<Seq<char>>,
    Seq<Seq<char>>,
    Seq<Seq<char>>,
    Seq<Seq<char>>,
) {
    (
        h.script_info@.map_values(|l: String| l@),
        h.styles@.map_values(|l: String| l@),
        h.fonts@.map_values(|l: String| l@),
        h.graphics@.map_values(|l: String| l@),
    )
}

// ---------------------------------------------------------------------------
// Format detection
// ---------------------------------------------------------------------------

/// The extension of a file name: everything after the last dot, or the
/// whole name when it has none, lower-cased.
pub open spec fn spec_extension(filename: Seq<char>) -> Seq<char>
    decreases filename.len(),
{
    if filename.len() == 0 {
        Seq::empty()
    } else if filename.last() == '.' {
        Seq::empty()
    } else {
        spec_extension(filename.drop_last()).push(spec_to_lower(filename.last()))
    }
}

/// The format a lower-cased extension names.
pub open spec fn spec_format_of_extension(ext: Seq<char>) -> Option<SubtitleFormat> {
    if ext == "srt"@ {
        Option::Some(SubtitleFormat::Srt)
    } else if ext == "ass"@ {
        Option::Some(SubtitleFormat::Ass)
    } else if ext == "ssa"@ {
        Option::Some(SubtitleFormat::Ssa)
    } else if ext == "vtt"@ {
        Option::Some(SubtitleFormat::Vtt)
    } else {
        Option::None
    }
}

impl SubtitleFile {
    /// Names the format of a file by its extension.
    #[verifier::loop_isolation(false)]
    pub fn detect_format(filename: &str) -> (r: Option<SubtitleFormat>)
        ensures
            r == spec_format_of_extension(spec_extension(filename@)),
    {
        let chars = str_to_chars(filename);
        let mut start: usize = chars.len();
        while start > 0 && chars[start - 1] != '.'
            invariant
                start <= chars.len(),
                forall|j: int| start <= j < chars@.len() ==> chars@[j] != '.',
            decreases start,
        {
            start = start - 1;
        }
        proof {
            lemma_extension_from(chars@, start as int);
        }
        let tail = crate::text::sub_chars(&chars, start, chars.len());
        assert(tail@ =~= chars@.skip(start as int));
        let ext = crate::text::lower_chars(&tail);
        proof {
            reveal_strlit("srt");
            reveal_strlit("ass");
            reveal_strlit("ssa");
            reveal_strlit("vtt");
        }
        let srt_pat = str_to_chars("srt");
        let ass_pat = str_to_chars("ass");
        let ssa_pat = str_to_chars("ssa");
        let vtt_pat = str_to_chars("vtt");
        if crate::text::eq_chars(&ext, &srt_pat) {
            Some(SubtitleFormat::Srt)
        } else if crate::text::eq_chars(&ext, &ass_pat) {
            Some(SubtitleFormat::Ass)
        } else if crate::text::eq_chars(&ext, &ssa_pat) {
            Some(SubtitleFormat::Ssa)
        } else if crate::text::eq_chars(&ext, &vtt_pat) {
            Some(SubtitleFormat::Vtt)
        } else {
            None
        }
    }

    /// The `(index, text)` pairs handed to translation.
    #[verifier::loop_isolation(false)]
    pub fn extract_texts(&self) -> (r: Vec<(usize, String)>)
        ensures
            r@.len() == self.entries@.len(),
            forall|i: int|
                0 <= i < r@.len() ==> (#[trigger] r@[i]).0 == self.entries@[i].index && r@[i].1@
                    == self.entries@[i].text@,
    {
        let mut r: Vec<(usize, String)> = Vec::new();
        let mut i: usize = 0;
        while i < self.entries.len()
            invariant
                i <= self.entries.len(),
                r@.len() == i,
                forall|k: int|
                    0 <= k < i ==> (#[trigger] r@[k]).0 == self.entries@[k].index && r@[k].1@
                        == self.entries@[k].text@,
            decreases self.entries.len() - i,
        {
            r.push((self.entries[i].index, self.entries[i].text.clone()));
            i = i + 1;
        }
        r
    }

    /// Applies translated texts back: each translation rewrites the text
    /// of the first entry carrying its index, in the order given, and
    /// touches nothing else.
    #[verifier::loop_isolation(false)]
    pub fn apply_translations(&mut self, translations: Vec<(usize, String)>)
        ensures
            entry_seq_view(final(self).entries@) == spec_apply_translations(
                entry_seq_view(old(self).entries@),
                translations@.map_values(|p: (usize, String)| (p.0, p.1@)),
            ),
            final(self).format == old(self).format,
            final(self).headers == old(self).headers,
    {
        let ghost tv = translations@.map_values(|p: (usize, String)| (p.0, p.1@));
        let mut t: usize = 0;
        proof {
            assert(tv.take(0) =~= Seq::<(usize, Seq<char>)>::empty());
            assert(entry_seq_view(self.entries@) =~= spec_apply_translations(
                entry_seq_view(old(self).entries@),
                tv.take(0),
            ));
        }
        while t < translations.len()
            invariant
                t <= translations.len(),
                tv == translations@.map_values(|p: (usize, String)| (p.0, p.1@)),
                tv.len() == translations@.len(),
                entry_seq_view(self.entries@) == spec_apply_translations(
                    entry_seq_view(old(self).entries@),
                    tv.take(t as int),
                ),
                self.format == old(self).format,
                self.headers == old(self).headers,
            decreases translations.len() - t,
        {
            proof {
                assert(tv.take(t + 1).drop_last() =~= tv.take(t as int));
                assert(tv.take(t + 1).last() == tv[t as int]);
                assert(tv[t as int] == (translations@[t as int].0, translations@[t as int].1@));
            }
            let index = translations[t].0;
            let mut i: usize = 0;
            let ghost es0 = entry_seq_view(self.entries@);
            let mut applied = false;
            while i < self.entries.len() && !applied
                invariant
                    i <= self.entries.len(),
                    es0 == entry_seq_view(self.entries@) || applied,
                    !applied ==> entry_seq_view(self.entries@) == es0 && (forall|k: int|
                        0 <= k < i ==> (#[trigger] es0[k]).index != index),
                    applied ==> exists|k: int|
                        0 <= k < self.entries@.len() && first_with_index(es0, index)
                            == Option::Some(k) && entry_seq_view(self.entries@) =~= es0.update(
                            k,
                            SubtitleEntryV {
                                text: translations@[t as int].1@,
                                ..es0[k]
                            },
                        ),
                    self.format == old(self).format,
                    self.headers == old(self).headers,
                    self.entries@.len() == es0.len(),
                decreases self.entries.len() - i + (if applied {
                    0int
                } else {
                    1int
                }),
            {
                if self.entries[i].index == index {
                    let new_text = translations[t].1.clone();
                    let ghost before = self.entries@;
                    set_entry_text(&mut self.entries, i, new_text);
                    proof {
                        lemma_first_with_index_found(es0, index, i as int);
                        assert(entry_seq_view(self.entries@) =~= es0.update(
                            i as int,
                            SubtitleEntryV { text: translations@[t as int].1@, ..es0[i as int] },
                        ));
                    }
                    applied = true;
                } else {
                    i = i + 1;
                }
            }
            proof {
                if !applied {
                    lemma_first_with_index_none(es0, index);
                    assert(spec_apply_one(es0, index, translations@[t as int].1@) =~= es0);
                } else {
                    let k = choose|k: int|
                        0 <= k < self.entries@.len() && first_with_index(es0, index)
                            == Option::Some(k) && entry_seq_view(self.entries@) =~= es0.update(
                            k,
                            SubtitleEntryV {
                                text: translations@[t as int].1@,
                                ..es0[k]
                            },
                        );
                    assert(spec_apply_one(es0, index, translations@[t as int].1@)
                        =~= entry_seq_view(self.entries@));
                }
            }
            t = t + 1;
        }
        assert(tv.take(t as int) =~= tv);
    }
}

/// Rewrites the text of one entry in place.
fn set_entry_text(entries: &mut Vec<SubtitleEntry>, i: usize, text: String)
    requires
        i < old(entries).len(),
    ensures
        entry_seq_view(final(entries)@) =~= entry_seq_view(old(entries)@).update(
            i as int,
            SubtitleEntryV { text: text@, ..entry_view(old(entries)@[i as int]) },
        ),
        final(entries)@.len() == old(entries)@.len(),
{
    let e = &entries[i];
    let replacement = SubtitleEntry {
        index: e.index,
        start_time: e.start_time.clone(),
        end_time: e.end_time.clone(),
        text,
        metadata: clone_metadata(&e.metadata),
    };
    entries.set(i, replacement);
    proof {
        assert(entry_seq_view(entries@) =~= entry_seq_view(old(entries)@).update(
            i as int,
            SubtitleEntryV {
                text: entries@[i as int].text@,
                ..entry_view(old(entries)@[i as int])
            },
        ));
    }
}

/// Copies the metadata of an entry, field for field.
pub fn clone_metadata(m: &Option<SubtitleMetadata>) -> (r: Option<SubtitleMetadata>)
    ensures
        (match (r, m) {
            (Option::None, Option::None) => true,
            (Option::Some(a), Option::Some(b)) => metadata_view(a) == metadata_view(*b),
            _ => false,
        }),
{
    match m {
        None => None,
        Some(md) => Some(
            SubtitleMetadata {
                style: clone_opt_string(&md.style),
                name: clone_opt_string(&md.name),
                margin_l: md.margin_l,
                margin_r: md.margin_r,
                margin_v: md.margin_v,
                effect: clone_opt_string(&md.effect),
                layer: md.layer,
            },
        ),
    }
}

/// Copies an optional string.
pub fn clone_opt_string(s: &Option<String>) -> (r: Option<String>)
    ensures
        opt_str_view(r) == opt_str_view(*s),
{
    match s {
        None => None,
        Some(x) => Some(x.clone()),
    }
}

// ---------------------------------------------------------------------------
// Applying translations, in specification
// ---------------------------------------------------------------------------

/// Position of the first entry carrying `index`.
pub open spec fn first_with_index(es: Seq<SubtitleEntryV>, index: usize) -> Option<int>
    decreases es.len(),
{
    if es.len() == 0 {
        Option::None
    } else if es[0].index == index {
        Option::Some(0int)
    } else {
        match first_with_index(es.drop_first(), index) {
            Option::None => Option::None,
            Option::Some(k) => Option::Some(k + 1),
        }
    }
}

/// One translation applied: the first entry carrying the index, if any,
/// gets the new text.
pub open spec fn spec_apply_one(es: Seq<SubtitleEntryV>, index: usize, text: Seq<char>) -> Seq<
    SubtitleEntryV,
> {
    match first_with_index(es, index) {
        Option::None => es,
        Option::Some(k) => es.update(k, SubtitleEntryV { text, ..es[k] }),
    }
}

/// All translations applied in order.
pub open spec fn spec_apply_translations(
    es: Seq<SubtitleEntryV>,
    ts: Seq<(usize, Seq<char>)>,
) -> Seq<SubtitleEntryV>
    decreases ts.len(),
{
    if ts.len() == 0 {
        es
    } else {
        spec_apply_one(spec_apply_translations(es, ts.drop_last()), ts.last().0, ts.last().1)
    }
}

proof fn lemma_first_with_index_found(es: Seq<SubtitleEntryV>, index: usize, i: int)
    requires
        0 <= i < es.len(),
        es[i].index == index,
        forall|k: int| 0 <= k < i ==> (#[trigger] es[k]).index != index,
    ensures
        first_with_index(es, index) == Option::Some(i),
    decreases i,
{
    if i > 0 {
        assert(es.drop_first()[i - 1] == es[i]);
        assert(forall|k: int|
            0 <= k < i - 1 ==> (#[trigger] es.drop_first()[k]).index != index && es.drop_first()[k]
                == es[k + 1]);
        lemma_first_with_index_found(es.drop_first(), index, i - 1);
    }
}

proof fn lemma_first_with_index_none(es: Seq<SubtitleEntryV>, index: usize)
    requires
        forall|k: int| 0 <= k < es.len() ==> (#[trigger] es[k]).index != index,
    ensures
        first_with_index(es, index) is None,
    decreases es.len(),
{
    if es.len() > 0 {
        assert(forall|k: int|
            0 <= k < es.len() - 1 ==> (#[trigger] es.drop_first()[k]).index != index
                && es.drop_first()[k] == es[k + 1]);
        lemma_first_with_index_none(es.drop_first(), index);
    }
}

/// The extension is the lower-cased text after the last dot.
proof fn lemma_extension_from(s: Seq<char>, start: int)
    requires
        0 <= start <= s.len(),
        forall|j: int| start <= j < s.len() ==> s[j] != '.',
        start > 0 ==> s[start - 1] == '.',
    ensures
        spec_extension(s) == crate::text::lower_seq(s.skip(start)),
    decreases s.len() - start,
{
    if s.len() > start {
        assert(forall|j: int|
            start <= j < s.len() - 1 ==> s.drop_last()[j] == s[j] && s.drop_last()[j] != '.');
        lemma_extension_from(s.drop_last(), start);
        assert(s.skip(start) =~= s.drop_last().skip(start).push(s.last()));
        assert(crate::text::lower_seq(s.skip(start)) =~= crate::text::lower_seq(
            s.drop_last().skip(start),
        ).push(spec_to_lower(s.last())));
    } else {
        assert(s.skip(start) =~= Seq::<char>::empty());
        if start > 0 {
            assert(s.last() == '.');
        }
        assert(crate::text::lower_seq(s.skip(start)) =~= Seq::<char>::empty());
    }
}


impl SubtitleFile {
    /// Parses a document in the named format; the VTT format is not
    /// supported.
    pub fn parse(content: &str, format: SubtitleFormat) -> (r: Result<Self, String>)
        ensures
            match format {
                SubtitleFormat::Srt => match r {
                    Ok(f) => {
                        &&& f.format == SubtitleFormat::Srt
                        &&& f.headers is None
                        &&& entry_seq_view(f.entries@) == crate::srt::spec_srt_parse(content@)
                        &&& crate::srt::spec_srt_parse(content@).len() > 0
                    },
                    Err(m) => crate::srt::spec_srt_parse(content@).len() == 0 && m@
                        == "No valid subtitle entries found"@,
                },
                SubtitleFormat::Ass | SubtitleFormat::Ssa => match r {
                    Ok(f) => {
                        &&& f.format == SubtitleFormat::Ass
                        &&& crate::ass::spec_ass_parse(content@).entries.len() > 0
                        &&& entry_seq_view(f.entries@) == crate::ass::spec_ass_parse(
                            content@,
                        ).entries
                        &&& (f.headers matches Option::Some(h) && h.script_info@.map_values(
                            |l: String| l@,
                        ) == crate::ass::spec_ass_parse(content@).script_info
                            && h.styles@.map_values(|l: String| l@) == crate::ass::spec_ass_parse(
                            content@,
                        ).styles && h.fonts@.map_values(|l: String| l@)
                            == crate::ass::spec_ass_parse(content@).fonts
                            && h.graphics@.map_values(|l: String| l@)
                            == crate::ass::spec_ass_parse(content@).graphics)
                    },
                    Err(m) => crate::ass::spec_ass_parse(content@).entries.len() == 0 && m@
                        == "No dialogue entries found in ASS file"@,
                },
                SubtitleFormat::Vtt => r is Err,
            },
    {
        match format {
            SubtitleFormat::Srt => crate::srt::parse(content),
            SubtitleFormat::Ass | SubtitleFormat::Ssa => crate::ass::parse(content),
            SubtitleFormat::Vtt => Err(String::from_str("VTT parsing not yet implemented")),
        }
    }

    /// Writes the file back out in its own format; the VTT format writes
    /// nothing.
    pub fn serialize(&self) -> (r: String)
        ensures
            match self.format {
                SubtitleFormat::Srt => r@ == crate::srt::spec_srt_serialize(
                    entry_seq_view(self.entries@),
                ),
                SubtitleFormat::Ass | SubtitleFormat::Ssa => r@ == crate::ass::spec_ass_serialize(
                    *self,
                ),
                SubtitleFormat::Vtt => r@ == Seq::<char>::empty(),
            },
    {
        match self.format {
            SubtitleFormat::Srt => crate::srt::serialize(self),
            SubtitleFormat::Ass | SubtitleFormat::Ssa => crate::ass::serialize(self),
            SubtitleFormat::Vtt => String::new(),
        }
    }
}


/// Counts the entries whose text differs between two files, position by
/// position over the shorter of the two lists.
#[verifier::loop_isolation(false)]
pub fn count_changed_texts(a: &Vec<SubtitleEntry>, b: &Vec<SubtitleEntry>) -> (n: usize)
    ensures
        n <= a@.len(),
        n as nat == spec_changed_upto(
            entry_seq_view(a@),
            entry_seq_view(b@),
            if a@.len() <= b@.len() {
                a@.len() as int
            } else {
                b@.len() as int
            },
        ),
{
    let m = if a.len() <= b.len() {
        a.len()
    } else {
        b.len()
    };
    let mut n: usize = 0;
    let mut i: usize = 0;
    while i < m
        invariant
            i <= m,
            m <= a@.len(),
            m <= b@.len(),
            n <= i,
            n as nat == spec_changed_upto(entry_seq_view(a@), entry_seq_view(b@), i as int),
        decreases m - i,
    {
        let differs = !crate::text::eq_chars(
            &crate::text::str_to_chars(a[i].text.as_str()),
            &crate::text::str_to_chars(b[i].text.as_str()),
        );
        if differs {
            n = n + 1;
        }
        i = i + 1;
    }
    n
}

/// How many of the first `k` positions hold different texts.
pub open spec fn spec_changed_upto(a: Seq<SubtitleEntryV>, b: Seq<SubtitleEntryV>, k: int) -> nat
    decreases k,
{
    if k <= 0 || k > a.len() || k > b.len() {
        0
    } else {
        spec_changed_upto(a, b, k - 1) + (if a[k - 1].text != b[k - 1].text {
            1nat
        } else {
            0nat
        })
    }
}

} // verus!
