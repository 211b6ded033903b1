//! Streaming pipeline: reconstructs protocol lines from a server-sent-event
//! stream and emits each fully decoded entry as soon as its line is
//! complete.
//!
//! Frames arrive as `data: {json}` lines; the JSON payload carries
//! incremental content fragments.  The fragments are joined, split at every
//! newline, and each completed line runs through the protocol parser and
//! the tag validator; an entry whose tags do not match its original is
//! dropped silently.

use vstd::prelude::*;

use crate::codec::spec_parse_line;
use crate::tags::{spec_tags_compatible, tags_compatible};
use crate::text::{
    chars_to_string, has_prefix, spec_trim, str_to_chars, sub_chars, trim_chars,
};

verus! {

// ---------------------------------------------------------------------------
// The trusted frame reader
// ---------------------------------------------------------------------------

/// The content fragments carried by one frame payload, concatenated in
/// order; nothing when the payload is not a chat-completion chunk.
pub uninterp spec fn sse_delta_of(json: Seq<char>) -> Option<Seq<char>>;

/// Relies on `serde_json::from_str` and `serde_json::Value`'s accessors:
/// reads one server-sent-event payload and hands back the concatenated
/// `choices[..].delta.content` fragments, or nothing when the payload does
/// not parse to an object with a `choices` array.  The result depends on
/// the payload text alone.
#[verifier::external_body]
fn sse_delta_content(json: &str) -> (r: Option<String>)
    ensures
        match r {
            Some(c) => sse_delta_of(json@) == Option::Some(c@),
            None => sse_delta_of(json@) is None,
        },
{
    let v: serde_json::Value = match serde_json::from_str(json) {
        Ok(v) => v,
        Err(_) => return None,
    };
    let choices = v.get("choices")?.as_array()?;
    let mut out = String::new();
    for c in choices {
        if let Some(t) = c.get("delta").and_then(|d| d.get("content")).and_then(|x| x.as_str()) {
            out.push_str(t);
        }
    }
    Some(out)
}

// ---------------------------------------------------------------------------
// Frame classification
// ---------------------------------------------------------------------------

/// The frame prefix `data: `.
pub open spec fn data_prefix() -> Seq<char> {
    seq!['d', 'a', 't', 'a', ':', ' ']
}

/// The terminal frame `data: [DONE]`.
pub open spec fn data_done() -> Seq<char> {
    seq!['d', 'a', 't', 'a', ':', ' ', '[', 'D', 'O', 'N', 'E', ']']
}

/// The content one SSE line contributes: nothing for blank lines, the
/// terminal frame, lines without the frame prefix, and unparsable
/// payloads.
pub open spec fn content_of_line(line: Seq<char>) -> Seq<char> {
    let l = spec_trim(line);
    if l.len() == 0 || l == data_done() {
        Seq::empty()
    } else if has_prefix(l, data_prefix()) {
        match sse_delta_of(l.skip(6)) {
            Option::Some(c) => c,
            Option::None => Seq::empty(),
        }
    } else {
        Seq::empty()
    }
}

// ---------------------------------------------------------------------------
// Per-line emission
// ---------------------------------------------------------------------------

/// The original text registered for `index`; when the same index occurs
/// twice, the later entry counts.
pub open spec fn lookup_original(entries: Seq<(usize, String)>, index: usize) -> Option<Seq<char>>
    decreases entries.len(),
{
    if entries.len() == 0 {
        Option::None
    } else if entries.last().0 == index {
        Option::Some(entries.last().1@)
    } else {
        lookup_original(entries.drop_last(), index)
    }
}

/// What a completed protocol line emits: its decoded entry, unless the
/// entry's tags do not match the registered original, in which case it is
/// dropped.  An entry with an unknown index is emitted.
pub open spec fn spec_emit_line(current: Seq<char>, originals: Seq<(usize, String)>) -> Option<
    (usize, Seq<char>),
> {
    match spec_parse_line(spec_trim(current)) {
        Option::None => Option::None,
        Option::Some((index, text)) => {
            let keep = match lookup_original(originals, index) {
                Option::None => true,
                Option::Some(orig) => spec_tags_compatible(orig, text),
            };
            if keep {
                Option::Some((index, text))
            } else {
                Option::None
            }
        },
    }
}

/// Looks up the registered original of an index.
#[verifier::loop_isolation(false)]
fn find_original(entries: &Vec<(usize, String)>, index: usize) -> (r: Option<String>)
    ensures
        match r {
            Some(o) => lookup_original(entries@, index) == Option::Some(o@),
            None => lookup_original(entries@, index) is None,
        },
{
    let mut i: usize = entries.len();
    assert(entries@.take(i as int) =~= entries@);
    while i > 0
        invariant
            i <= entries.len(),
            lookup_original(entries@, index) == lookup_original(entries@.take(i as int), index),
        decreases i,
    {
        proof {
            assert(entries@.take(i as int).last() == entries@[i - 1]);
            assert(entries@.take(i as int).drop_last() =~= entries@.take(i - 1));
        }
        if entries[i - 1].0 == index {
            return Some(entries[i - 1].1.clone());
        }
        i = i - 1;
    }
    assert(entries@.take(0) =~= Seq::<(usize, String)>::empty());
    None
}

/// Parses and validates one completed protocol line.
fn emit_line(current: &Vec<char>, originals: &Vec<(usize, String)>) -> (r: Option<
    (usize, String),
>)
    ensures
        match r {
            Some((i, t)) => spec_emit_line(current@, originals@) == Option::Some((i, t@)),
            None => spec_emit_line(current@, originals@) is None,
        },
{
    let trimmed = trim_chars(current);
    let line = chars_to_string(&trimmed);
    match crate::codec::parse_translation_line(line.as_str()) {
        Some((index, text)) => {
            let keep = match find_original(originals, index) {
                Some(orig) => tags_compatible(orig.as_str(), text.as_str()),
                None => true,
            };
            if keep {
                Some((index, text))
            } else {
                None
            }
        },
        None => None,
    }
}

// ---------------------------------------------------------------------------
// The stream machine
// ---------------------------------------------------------------------------

/// The content of one complete SSE line.
fn frame_content(line: &Vec<char>) -> (r: Vec<char>)
    ensures
        r@ == content_of_line(line@),
{
    let trimmed = trim_chars(line);
    if trimmed.len() == 0 {
        let r: Vec<char> = Vec::new();
        assert(r@ =~= content_of_line(line@));
        return r;
    }
    let mut done_pat: Vec<char> = Vec::new();
    done_pat.push('d');
    done_pat.push('a');
    done_pat.push('t');
    done_pat.push('a');
    done_pat.push(':');
    done_pat.push(' ');
    done_pat.push('[');
    done_pat.push('D');
    done_pat.push('O');
    done_pat.push('N');
    done_pat.push('E');
    done_pat.push(']');
    assert(done_pat@ =~= data_done());
    if crate::text::eq_chars(&trimmed, &done_pat) {
        let r: Vec<char> = Vec::new();
        assert(r@ =~= content_of_line(line@));
        return r;
    }
    let mut prefix_pat: Vec<char> = Vec::new();
    prefix_pat.push('d');
    prefix_pat.push('a');
    prefix_pat.push('t');
    prefix_pat.push('a');
    prefix_pat.push(':');
    prefix_pat.push(' ');
    assert(prefix_pat@ =~= data_prefix());
    if !crate::text::starts_with_chars(&trimmed, &prefix_pat) {
        let r: Vec<char> = Vec::new();
        assert(r@ =~= content_of_line(line@));
        return r;
    }
    let payload = sub_chars(&trimmed, 6, trimmed.len());
    assert(payload@ =~= spec_trim(line@).skip(6));
    let payload_str = chars_to_string(&payload);
    match sse_delta_content(payload_str.as_str()) {
        Some(content) => {
            let r = str_to_chars(content.as_str());
            assert(r@ =~= content_of_line(line@));
            r
        },
        None => {
            let r: Vec<char> = Vec::new();
            assert(r@ =~= content_of_line(line@));
            r
        },
    }
}


/// The view of emitted entries.
pub open spec fn emitted_view(v: Seq<(usize, String)>) -> Seq<(usize, Seq<char>)> {
    v.map_values(|p: (usize, String)| (p.0, p.1@))
}

/// One emission as a sequence of zero or one entries.
pub open spec fn emit_seq(current: Seq<char>, originals: Seq<(usize, String)>) -> Seq<
    (usize, Seq<char>),
> {
    match spec_emit_line(current, originals) {
        Option::None => Seq::empty(),
        Option::Some(e) => seq![e],
    }
}

/// Content characters fed through the protocol-line machine: every
/// newline completes the open line, which is parsed and possibly emitted.
pub open spec fn process_content(
    content: Seq<char>,
    current: Seq<char>,
    originals: Seq<(usize, String)>,
) -> (Seq<(usize, Seq<char>)>, Seq<char>)
    decreases content.len(),
{
    if content.len() == 0 {
        (Seq::empty(), current)
    } else if content[0] == '\n' {
        let here = emit_seq(current, originals);
        let rest = process_content(content.skip(1), Seq::empty(), originals);
        (here + rest.0, rest.1)
    } else {
        process_content(content.skip(1), current.push(content[0]), originals)
    }
}

/// Stream text fed through the SSE framing: every newline completes one
/// SSE line, whose content runs through the protocol-line machine.
pub open spec fn process_sse(
    text: Seq<char>,
    sse_buf: Seq<char>,
    current: Seq<char>,
    originals: Seq<(usize, String)>,
) -> (Seq<(usize, Seq<char>)>, Seq<char>, Seq<char>)
    decreases text.len(),
{
    if text.len() == 0 {
        (Seq::empty(), sse_buf, current)
    } else if text[0] == '\n' {
        let step = process_content(content_of_line(sse_buf), current, originals);
        let rest = process_sse(text.skip(1), Seq::empty(), step.1, originals);
        (step.0 + rest.0, rest.1, rest.2)
    } else {
        process_sse(text.skip(1), sse_buf.push(text[0]), current, originals)
    }
}

/// The incremental decoder of one streamed response.
pub struct StreamDecoder {
    /// The originals, for tag validation.
    pub originals: Vec<(usize, String)>,
    /// The partial SSE line read so far.
    pub sse_buffer: Vec<char>,
    /// The partial protocol line reconstructed so far.
    pub current: Vec<char>,
}

impl StreamDecoder {
    /// Starts a decoder over the batch's original entries.
    pub fn new(originals: Vec<(usize, String)>) -> (r: Self)
        ensures
            r.originals == originals,
            r.sse_buffer@ == Seq::<char>::empty(),
            r.current@ == Seq::<char>::empty(),
    {
        StreamDecoder { originals, sse_buffer: Vec::new(), current: Vec::new() }
    }

    /// Feeds content characters through the protocol-line machine.
    #[verifier::loop_isolation(false)]
    fn push_content(&mut self, content: &Vec<char>, out: &mut Vec<(usize, String)>)
        ensures
            final(self).originals == old(self).originals,
            final(self).sse_buffer == old(self).sse_buffer,
            ({
                let step = process_content(content@, old(self).current@, old(self).originals@);
                emitted_view(final(out)@) == emitted_view(old(out)@) + step.0
                    && final(self).current@ == step.1
            }),
    {
        let ghost orig_out = out@;
        let mut i: usize = 0;
        proof {
            assert(content@.skip(0) =~= content@);
            assert(out@.skip(orig_out.len() as int) =~= Seq::<(usize, String)>::empty());
        }
        while i < content.len()
            invariant
                i <= content.len(),
                self.originals == old(self).originals,
                self.sse_buffer == old(self).sse_buffer,
                out@.len() >= orig_out.len(),
                out@.take(orig_out.len() as int) == orig_out,
                ({
                    let whole = process_content(
                        content@,
                        old(self).current@,
                        old(self).originals@,
                    );
                    let step = process_content(
                        content@.skip(i as int),
                        self.current@,
                        self.originals@,
                    );
                    whole.0 == emitted_view(out@.skip(orig_out.len() as int)) + step.0 && whole.1
                        == step.1
                }),
            decreases content.len() - i,
        {
            proof {
                assert(content@.skip(i as int)[0] == content@[i as int]);
                assert(content@.skip(i as int).skip(1) =~= content@.skip(i + 1));
            }
            let c = content[i];
            if c == '\n' {
                match emit_line(&self.current, &self.originals) {
                    Some(e) => {
                        let ghost prev = out@;
                        out.push(e);
                        proof {
                            assert(out@.take(orig_out.len() as int) =~= prev.take(
                                orig_out.len() as int,
                            ));
                            assert(emitted_view(out@.skip(orig_out.len() as int)) =~= emitted_view(
                                prev.skip(orig_out.len() as int),
                            ) + seq![(out@.last().0, out@.last().1@)]);
                        }
                    },
                    None => {},
                }
                self.current = Vec::new();
            } else {
                self.current.push(c);
            }
            i = i + 1;
        }
        proof {
            assert(content@.skip(i as int) =~= Seq::<char>::empty());
            assert(out@ =~= orig_out + out@.skip(orig_out.len() as int));
            assert(emitted_view(out@) =~= emitted_view(orig_out) + emitted_view(out@.skip(
                orig_out.len() as int,
            )));
        }
    }

    /// Feeds one chunk of stream text in and returns the entries it
    /// completes, in order.
    #[verifier::loop_isolation(false)]
    pub fn push_chunk(&mut self, chunk: &str) -> (out: Vec<(usize, String)>)
        ensures
            final(self).originals == old(self).originals,
            ({
                let step = process_sse(
                    chunk@,
                    old(self).sse_buffer@,
                    old(self).current@,
                    old(self).originals@,
                );
                emitted_view(out@) == step.0 && final(self).sse_buffer@ == step.1
                    && final(self).current@ == step.2
            }),
    {
        let chars = str_to_chars(chunk);
        let mut out: Vec<(usize, String)> = Vec::new();
        let mut i: usize = 0;
        proof {
            assert(chars@.skip(0) =~= chars@);
            assert(emitted_view(out@) =~= Seq::<(usize, Seq<char>)>::empty());
        }
        while i < chars.len()
            invariant
                i <= chars.len(),
                chars@ == chunk@,
                self.originals == old(self).originals,
                ({
                    let whole = process_sse(
                        chunk@,
                        old(self).sse_buffer@,
                        old(self).current@,
                        old(self).originals@,
                    );
                    let step = process_sse(
                        chunk@.skip(i as int),
                        self.sse_buffer@,
                        self.current@,
                        self.originals@,
                    );
                    whole.0 == emitted_view(out@) + step.0 && whole.1 == step.1 && whole.2
                        == step.2
                }),
            decreases chars.len() - i,
        {
            proof {
                assert(chunk@.skip(i as int)[0] == chunk@[i as int]);
                assert(chunk@.skip(i as int).skip(1) =~= chunk@.skip(i + 1));
            }
            let c = chars[i];
            if c == '\n' {
                let ghost buf0 = self.sse_buffer@;
                let ghost cur0 = self.current@;
                let content = frame_content(&self.sse_buffer);
                self.sse_buffer = Vec::new();
                let ghost out_before = out@;
                self.push_content(&content, &mut out);
                proof {
                    let stepc = process_content(content_of_line(buf0), cur0, self.originals@);
                    let rest = process_sse(
                        chunk@.skip(i + 1),
                        Seq::empty(),
                        stepc.1,
                        self.originals@,
                    );
                    assert(emitted_view(out_before) + (stepc.0 + rest.0) =~= (emitted_view(
                        out_before,
                    ) + stepc.0) + rest.0);
                }
            } else {
                self.sse_buffer.push(c);
            }
            i = i + 1;
        }
        proof {
            assert(chunk@.skip(i as int) =~= Seq::<char>::empty());
        }
        out
    }

    /// Flushes the final partial protocol line once the stream ends.
    pub fn finish(&mut self) -> (r: Option<(usize, String)>)
        ensures
            final(self).originals == old(self).originals,
            final(self).current@ == Seq::<char>::empty(),
            match r {
                Some((i, t)) => spec_emit_line(old(self).current@, old(self).originals@)
                    == Option::Some((i, t@)),
                None => spec_emit_line(old(self).current@, old(self).originals@) is None,
            },
    {
        let r = emit_line(&self.current, &self.originals);
        self.current = Vec::new();
        r
    }
}

} // verus!
