use subtrans::stream::StreamDecoder;

fn frame(content_escaped: &str) -> String {
    // Builds one server-sent-event frame; the fragment must already be
    // JSON-escaped.
    format!(
        "data: {{\"choices\":[{{\"delta\":{{\"content\":\"{}\"}}}}]}}\n",
        content_escaped
    )
}

#[test]
fn test_stream_emits_completed_lines() {
    let originals = vec![(1, "Hello World".to_string())];
    let mut decoder = StreamDecoder::new(originals);

    // The protocol line arrives split across frames and chunks, with the
    // placeholder crossing a frame boundary.
    let mut out = decoder.push_chunk(&frame("1|Hel"));
    assert!(out.is_empty());
    out.extend(decoder.push_chunk(&frame("lo<<NEW")));
    assert!(out.is_empty());
    out.extend(decoder.push_chunk(&frame("LINE>>World\\n")));
    assert_eq!(out, vec![(1, "Hello\nWorld".to_string())]);
}

#[test]
fn test_stream_flushes_final_line() {
    let originals = vec![(7, "seven".to_string())];
    let mut decoder = StreamDecoder::new(originals);
    let out = decoder.push_chunk(&frame("7|sete"));
    assert!(out.is_empty());
    assert_eq!(decoder.finish(), Some((7, "sete".to_string())));
    assert_eq!(decoder.finish(), None);
}

#[test]
fn test_stream_ignores_done_and_blank_frames() {
    let originals = vec![(1, "one".to_string())];
    let mut decoder = StreamDecoder::new(originals);
    let mut text = String::new();
    text.push_str(&frame("1|um\\n"));
    text.push_str("\n");
    text.push_str("data: [DONE]\n");
    let out = decoder.push_chunk(&text);
    assert_eq!(out, vec![(1, "um".to_string())]);
    assert_eq!(decoder.finish(), None);
}

#[test]
fn test_stream_drops_tag_incompatible_entry() {
    let originals = vec![(1, r"{\i1}Hi{\i0}".to_string()), (2, "plain".to_string())];
    let mut decoder = StreamDecoder::new(originals);
    let out = decoder.push_chunk(&frame("1|no tags here\\n2|ok\\n"));
    // The first entry loses its tags and is dropped; the second passes.
    assert_eq!(out, vec![(2, "ok".to_string())]);
}

#[test]
fn test_stream_unknown_index_is_emitted() {
    let originals = vec![(1, "one".to_string())];
    let mut decoder = StreamDecoder::new(originals);
    let out = decoder.push_chunk(&frame("99|mystery\\n"));
    assert_eq!(out, vec![(99, "mystery".to_string())]);
}

#[test]
fn test_stream_ignores_malformed_frames() {
    let originals = Vec::new();
    let mut decoder = StreamDecoder::new(originals);
    let mut text = String::new();
    text.push_str("data: not json at all\n");
    text.push_str("event: ping\n");
    text.push_str(&frame("3|fine\\n"));
    let out = decoder.push_chunk(&text);
    assert_eq!(out, vec![(3, "fine".to_string())]);
}
