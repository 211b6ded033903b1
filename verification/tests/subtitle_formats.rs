use subtrans::ass;
use subtrans::srt;
use subtrans::subtitle::{
    AssHeaders, SubtitleEntry, SubtitleFile, SubtitleFormat, SubtitleMetadata,
};

fn plain_metadata(style: Option<&str>, layer: Option<i32>) -> SubtitleMetadata {
    SubtitleMetadata {
        style: style.map(|s| s.to_string()),
        name: None,
        margin_l: None,
        margin_r: None,
        margin_v: None,
        effect: None,
        layer,
    }
}

#[test]
fn test_parse_ass() {
    let content = r#"[Script Info]
Title: Test
ScriptType: v4.00+

[V4+ Styles]
Format: Name, Fontname, Fontsize, PrimaryColour
Style: Default,Arial,20,&H00FFFFFF

[Events]
Format: Layer, Start, End, Style, Name, MarginL, MarginR, MarginV, Effect, Text
Dialogue: 0,0:00:01.00,0:00:04.00,Default,,0000,0000,0000,,Hello World
Dialogue: 0,0:00:05.00,0:00:08.00,Default,,0000,0000,0000,,{\i1}Italic text{\i0}
"#;

    let result = ass::parse(content).unwrap();
    assert_eq!(result.format, SubtitleFormat::Ass);
    assert_eq!(result.entries.len(), 2);
    assert_eq!(result.entries[0].text, "Hello World");
    assert_eq!(result.entries[1].text, r"{\i1}Italic text{\i0}");

    let headers = result.headers.as_ref().unwrap();
    assert!(headers
        .script_info
        .iter()
        .any(|l| l.contains("Title: Test")));
    assert!(headers.styles.iter().any(|l| l.contains("Style: Default")));
}

#[test]
fn test_serialize_ass() {
    let file = SubtitleFile {
        format: SubtitleFormat::Ass,
        entries: vec![SubtitleEntry {
            index: 1,
            start_time: "0:00:01.00".to_string(),
            end_time: "0:00:04.00".to_string(),
            text: "Hello".to_string(),
            metadata: Some(plain_metadata(Some("Default"), Some(0))),
        }],
        headers: Some(AssHeaders {
            script_info: vec!["[Script Info]".to_string(), "Title: Test".to_string()],
            styles: vec![
                "[V4+ Styles]".to_string(),
                "Format: Name, Fontname".to_string(),
                "Style: Default,Arial".to_string(),
            ],
            fonts: Vec::new(),
            graphics: Vec::new(),
        }),
    };

    let output = ass::serialize(&file);
    assert!(output.contains("[Script Info]"));
    assert!(output.contains("Title: Test"));
    assert!(output.contains("[Events]"));
    assert!(output.contains("Dialogue:"));
}

#[test]
fn test_parse_srt() {
    let content = r#"1
00:00:01,000 --> 00:00:04,000
Hello World

2
00:00:05,000 --> 00:00:08,000
This is a test
with multiple lines
"#;

    let result = srt::parse(content).unwrap();
    assert_eq!(result.entries.len(), 2);
    assert_eq!(result.entries[0].text, "Hello World");
    assert_eq!(
        result.entries[1].text,
        "This is a test\nwith multiple lines"
    );
}

#[test]
fn test_serialize_srt() {
    let file = SubtitleFile {
        format: SubtitleFormat::Srt,
        entries: vec![SubtitleEntry {
            index: 1,
            start_time: "00:00:01,000".to_string(),
            end_time: "00:00:04,000".to_string(),
            text: "Hello".to_string(),
            metadata: None,
        }],
        headers: None,
    };

    let output = srt::serialize(&file);
    assert!(output.contains("1\n00:00:01,000 --> 00:00:04,000\nHello"));
}

#[test]
fn test_detect_format() {
    assert_eq!(
        SubtitleFile::detect_format("movie.srt"),
        Some(SubtitleFormat::Srt)
    );
    assert_eq!(
        SubtitleFile::detect_format("Movie.Episode.ASS"),
        Some(SubtitleFormat::Ass)
    );
    assert_eq!(
        SubtitleFile::detect_format("old.ssa"),
        Some(SubtitleFormat::Ssa)
    );
    assert_eq!(
        SubtitleFile::detect_format("web.vtt"),
        Some(SubtitleFormat::Vtt)
    );
    assert_eq!(SubtitleFile::detect_format("noext"), None);
    assert_eq!(SubtitleFile::detect_format("trailing.dot."), None);
}

#[test]
fn test_parse_srt_rejects_empty() {
    let err = srt::parse("no blocks here").unwrap_err();
    assert_eq!(err, "No valid subtitle entries found");
}

#[test]
fn test_parse_ass_rejects_no_dialogue() {
    let err = ass::parse("[Script Info]\nTitle: Empty\n").unwrap_err();
    assert_eq!(err, "No dialogue entries found in ASS file");
}

#[test]
fn test_parse_srt_timestamps_captured() {
    let content = "3\n  00:01:02,345 -->   00:01:04,000  \nLine\n";
    let result = srt::parse(content).unwrap();
    assert_eq!(result.entries[0].index, 3);
    assert_eq!(result.entries[0].start_time, "00:01:02,345");
    assert_eq!(result.entries[0].end_time, "00:01:04,000");
    assert_eq!(result.entries[0].text, "Line");
}

#[test]
fn test_serialize_srt_exact() {
    let file = SubtitleFile {
        format: SubtitleFormat::Srt,
        entries: vec![
            SubtitleEntry {
                index: 1,
                start_time: "00:00:01,000".to_string(),
                end_time: "00:00:02,000".to_string(),
                text: "A".to_string(),
                metadata: None,
            },
            SubtitleEntry {
                index: 2,
                start_time: "00:00:03,000".to_string(),
                end_time: "00:00:04,000".to_string(),
                text: "B\nC".to_string(),
                metadata: None,
            },
        ],
        headers: None,
    };
    let out = srt::serialize(&file);
    assert_eq!(
        out,
        "1\n00:00:01,000 --> 00:00:02,000\nA\n\n2\n00:00:03,000 --> 00:00:04,000\nB\nC\n"
    );
}

#[test]
fn test_serialize_ass_margins_padded() {
    let file = SubtitleFile {
        format: SubtitleFormat::Ass,
        entries: vec![SubtitleEntry {
            index: 1,
            start_time: "0:00:01.00".to_string(),
            end_time: "0:00:02.00".to_string(),
            text: "Two\nlines".to_string(),
            metadata: Some(SubtitleMetadata {
                style: None,
                name: None,
                margin_l: Some(12),
                margin_r: None,
                margin_v: Some(-5),
                effect: None,
                layer: Some(1),
            }),
        }],
        headers: None,
    };
    let out = ass::serialize(&file);
    assert!(out.contains(
        "Dialogue: 1,0:00:01.00,0:00:02.00,Default,,0012,0000,-005,,Two\\Nlines\n"
    ));
}

#[test]
fn test_apply_translations() {
    let mut file = SubtitleFile {
        format: SubtitleFormat::Srt,
        entries: vec![
            SubtitleEntry {
                index: 1,
                start_time: "a".to_string(),
                end_time: "b".to_string(),
                text: "one".to_string(),
                metadata: None,
            },
            SubtitleEntry {
                index: 2,
                start_time: "c".to_string(),
                end_time: "d".to_string(),
                text: "two".to_string(),
                metadata: None,
            },
        ],
        headers: None,
    };
    file.apply_translations(vec![(2, "TWO".to_string()), (9, "missing".to_string())]);
    assert_eq!(file.entries[0].text, "one");
    assert_eq!(file.entries[1].text, "TWO");

    let texts = file.extract_texts();
    assert_eq!(texts, vec![(1, "one".to_string()), (2, "TWO".to_string())]);
}

#[test]
fn test_count_changed_texts() {
    let mk = |texts: &[&str]| -> Vec<SubtitleEntry> {
        texts
            .iter()
            .enumerate()
            .map(|(i, t)| SubtitleEntry {
                index: i + 1,
                start_time: "s".to_string(),
                end_time: "e".to_string(),
                text: t.to_string(),
                metadata: None,
            })
            .collect()
    };
    let original = mk(&["a", "b", "c"]);
    let translated = mk(&["a", "B", "C"]);
    assert_eq!(
        subtrans::subtitle::count_changed_texts(&translated, &original),
        2
    );
    assert_eq!(
        subtrans::subtitle::count_changed_texts(&original, &original),
        0
    );
}
