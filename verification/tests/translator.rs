use subtrans::codec::{
    build_instruction, decode_translations, encode_batch, extract_json_candidate,
    parse_translated_batch, parse_translation_line, strip_think_blocks, NEWLINE_PLACEHOLDER,
};
use subtrans::endpoint::{
    detect_api_format, models_url, normalize_endpoint_for_format, normalize_llm_config, ApiFormat,
    LlmConfig,
};
use subtrans::tags::{normalize_ass_tag, tags_compatible};

#[test]
fn test_default_config() {
    let config = LlmConfig::default();
    assert!(config.endpoint.contains("localhost"));
    assert_eq!(config.api_key, "dummy");
}

#[test]
fn test_detect_api_format() {
    assert_eq!(
        detect_api_format("https://api.anthropic.com/v1", &ApiFormat::Auto),
        ApiFormat::Anthropic
    );
    assert_eq!(
        detect_api_format("https://example.com/v1/messages", &ApiFormat::Auto),
        ApiFormat::Anthropic
    );
    assert_eq!(
        detect_api_format("https://example.com/v1", &ApiFormat::Auto),
        ApiFormat::OpenAI
    );
    assert_eq!(
        detect_api_format("https://api.anthropic.com", &ApiFormat::OpenAI),
        ApiFormat::OpenAI
    );
}

#[test]
fn test_normalize_endpoint() {
    assert_eq!(
        normalize_endpoint_for_format("https://example.com/v1/", &ApiFormat::OpenAI),
        "https://example.com/v1/chat/completions"
    );
    assert_eq!(
        normalize_endpoint_for_format("https://example.com/v1/chat/completions", &ApiFormat::OpenAI),
        "https://example.com/v1/chat/completions"
    );
    assert_eq!(
        normalize_endpoint_for_format("https://example.com/v1", &ApiFormat::Anthropic),
        "https://example.com/v1/messages"
    );
    assert_eq!(normalize_endpoint_for_format("   ", &ApiFormat::OpenAI), "");
}

#[test]
fn test_models_url() {
    assert_eq!(
        models_url("https://example.com/v1/chat/completions"),
        "https://example.com/v1/models"
    );
    assert_eq!(
        models_url("https://example.com/v1/messages"),
        "https://example.com/v1/models"
    );
}

#[test]
fn test_normalize_llm_config() {
    let config = LlmConfig {
        endpoint: "https://api.anthropic.com/v1".to_string(),
        api_key: "k".to_string(),
        model: "m".to_string(),
        api_format: ApiFormat::Auto,
        headers: Vec::new(),
    };
    let normalized = normalize_llm_config(config);
    assert_eq!(normalized.api_format, ApiFormat::Anthropic);
    assert_eq!(normalized.endpoint, "https://api.anthropic.com/v1/messages");
}

#[test]
fn test_tags_compatible_reflexive() {
    assert!(tags_compatible("plain text", "plain text"));
    assert!(tags_compatible(r"{\i1}Hello{\i0}", r"{\i1}Hello{\i0}"));
}

#[test]
fn test_tags_compatible_same_tags_different_text() {
    assert!(tags_compatible(r"{\i1}A{\i0}", r"{\i1}B{\i0}"));
}

#[test]
fn test_tags_compatible_dropped_tag() {
    assert!(!tags_compatible(r"{\i1}A", "A"));
    assert!(!tags_compatible("A", r"{\i1}A"));
}

#[test]
fn test_tags_compatible_numeric_magnitude() {
    assert!(tags_compatible(r"{\pos(10,20)}Hi", r"{\pos(30,40)}Ho"));
    assert!(tags_compatible(r"{\POS(10,20)}Hi", r"{\pos(10,20)}Ho"));
}

#[test]
fn test_tags_compatible_order_insensitive() {
    assert!(tags_compatible(r"{\i1}a{\b1}b", r"{\b1}x{\i1}y"));
}

#[test]
fn test_normalize_ass_tag() {
    assert_eq!(normalize_ass_tag(r"{\POS(10,20)}"), r"{\pos(,)}");
    assert_eq!(normalize_ass_tag(r"{\i1}"), r"{\i}");
}

#[test]
fn test_strip_think_blocks() {
    assert_eq!(
        strip_think_blocks("a<think>secret</think>b"),
        "ab".to_string()
    );
    assert_eq!(
        strip_think_blocks("<think>unterminated ..."),
        "<think>unterminated ...".to_string()
    );
    assert_eq!(
        strip_think_blocks("x<think>1</think>y<think>2</think>z"),
        "xyz".to_string()
    );
}

#[test]
fn test_parse_translation_line() {
    assert_eq!(
        parse_translation_line("5|Hello<<NEWLINE>>World"),
        Some((5, "Hello\nWorld".to_string()))
    );
    assert_eq!(
        parse_translation_line(" 12 |text"),
        Some((12, "text".to_string()))
    );
    assert_eq!(parse_translation_line("```"), None);
    assert_eq!(parse_translation_line("no separator"), None);
    assert_eq!(parse_translation_line("x|not a number"), None);
    assert_eq!(parse_translation_line(""), None);
}

#[test]
fn test_encode_batch() {
    let entries = vec![
        (1, "It's a special event\nthat everyone attends".to_string()),
        (2, r"Line\Nwith ass break".to_string()),
    ];
    let encoded = encode_batch(&entries);
    assert_eq!(
        encoded,
        "1|It's a special event<<NEWLINE>>that everyone attends\n2|Line<<NEWLINE>>with ass break"
    );
}

#[test]
fn test_instruction_mentions_placeholder() {
    let instruction = build_instruction("Translate to Portuguese");
    assert!(instruction.starts_with("Translate to Portuguese"));
    assert!(instruction.contains(NEWLINE_PLACEHOLDER));
    assert!(instruction.contains("CRITICAL FORMAT INSTRUCTIONS"));
}

#[test]
fn test_roundtrip_placeholder() {
    // Encoding escapes every line-break form; decoding restores literal
    // newlines, so the logical line breaks survive the round trip.
    let entries = vec![
        (1, "a\nb".to_string()),
        (2, r"c\Nd".to_string()),
        (3, r"e\nf".to_string()),
    ];
    let encoded = encode_batch(&entries);
    let decoded = decode_translations(&encoded).unwrap();
    assert_eq!(
        decoded,
        vec![
            (1, "a\nb".to_string()),
            (2, "c\nd".to_string()),
            (3, "e\nf".to_string()),
        ]
    );
}

#[test]
fn test_decode_joins_stray_lines() {
    let response = "1|first part\nsecond part\n2|other";
    let decoded = decode_translations(response).unwrap();
    assert_eq!(
        decoded,
        vec![
            (1, "first part\nsecond part".to_string()),
            (2, "other".to_string()),
        ]
    );
}

#[test]
fn test_decode_skips_fences_and_think() {
    let response = "<think>reasoning</think>```\n1|hello\n```";
    let decoded = decode_translations(response).unwrap();
    assert_eq!(decoded, vec![(1, "hello".to_string())]);
}

#[test]
fn test_decode_empty_is_error() {
    let err = decode_translations("nothing matches").unwrap_err();
    assert_eq!(err, "Failed to parse translation response");
}

#[test]
fn test_parse_translated_batch_accepts_compatible() {
    let entries = vec![(1, r"{\i1}Hi{\i0}".to_string())];
    let out = parse_translated_batch(&entries, r"1|{\i1}Salut{\i0}").unwrap();
    assert_eq!(out, vec![(1, r"{\i1}Salut{\i0}".to_string())]);
}

#[test]
fn test_parse_translated_batch_rejects_mismatch() {
    let entries = vec![(1, r"{\i1}Hi{\i0}".to_string())];
    let err = parse_translated_batch(&entries, "1|Salut").unwrap_err();
    assert!(err.contains("incompatible ASS tags"));
    assert!(err.contains("Salut"));
}

#[test]
fn test_extract_json_candidate() {
    assert_eq!(
        extract_json_candidate("  {\"code\": \"por\"}  "),
        "{\"code\": \"por\"}"
    );
    assert_eq!(
        extract_json_candidate("```json\n{\"a\": 1}\n```"),
        "{\"a\": 1}"
    );
    assert_eq!(
        extract_json_candidate("<think>hm</think>noise {\"a\": 1} more"),
        "{\"a\": 1}"
    );
    assert_eq!(extract_json_candidate("no braces"), "no braces");
}
