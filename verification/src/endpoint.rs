//! Endpoint adapter: wire-dialect selection and endpoint URL normalization.
//!
//! A user-supplied base URL is bound to exactly one request dialect
//! (OpenAI-style chat completions or Anthropic-style messages) and extended
//! with that dialect's canonical resource suffix.

use vstd::prelude::*;

use crate::text::{
    chars_to_string, ends_with_chars, find_sub, first_match_from, has_suffix, lower_chars,
    lower_seq, spec_trim, str_to_chars, trim_chars,
};

verus! {

/// The wire dialect used to talk to the model endpoint.
#[derive(Clone, Copy, Debug, PartialEq, Eq, Structural)]
pub enum ApiFormat {
    OpenAI,
    Anthropic,
    Auto,
}

impl Default for ApiFormat {
    /// The default dialect is OpenAI-style chat completions.
    fn default() -> (r: Self)
        ensures
            r == ApiFormat::OpenAI,
    {
        ApiFormat::OpenAI
    }
}

/// Connection settings for the model endpoint.
#[derive(Clone, Debug)]
pub struct LlmConfig {
    pub endpoint: String,
    pub api_key: String,
    pub model: String,
    pub api_format: ApiFormat,
    pub headers: Vec<(String, String)>,
}

impl Default for LlmConfig {
    /// A local OpenAI-style endpoint with a placeholder key.
    fn default() -> (r: Self)
        ensures
            r.endpoint@ == "http://localhost:8317/v1/chat/completions"@,
            r.api_key@ == "dummy"@,
            r.model@ == "gemini-2.5-pro"@,
            r.api_format == ApiFormat::OpenAI,
            r.headers@.len() == 0,
    {
        LlmConfig {
            endpoint: String::from_str("http://localhost:8317/v1/chat/completions"),
            api_key: String::from_str("dummy"),
            model: String::from_str("gemini-2.5-pro"),
            api_format: ApiFormat::OpenAI,
            headers: Vec::new(),
        }
    }
}

/// A model offered by the endpoint's listing resource.
#[derive(Clone, Debug)]
pub struct LlmModel {
    pub id: String,
    pub object: String,
    pub owned_by: Option<String>,
    pub name: Option<String>,
    pub description: Option<String>,
    pub context_length: Option<u64>,
}

/// One chat message of an OpenAI-style request.
#[derive(Clone, Debug)]
pub struct ChatMessage {
    pub role: String,
    pub content: String,
}

// ---------------------------------------------------------------------------
// Dialect detection
// ---------------------------------------------------------------------------

/// `pat` occurs somewhere in `s`.
pub open spec fn contains_sub(s: Seq<char>, pat: Seq<char>) -> bool {
    first_match_from(s, pat, 0) is Some
}

/// The dialect chosen for an endpoint: an explicit configuration wins, and
/// `Auto` resolves to Anthropic when the lower-cased URL mentions
/// "anthropic", ends in "/messages" or contains "/v1/messages", otherwise to
/// OpenAI.
pub open spec fn spec_detect_api_format(endpoint: Seq<char>, configured: ApiFormat) -> ApiFormat {
    if configured != ApiFormat::Auto {
        configured
    } else {
        let lower = lower_seq(endpoint);
        if contains_sub(lower, "anthropic"@) || has_suffix(lower, "/messages"@) || contains_sub(
            lower,
            "/v1/messages"@,
        ) {
            ApiFormat::Anthropic
        } else {
            ApiFormat::OpenAI
        }
    }
}

/// Resolves the dialect for `endpoint`, honouring an explicit configuration.
pub fn detect_api_format(endpoint: &str, configured: &ApiFormat) -> (r: ApiFormat)
    ensures
        r == spec_detect_api_format(endpoint@, *configured),
{
    if *configured != ApiFormat::Auto {
        return *configured;
    }
    let lower = lower_chars(&str_to_chars(endpoint));
    let anthropic_pat = str_to_chars("anthropic");
    let messages_pat = str_to_chars("/messages");
    let v1_messages_pat = str_to_chars("/v1/messages");
    proof {
        reveal_strlit("anthropic");
        reveal_strlit("/messages");
        reveal_strlit("/v1/messages");
    }
    if find_sub(&lower, &anthropic_pat, 0).is_some() || ends_with_chars(&lower, &messages_pat)
        || find_sub(&lower, &v1_messages_pat, 0).is_some() {
        ApiFormat::Anthropic
    } else {
        ApiFormat::OpenAI
    }
}

// ---------------------------------------------------------------------------
// Endpoint normalization
// ---------------------------------------------------------------------------

/// `s` without its trailing `c` characters.
pub open spec fn strip_trailing_char(s: Seq<char>, c: char) -> Seq<char>
    decreases s.len(),
{
    if s.len() > 0 && s.last() == c {
        strip_trailing_char(s.drop_last(), c)
    } else {
        s
    }
}

/// `s` with every copy of the suffix `suf` removed from its end.
pub open spec fn strip_suffix_all(s: Seq<char>, suf: Seq<char>) -> Seq<char>
    decreases s.len(),
{
    if suf.len() > 0 && has_suffix(s, suf) {
        strip_suffix_all(s.take(s.len() - suf.len()), suf)
    } else {
        s
    }
}

/// The canonical resource suffix of a dialect: `/messages` for Anthropic,
/// `/chat/completions` otherwise.
pub open spec fn dialect_suffix(format: ApiFormat) -> Seq<char> {
    if format == ApiFormat::Anthropic {
        "/messages"@
    } else {
        "/chat/completions"@
    }
}

/// The normalized request target: the URL is trimmed, stripped of trailing
/// slashes, and extended with the dialect's suffix unless it already ends
/// with it; an empty or whitespace-only URL normalizes to the empty string.
pub open spec fn spec_normalize_endpoint(endpoint: Seq<char>, format: ApiFormat) -> Seq<char> {
    let trimmed = strip_trailing_char(spec_trim(endpoint), '/');
    if trimmed.len() == 0 {
        Seq::empty()
    } else if has_suffix(trimmed, dialect_suffix(format)) {
        trimmed
    } else {
        trimmed + dialect_suffix(format)
    }
}

/// Removes the trailing `c` characters of `v`.
#[verifier::loop_isolation(false)]
fn strip_trailing_char_exec(v: Vec<char>, c: char) -> (r: Vec<char>)
    ensures
        r@ == strip_trailing_char(v@, c),
{
    let mut r = v;
    while r.len() > 0 && r[r.len() - 1] == c
        invariant
            strip_trailing_char(v@, c) == strip_trailing_char(r@, c),
        decreases r.len(),
    {
        let ghost before = r@;
        r.pop();
        assert(r@ =~= before.drop_last());
    }
    r
}

/// Removes every copy of the suffix `suf` from the end of `v`.
#[verifier::loop_isolation(false)]
fn strip_suffix_all_exec(v: Vec<char>, suf: &Vec<char>) -> (r: Vec<char>)
    requires
        suf.len() >= 1,
    ensures
        r@ == strip_suffix_all(v@, suf@),
{
    let mut r = v;
    while r.len() >= suf.len() && ends_with_chars(&r, suf)
        invariant
            strip_suffix_all(v@, suf@) == strip_suffix_all(r@, suf@),
        decreases r.len(),
    {
        let ghost before = r@;
        let keep = r.len() - suf.len();
        r.truncate(keep);
        assert(r@ =~= before.take(before.len() - suf@.len()));
    }
    assert(!has_suffix(r@, suf@) || suf@.len() == 0);
    r
}

/// Normalizes a user endpoint for the chosen dialect.
pub fn normalize_endpoint_for_format(endpoint: &str, format: &ApiFormat) -> (r: String)
    ensures
        r@ == spec_normalize_endpoint(endpoint@, *format),
{
    let chars = str_to_chars(endpoint);
    let trimmed = strip_trailing_char_exec(trim_chars(&chars), '/');
    if trimmed.len() == 0 {
        let r = String::new();
        return r;
    }
    let suffix = if *format == ApiFormat::Anthropic {
        str_to_chars("/messages")
    } else {
        str_to_chars("/chat/completions")
    };
    if ends_with_chars(&trimmed, &suffix) {
        chars_to_string(&trimmed)
    } else {
        let mut out = trimmed;
        let mut i: usize = 0;
        while i < suffix.len()
            invariant
                i <= suffix.len(),
                out@ == strip_trailing_char(spec_trim(endpoint@), '/') + suffix@.take(i as int),
            decreases suffix.len() - i,
        {
            out.push(suffix[i]);
            i = i + 1;
            assert(out@ =~= strip_trailing_char(spec_trim(endpoint@), '/') + suffix@.take(
                i as int,
            ));
        }
        assert(out@ =~= strip_trailing_char(spec_trim(endpoint@), '/') + suffix@);
        chars_to_string(&out)
    }
}

/// The sibling "list models" URL of an endpoint: the known dialect suffixes
/// and trailing slashes are stripped, and `/models` is appended.
pub open spec fn spec_models_url(endpoint: Seq<char>) -> Seq<char> {
    strip_trailing_char(
        strip_suffix_all(strip_suffix_all(endpoint, "/chat/completions"@), "/messages"@),
        '/',
    ) + "/models"@
}

/// Derives the "list models" URL from a normalized endpoint.
#[verifier::loop_isolation(false)]
pub fn models_url(endpoint: &str) -> (r: String)
    ensures
        r@ == spec_models_url(endpoint@),
{
    let chars = str_to_chars(endpoint);
    let chat_pat = str_to_chars("/chat/completions");
    let msg_pat = str_to_chars("/messages");
    proof {
        reveal_strlit("/chat/completions");
        reveal_strlit("/messages");
    }
    let base = strip_trailing_char_exec(
        strip_suffix_all_exec(strip_suffix_all_exec(chars, &chat_pat), &msg_pat),
        '/',
    );
    let suffix = str_to_chars("/models");
    let mut out = base;
    let ghost base_view = out@;
    let mut i: usize = 0;
    while i < suffix.len()
        invariant
            i <= suffix.len(),
            out@ == base_view + suffix@.take(i as int),
        decreases suffix.len() - i,
    {
        out.push(suffix[i]);
        i = i + 1;
        assert(out@ =~= base_view + suffix@.take(i as int));
    }
    assert(out@ =~= base_view + suffix@);
    chars_to_string(&out)
}

/// Binds a configuration to one dialect and its normalized endpoint; the
/// remaining fields are kept unchanged.
pub fn normalize_llm_config(config: LlmConfig) -> (r: LlmConfig)
    ensures
        r.api_format == spec_detect_api_format(config.endpoint@, config.api_format),
        r.endpoint@ == spec_normalize_endpoint(config.endpoint@, r.api_format),
        r.api_key == config.api_key,
        r.model == config.model,
        r.headers == config.headers,
{
    let detected = detect_api_format(config.endpoint.as_str(), &config.api_format);
    let endpoint = normalize_endpoint_for_format(config.endpoint.as_str(), &detected);
    LlmConfig {
        endpoint,
        api_key: config.api_key,
        model: config.model,
        api_format: detected,
        headers: config.headers,
    }
}

} // verus!
