//! Messages API types, and how the client reads the API's answers.

use vstd::prelude::*;

use crate::text::{chars_of, parse_u64, parse_u64_exec, string_of};
use vstd::string::StringSliceAdditionalSpecFns;
use vstd::utf8::encode_utf8;

verus! {

/// Prompt caching of a block (`type` is `ephemeral`).
#[derive(Debug, Clone)]
pub struct CacheControl {
    pub cache_type: String,
}

/// One block of the system prompt (`type` is `text`).
#[derive(Debug, Clone)]
pub struct SystemBlock {
    pub block_type: String,
    pub text: String,
    pub cache_control: Option<CacheControl>,
}

/// Token accounting of one response.
#[derive(Debug)]
pub struct ClaudeUsage {
    pub input_tokens: u32,
    pub output_tokens: u32,
    pub cache_creation_input_tokens: Option<u32>,
    pub cache_read_input_tokens: Option<u32>,
}

/// The body of an error answer.
#[derive(Debug)]
pub struct ClaudeErrorResponse {
    pub error_type: String,
    pub error: ClaudeErrorDetails,
}

#[derive(Debug)]
pub struct ClaudeErrorDetails {
    pub error_type: String,
    pub message: String,
}

/// Why a request to the messages API failed.
#[derive(Debug)]
pub enum ClaudeError {
    /// Status 429; retry after this many seconds.
    RateLimitExceeded(u64),
    /// Status 529; retry after this many seconds.
    OverloadedError(u64),
    /// Status 400, with the answer's body.
    InvalidRequest(String),
    /// Status 401 or 403, with the answer's body.
    AuthenticationError(String),
    /// Any other failing status, with the answer's body.
    ApiError(u16, String),
}

/// The wait after a 429 answer that names none, in seconds.
pub const RATE_LIMIT_RETRY_SECS: u64 = 60;

/// The first wait after a 529 answer, in seconds.
pub const OVERLOADED_RETRY_SECS: u64 = 5;

/// The API key: `ANTHROPIC_API_KEY` when it is set, else `LLM_API_KEY`,
/// else empty.
pub fn select_api_key(anthropic_api_key: Option<String>, llm_api_key: Option<String>) -> (r:
    String)
    ensures
        anthropic_api_key matches Some(k) ==> r@ == k@,
        anthropic_api_key is None ==> (llm_api_key matches Some(k) ==> r@ == k@),
        anthropic_api_key is None && llm_api_key is None ==> r@ == Seq::<char>::empty(),
{
    match anthropic_api_key {
        Some(k) => k,
        None => match llm_api_key {
            Some(k) => k,
            None => String::new(),
        },
    }
}

/// The status is a success (`200..=299`).
pub open spec fn is_success(status: u16) -> bool {
    200 <= status <= 299
}

/// Whether the status is a success.
pub fn is_success_status(status: u16) -> (r: bool)
    ensures
        r == is_success(status),
{
    200 <= status && status <= 299
}

/// The body of a failed answer, or `Unknown error` when it cannot be read.
pub fn error_body(text: Option<String>) -> (r: String)
    ensures
        text matches Some(t) ==> r@ == t@,
        text is None ==> r@ == "Unknown error"@,
{
    match text {
        Some(t) => t,
        None => string_of(&chars_of("Unknown error")),
    }
}

/// The wait a `retry-after` header value asks for, in seconds: the value
/// read as a `u64`, as `u64::from_str` reads it (an HTTP date gives none).
pub fn retry_after_secs(value: &str) -> (r: Option<u64>)
    ensures
        r == parse_u64(value@),
{
    parse_u64_exec(&chars_of(value))
}

/// The error a failing status stands for. A 429 answer asks the caller to
/// wait `retry_after` seconds when the answer said so, else
/// `RATE_LIMIT_RETRY_SECS`.
pub fn claude_error_for_status(status: u16, body: String, retry_after: Option<u64>) -> (r:
    ClaudeError)
    ensures
        status == 429 ==> r == ClaudeError::RateLimitExceeded(
            match retry_after {
                Some(s) => s,
                None => RATE_LIMIT_RETRY_SECS,
            },
        ),
        status == 529 ==> r == ClaudeError::OverloadedError(OVERLOADED_RETRY_SECS),
        status == 400 ==> r == ClaudeError::InvalidRequest(body),
        status == 401 || status == 403 ==> r == ClaudeError::AuthenticationError(body),
        status != 429 && status != 529 && status != 400 && status != 401 && status != 403 ==> r
            == ClaudeError::ApiError(status, body),
{
    if status == 429 {
        let secs = match retry_after {
            Some(s) => s,
            None => RATE_LIMIT_RETRY_SECS,
        };
        ClaudeError::RateLimitExceeded(secs)
    } else if status == 529 {
        ClaudeError::OverloadedError(OVERLOADED_RETRY_SECS)
    } else if status == 400 {
        ClaudeError::InvalidRequest(body)
    } else if status == 401 || status == 403 {
        ClaudeError::AuthenticationError(body)
    } else {
        ClaudeError::ApiError(status, body)
    }
}

/// A character may stand in an HTTP header value: each byte of its UTF-8
/// form is a tab or lies in 32..=255 other than 127 (DEL).
pub open spec fn header_value_char(c: char) -> bool {
    c == '\t' || (32 <= (c as u32) && (c as u32) != 127)
}

/// Every character of `s` may stand in an HTTP header value.
pub open spec fn is_header_value_text(s: Seq<char>) -> bool {
    forall|i: int| 0 <= i < s.len() ==> header_value_char(#[trigger] s[i])
}

#[verifier::external_type_specification]
#[verifier::external_body]
pub struct ExHeaderValue(reqwest::header::HeaderValue);

/// The bytes a header value holds.
pub uninterp spec fn header_value_bytes(v: reqwest::header::HeaderValue) -> Seq<u8>;

/// `HeaderValue::from_str` (of `http`, as `reqwest::header` re-exports it).
/// The contract claims what its source shows: it succeeds exactly when every
/// byte of the text is a tab or lies in 32..=255 other than 127, and the value
/// then holds a copy of the text's bytes.
#[verifier::external_body]
fn header_value_from_str(s: &str) -> (r: Option<reqwest::header::HeaderValue>)
    ensures
        r is Some <==> is_header_value_text(s@),
        r matches Some(h) ==> header_value_bytes(h) == s.spec_bytes(),
{
    reqwest::header::HeaderValue::from_str(s).ok()
}

/// The `x-api-key` header value for `api_key`, holding the key's bytes;
/// `None` when the key holds a character that a header value cannot carry.
pub fn api_key_header(api_key: &str) -> (r: Option<reqwest::header::HeaderValue>)
    ensures
        r is Some <==> is_header_value_text(api_key@),
        r matches Some(h) ==> header_value_bytes(h) == api_key.spec_bytes(),
{
    header_value_from_str(api_key)
}

/// The API version a request names.
pub open spec fn anthropic_version() -> Seq<char> {
    "2023-06-01"@
}

/// The content type of a request body.
pub open spec fn json_content_type() -> Seq<char> {
    "application/json"@
}

/// The header values of a request to the messages API.
pub struct ApiHeaders {
    /// `x-api-key`
    pub api_key: reqwest::header::HeaderValue,
    /// `anthropic-version`
    pub anthropic_version: reqwest::header::HeaderValue,
    /// `content-type`
    pub content_type: reqwest::header::HeaderValue,
}

/// The header values of a request made with `api_key`: the key, the API
/// version and the JSON content type; `None` exactly when the key cannot be a
/// header value.
pub fn messages_api_headers(api_key: &str) -> (r: Option<ApiHeaders>)
    ensures
        r is Some <==> is_header_value_text(api_key@),
        r matches Some(h) ==> {
            &&& header_value_bytes(h.api_key) == api_key.spec_bytes()
            &&& header_value_bytes(h.anthropic_version) == encode_utf8(anthropic_version())
            &&& header_value_bytes(h.content_type) == encode_utf8(json_content_type())
        },
{
    let key = match api_key_header(api_key) {
        Some(k) => k,
        None => {
            return None;
        },
    };
    let version_text = "2023-06-01";
    let type_text = "application/json";
    proof {
        reveal_strlit("2023-06-01");
        reveal_strlit("application/json");
        assert(is_header_value_text(version_text@));
        assert(is_header_value_text(type_text@));
    }
    let version = match header_value_from_str(version_text) {
        Some(v) => v,
        None => {
            return None;
        },
    };
    let content_type = match header_value_from_str(type_text) {
        Some(v) => v,
        None => {
            return None;
        },
    };
    Some(ApiHeaders { api_key: key, anthropic_version: version, content_type })
}

} // verus!
