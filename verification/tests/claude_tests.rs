use sashiko::ai::claude::{
    ClaudeError, api_key_header, claude_error_for_status, error_body, is_success_status,
    messages_api_headers,
    retry_after_secs, select_api_key,
};

#[test]
fn api_key_precedence() {
    assert_eq!(select_api_key(Some("a".into()), Some("b".into())), "a");
    assert_eq!(select_api_key(None, Some("b".into())), "b");
    assert_eq!(select_api_key(None, None), "");
}

#[test]
fn status_mapping() {
    assert!(is_success_status(200) && is_success_status(299));
    assert!(!is_success_status(300) && !is_success_status(199));
    assert!(matches!(claude_error_for_status(429, "x".into(), None), ClaudeError::RateLimitExceeded(60)));
    assert!(matches!(claude_error_for_status(529, "x".into(), None), ClaudeError::OverloadedError(5)));
    assert!(matches!(claude_error_for_status(400, "bad".into(), None), ClaudeError::InvalidRequest(b) if b == "bad"));
    assert!(matches!(claude_error_for_status(401, "no".into(), None), ClaudeError::AuthenticationError(_)));
    assert!(matches!(claude_error_for_status(403, "no".into(), None), ClaudeError::AuthenticationError(_)));
    assert!(matches!(claude_error_for_status(500, "boom".into(), None), ClaudeError::ApiError(500, b) if b == "boom"));
    assert_eq!(error_body(None), "Unknown error");
    assert_eq!(error_body(Some("e".into())), "e");
}

#[test]
fn rate_limit_wait_follows_retry_after() {
    assert!(matches!(claude_error_for_status(429, "x".into(), Some(7)), ClaudeError::RateLimitExceeded(7)));
    assert!(matches!(claude_error_for_status(429, "x".into(), None), ClaudeError::RateLimitExceeded(60)));
    assert!(matches!(claude_error_for_status(529, "x".into(), Some(7)), ClaudeError::OverloadedError(5)));
    assert_eq!(retry_after_secs("7"), Some(7));
    assert_eq!(retry_after_secs("120"), Some(120));
    assert_eq!(retry_after_secs("Wed, 21 Oct 2015 07:28:00 GMT"), None);
    assert_eq!(retry_after_secs(""), None);
}

#[test]
fn api_key_header_accepts_header_text_only() {
    assert!(api_key_header("sk-ant-123").is_some());
    assert!(api_key_header("").is_some());
    assert!(api_key_header("a\tb").is_some());
    assert!(api_key_header("caf\u{e9}").is_some());
    assert!(api_key_header("a\nb").is_none());
    assert!(api_key_header("a\u{7f}").is_none());
    assert!(api_key_header("\u{1}").is_none());
}

#[test]
fn request_headers_carry_the_key() {
    let h = api_key_header("sk-ant-123").unwrap();
    assert_eq!(h.as_bytes(), b"sk-ant-123");
    let hs = messages_api_headers("caf\u{e9}").unwrap();
    assert_eq!(hs.api_key.as_bytes(), "caf\u{e9}".as_bytes());
    assert_eq!(hs.anthropic_version.as_bytes(), b"2023-06-01");
    assert_eq!(hs.content_type.as_bytes(), b"application/json");
    assert!(messages_api_headers("bad\nkey").is_none());
}
