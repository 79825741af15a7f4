use sashiko::lore::{build_review_input_from_mbox, extract_message_id_from_lore_url, is_lore_url, is_message_id};

#[test]
fn test_is_lore_url_positive() {
    assert!(is_lore_url(
        "https://lore.kernel.org/all/20231025202513.12358-1-tony.luck@intel.com/"
    ));
    assert!(is_lore_url("http://lore.kernel.org/linux-mm/abc@def.com/"));
    assert!(is_lore_url("https://lore.kernel.org/all/abc@def/raw"));
}

#[test]
fn test_is_lore_url_negative() {
    assert!(!is_lore_url("HEAD"));
    assert!(!is_lore_url("HEAD~3..HEAD"));
    assert!(!is_lore_url("abc1234"));
    assert!(!is_lore_url("tony.luck@intel.com"));
    assert!(!is_lore_url("https://example.com/foo"));
    assert!(!is_lore_url("patches.mbox"));
    // Subdomains and embedded strings must not match.
    assert!(!is_lore_url("https://not-lore.kernel.org/all/foo@bar/"));
    assert!(!is_lore_url(
        "https://evil.com/redirect?url=lore.kernel.org"
    ));
}

#[test]
fn test_is_message_id_positive() {
    assert!(is_message_id("tony.luck@intel.com"));
    assert!(is_message_id("20231025202513.12358-1-tony.luck@intel.com"));
    assert!(is_message_id("abc@def.org"));
}

#[test]
fn test_is_message_id_negative() {
    assert!(!is_message_id("HEAD"));
    assert!(!is_message_id("abc1234"));
    assert!(!is_message_id("HEAD~3..HEAD"));
    assert!(!is_message_id("path/to/file@somewhere"));
    assert!(!is_message_id("path\\to\\file@somewhere"));
    assert!(!is_message_id("a@b..c"));
    // Git-style refs with @ but no dot in domain should NOT match.
    assert!(!is_message_id("user@branch"));
    assert!(!is_message_id("git@github"));
}

#[test]
fn test_extract_message_id_with_trailing_slash() {
    let url = "https://lore.kernel.org/all/\
                20231025202513.12358-1-tony.luck@intel.com/";
    assert_eq!(
        extract_message_id_from_lore_url(url),
        Some("20231025202513.12358-1-tony.luck@intel.com".into())
    );
}

#[test]
fn test_extract_message_id_without_trailing_slash() {
    let url = "https://lore.kernel.org/all/\
                20231025202513.12358-1-tony.luck@intel.com";
    assert_eq!(
        extract_message_id_from_lore_url(url),
        Some("20231025202513.12358-1-tony.luck@intel.com".into())
    );
}

#[test]
fn test_extract_message_id_with_raw_suffix() {
    let url = "https://lore.kernel.org/all/\
                20231025202513.12358-1-tony.luck@intel.com/raw";
    assert_eq!(
        extract_message_id_from_lore_url(url),
        Some("20231025202513.12358-1-tony.luck@intel.com".into())
    );
}

#[test]
fn test_extract_message_id_list_path() {
    let url = "https://lore.kernel.org/linux-mm/abc@def.com/";
    assert_eq!(
        extract_message_id_from_lore_url(url),
        Some("abc@def.com".into())
    );
}

#[test]
fn test_extract_message_id_angle_brackets() {
    let url = "https://lore.kernel.org/all/<abc@def.com>/";
    assert_eq!(
        extract_message_id_from_lore_url(url),
        Some("abc@def.com".into())
    );
}

#[test]
fn test_extract_message_id_no_at_sign() {
    // A URL without a message-ID segment returns None.
    let url = "https://lore.kernel.org/all/";
    assert_eq!(extract_message_id_from_lore_url(url), None);
}

#[test]
fn test_extract_message_id_not_lore() {
    let url = "https://example.com/all/abc@def/";
    assert_eq!(extract_message_id_from_lore_url(url), None);
}

#[test]
fn test_build_review_input_from_mbox_valid() {
    // Minimal valid mbox with a diff.
    let mbox = "\
From: Test Author <test@example.com>\r\n\
Subject: [PATCH] test: add a simple test\r\n\
Date: Mon, 1 Jan 2024 00:00:00 +0000\r\n\
Message-ID: <test-msg@example.com>\r\n\
\r\n\
This is the commit message.\r\n\
\r\n\
---\r\n\
 test.c | 1 +\r\n\
 1 file changed, 1 insertion(+)\r\n\
\r\n\
diff --git a/test.c b/test.c\r\n\
index 0000000..1111111 100644\r\n\
--- a/test.c\r\n\
+++ b/test.c\r\n\
@@ -0,0 +1 @@\r\n\
+// new line\r\n\
-- \r\n\
2.34.1\r\n";

    let result = build_review_input_from_mbox(mbox);
    assert!(result.is_ok(), "parse failed: {:?}", result.err());

    let ri = result.unwrap();
    assert_eq!(ri.id, 0);
    assert!(!ri.patches.is_empty());

    let p = &ri.patches[0];
    assert!(p.commit_id.is_none());
    assert!(p.subject.is_some());
    assert!(p.author.is_some());
    assert!(!p.diff.is_empty());
}

#[test]
fn test_build_review_input_from_mbox_no_diff() {
    // A plain reply with no diff should produce an error.
    let mbox = "\
From: Reply Author <reply@example.com>\r\n\
Subject: Re: [PATCH] something\r\n\
Date: Mon, 1 Jan 2024 00:00:00 +0000\r\n\
Message-ID: <reply-msg@example.com>\r\n\
\r\n\
Looks good to me!\r\n";

    let result = build_review_input_from_mbox(mbox);
    assert!(result.is_err());
    let err = result.unwrap_err().message();
    assert!(
        err.contains("no patch content"),
        "unexpected error: {}",
        err
    );
}
