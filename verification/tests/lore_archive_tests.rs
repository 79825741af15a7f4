use std::io::Write;

use flate2::write::GzEncoder;
use flate2::Compression;
use sashiko::lore::{
    LoreError, MAX_MBOX_DOWNLOAD, check_archive_size, check_lore_response, check_lore_status,
    clean_message_id,
    extract_message_from_mbox, lore_thread_mbox_url, message_from_thread_archive,
    percent_encode_segment,
};

fn gzip(data: &[u8]) -> Vec<u8> {
    let mut enc = GzEncoder::new(Vec::new(), Compression::default());
    enc.write_all(data).unwrap();
    enc.finish().unwrap()
}

const THREAD: &str = "From abc Mon Sep 17 00:00:00 2001\n\
From: A <a@example.com>\n\
Message-ID: <first@example.com>\n\
\n\
first body\n\
From def Mon Sep 17 00:00:00 2001\n\
From: B <b@example.com>\n\
Message-Id: <Second.Msg@Example.COM>\n\
\n\
second body\n";

#[test]
fn thread_url_percent_encodes_path_characters() {
    assert_eq!(
        lore_thread_mbox_url("<a/b@c d>"),
        "https://lore.kernel.org/all/a%2Fb@c%20d/t.mbox.gz"
    );
    assert_eq!(
        lore_thread_mbox_url("20231025202513.12358-1-tony.luck@intel.com"),
        "https://lore.kernel.org/all/20231025202513.12358-1-tony.luck@intel.com/t.mbox.gz"
    );
}

#[test]
fn percent_encoding_of_non_ascii_and_set_bytes() {
    assert_eq!(percent_encode_segment("é?#%\\\u{7f}x"), "%C3%A9%3F%23%25%5C%7Fx");
    assert_eq!(percent_encode_segment("a<b>c"), "a<b>c");
}

#[test]
fn clean_message_id_strips_all_brackets() {
    assert_eq!(clean_message_id("<<abc@def>>"), "abc@def");
    assert_eq!(clean_message_id("abc@def"), "abc@def");
}

#[test]
fn lore_status_verdicts() {
    assert!(check_lore_status(200, "OK", "x@y").is_ok());
    match check_lore_status(404, "Not Found", "x@y") {
        Err(e @ LoreError::MessageNotFound { .. }) => {
            assert_eq!(e.message(), "message not found on lore.kernel.org: x@y")
        }
        other => panic!("unexpected: {:?}", other),
    }
    match check_lore_status(503, "Service Unavailable", "x@y") {
        Err(e @ LoreError::HttpStatus { .. }) => {
            assert_eq!(e.message(), "lore.kernel.org returned HTTP 503 Service Unavailable")
        }
        other => panic!("unexpected: {:?}", other),
    }
}

#[test]
fn archive_size_limit() {
    assert!(check_archive_size(MAX_MBOX_DOWNLOAD).is_ok());
    let e = check_archive_size(MAX_MBOX_DOWNLOAD + 1).unwrap_err();
    assert_eq!(
        e.message(),
        "compressed mbox too large (10485761 bytes, limit 10485760 bytes)"
    );
}

#[test]
fn extract_picks_message_by_id_ignoring_case() {
    let m = extract_message_from_mbox(THREAD, "second.msg@example.com").unwrap();
    assert!(m.starts_with("From def"));
    assert!(m.contains("second body"));
    let m = extract_message_from_mbox(THREAD, "FIRST@EXAMPLE.COM").unwrap();
    assert!(m.starts_with("From abc"));
    assert!(!m.contains("second body"));
}

#[test]
fn extract_reports_thread_size_when_missing() {
    let e = extract_message_from_mbox(THREAD, "nobody@example.com").unwrap_err();
    assert_eq!(
        e.message(),
        "message nobody@example.com not found in thread mbox (2 messages in thread)"
    );
}

#[test]
fn extract_reads_headers_only() {
    let mbox = "From: A\nSubject: x\n\nMessage-ID: <body@example.com>\n";
    assert!(extract_message_from_mbox(mbox, "body@example.com").is_err());
    assert!(extract_message_from_mbox("", "a@b").is_err());
}

#[test]
fn archive_decoding_and_extraction() {
    let gz = gzip(THREAD.as_bytes());
    let m = message_from_thread_archive(&gz, "Second.Msg@Example.COM").unwrap();
    assert!(m.contains("second body"));
}

#[test]
fn archive_that_is_not_gzip() {
    match message_from_thread_archive(b"plain text", "a@b") {
        Err(e @ LoreError::Decompression { .. }) => assert!(!e.message().is_empty()),
        other => panic!("unexpected: {:?}", other),
    }
}

#[test]
fn archive_that_is_not_utf8() {
    let gz = gzip(&[0xff, 0xfe, 0x00]);
    match message_from_thread_archive(&gz, "a@b") {
        Err(e @ LoreError::InvalidUtf8 { .. }) => {
            let text = e.message();
            assert!(text.starts_with("invalid UTF-8 in mbox: "));
            assert!(text.len() > "invalid UTF-8 in mbox: ".len());
        }
        other => panic!("unexpected: {:?}", other),
    }
}

#[test]
fn message_id_header_name_in_any_case() {
    let mbox = "From x\nMESSAGE-ID: <a@b.c>\n\nbody\n";
    assert_eq!(extract_message_from_mbox(mbox, "a@b.c").unwrap(), mbox);
    let mbox = "From x\nmessage-ID:<A@B.C>\n\nbody\n";
    assert_eq!(extract_message_from_mbox(mbox, "a@b.c").unwrap(), mbox);
    let mbox = "From x\nMessage-IDs: <a@b.c>\n\nbody\n";
    assert!(extract_message_from_mbox(mbox, "a@b.c").is_err());
}

#[test]
fn status_errors_name_the_reason() {
    assert!(check_lore_response(200, "a@b").is_ok());
    assert!(check_lore_response(299, "a@b").is_ok());
    assert_eq!(
        check_lore_response(404, "a@b").unwrap_err().message(),
        "message not found on lore.kernel.org: a@b"
    );
    assert_eq!(
        check_lore_response(500, "a@b").unwrap_err().message(),
        "lore.kernel.org returned HTTP 500 Internal Server Error"
    );
    assert_eq!(
        check_lore_response(599, "a@b").unwrap_err().message(),
        "lore.kernel.org returned HTTP 599 <unknown status code>"
    );
}
