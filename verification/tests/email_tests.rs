use sashiko::email::parse_email;
use sashiko::lore::build_review_input_from_mbox;

#[test]
fn parse_email_reads_fields_and_diff() {
    let raw = "From 1234 Mon Sep 17 00:00:00 2001\n\
from: Dev <dev@example.com>\n\
SUBJECT: [PATCH v2 3/7] mm: fix\n\
\x20 the thing\n\
Date: Tue, 2 Jan 2024 00:00:00 +0000\n\
Message-Id: <s3@example.com>\n\
\n\
Body text\n\
---\n\
diff --git a/x b/x\n\
+added\n\
-- \n\
2.40\n";
    let (meta, patch) = parse_email(raw);
    assert_eq!(meta.subject, "[PATCH v2 3/7] mm: fix  the thing");
    assert_eq!(meta.author, "Dev <dev@example.com>");
    assert_eq!(meta.date, "Tue, 2 Jan 2024 00:00:00 +0000");
    assert_eq!(meta.message_id, "s3@example.com");
    assert_eq!(meta.index, 3);
    assert_eq!(patch.unwrap().diff, "diff --git a/x b/x\n+added\n");
}

#[test]
fn patch_index_defaults_and_cover_letter() {
    let (meta, patch) = parse_email("Subject: [PATCH 0/5] series\n\ncover\n");
    assert_eq!(meta.index, 0);
    assert!(patch.is_none());
    let (meta, _) = parse_email("Subject: [RFC PATCH] lone\n\nx\n");
    assert_eq!(meta.index, 1);
    let (meta, _) = parse_email("Subject: no tag\n\nx\n");
    assert_eq!(meta.index, 1);
    assert_eq!(meta.message_id, "");
}

#[test]
fn diff_runs_to_end_without_signature() {
    let (_, patch) = parse_email("Subject: s\n\ndiff --git a/y b/y\r\n+z\r\n");
    assert_eq!(patch.unwrap().diff, "diff --git a/y b/y\n+z\n");
}

#[test]
fn diff_in_headers_is_not_a_patch() {
    let (_, patch) = parse_email("Subject: s\ndiff --git a/y b/y\n");
    assert!(patch.is_none());
}

#[test]
fn review_input_carries_email_fields() {
    let raw = "Subject: [PATCH 2/2] fix\nFrom: X\nDate: D\nMessage-ID: <m@x>\n\ndiff --git a b\n";
    let ri = build_review_input_from_mbox(raw).unwrap();
    assert_eq!(ri.id, 0);
    assert_eq!(ri.subject, "[PATCH 2/2] fix");
    assert_eq!(ri.patches.len(), 1);
    let p = &ri.patches[0];
    assert_eq!(p.index, 2);
    assert_eq!(p.diff, "diff --git a b\n");
    assert_eq!(p.subject.as_deref(), Some("[PATCH 2/2] fix"));
    assert_eq!(p.author.as_deref(), Some("X"));
    assert_eq!(p.date.as_deref(), Some("D"));
    assert_eq!(p.message_id.as_deref(), Some("m@x"));
    assert!(p.commit_id.is_none());
}

#[test]
fn review_input_error_names_message() {
    let e = build_review_input_from_mbox("Message-ID: <r@x>\n\nthanks\n").unwrap_err();
    assert_eq!(
        e.message(),
        "no patch content found in message r@x. The message may be a reply or cover letter without a diff."
    );
}
