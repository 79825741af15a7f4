use sashiko::email::parse_email;
use sashiko::lore::{
    extract_message_id_from_lore_url, is_lore_url, is_message_id, lore_thread_mbox_url,
    percent_encode_segment, split_mbox,
};
use sashiko::nntp::{ArticleLine, article_line};
use sashiko::patchwork::{PatchworkPlan, PatchworkPolicy, plan_patchwork_check};

#[test]
fn law_lore_url_roundtrip_on_examples() {
    for list in ["all", "netdev", ""] {
        for tail in ["", "/", "/raw", "/t.mbox.gz"] {
            let url = format!("https://lore.kernel.org/{}/{}{}", list, "x.y-1@z.org", tail);
            assert_eq!(extract_message_id_from_lore_url(&url), Some("x.y-1@z.org".to_string()));
        }
    }
}

#[test]
fn law_lore_urls_are_not_message_ids() {
    for s in [
        "https://lore.kernel.org/all/a.b@c.d/",
        "http://lore.kernel.org",
        "https://lore.kernel.org:443/all/a.b@c.d",
        "https://lore.kernel.org?q=a.b@c.d",
    ] {
        assert!(is_lore_url(s));
        assert!(!is_message_id(s));
    }
}

#[test]
fn law_mbox_messages_cover_the_mbox() {
    let text = "From a\nx\nFrom b\ny\nnot From c\nFrom d\n";
    let chars: Vec<char> = text.chars().collect();
    let messages = split_mbox(&chars);
    assert_eq!(messages.len(), 3);
    let joined: String = messages.iter().flatten().collect();
    assert_eq!(joined, text);
}

#[test]
fn law_thread_address_ignores_brackets_and_keeps_one_segment() {
    assert_eq!(lore_thread_mbox_url("<a/b@c>"), lore_thread_mbox_url("a/b@c"));
    let enc = percent_encode_segment("a/b?c#d e@f");
    assert!(!enc.contains('/') && !enc.contains('?') && !enc.contains('#') && !enc.contains(' '));
}

#[test]
fn law_diff_starts_with_git_header_on_example() {
    let (_, patch) = parse_email("Subject: s\n\nintro\ndiff --git a/f b/f\n+1\n");
    let d = patch.unwrap().diff;
    assert!(d.starts_with("diff --git "));
    assert!(d.ends_with('\n'));
}

#[test]
fn law_unstuffing_undoes_stuffing_on_examples() {
    for l in [".", "..", ".x", "x", "", "..."] {
        let stuffed = if l.starts_with('.') { format!(".{}", l) } else { l.to_string() };
        match article_line(&stuffed) {
            ArticleLine::Text(t) => assert_eq!(t, l),
            ArticleLine::End => panic!("stuffed line read as end"),
        }
    }
}

#[test]
fn law_patch_lookup_ignores_brackets_on_example() {
    let p = PatchworkPolicy { enabled: true, api_url: Some("https://pw/api/".into()), token: None };
    let a = plan_patchwork_check(&p, "<id@x>");
    let b = plan_patchwork_check(&p, "id@x");
    match (a, b) {
        (PatchworkPlan::Lookup { list_url: x, .. }, PatchworkPlan::Lookup { list_url: y, .. }) => {
            assert_eq!(x, y)
        }
        _ => panic!("expected lookups"),
    }
}

#[test]
fn law_lore_url_needs_exact_host_on_examples() {
    assert!(is_lore_url("https://lore.kernel.org/x"));
    assert!(is_lore_url("http://lore.kernel.org/x"));
    assert!(is_lore_url("https://lore.kernel.org"));
    assert!(is_lore_url("https://lore.kernel.org:443/x"));
    assert!(is_lore_url("https://lore.kernel.org?x"));
    assert!(is_lore_url("https://lore.kernel.org#x"));
    assert!(!is_lore_url("ftp://lore.kernel.org/x"));
    assert!(!is_lore_url("https://lore.kernel.or/x"));
    assert!(!is_lore_url("https://a.lore.kernel.org/x"));
    assert!(!is_lore_url("https://lore.kernel.org.example.com/x"));
    assert!(!is_lore_url("https://lore.kernel.org.evil.com/all/foo@bar/"));
    assert!(!is_lore_url("http://lore.kernel.orgx"));
    assert!(!is_lore_url("https://lore.kernel.org@x.y/a"));
}

#[test]
fn law_longer_host_yields_no_message_id_on_examples() {
    assert_eq!(extract_message_id_from_lore_url("https://lore.kernel.org.evil.com/all/foo@bar/"), None);
    assert_eq!(extract_message_id_from_lore_url("http://lore.kernel.orgx/all/foo@bar"), None);
    assert_eq!(
        extract_message_id_from_lore_url("https://lore.kernel.org:443/all/foo@bar"),
        Some("foo@bar".to_string())
    );
}

#[test]
fn law_extracted_id_shape_on_examples() {
    for url in [
        "https://lore.kernel.org/all/<<a.b@c.d>>/",
        "https://lore.kernel.org/netdev/x@y/raw",
        "http://lore.kernel.org/<x@y>/t.mbox.gz",
        "https://lore.kernel.org/all/a@b<c>/",
    ] {
        let id = extract_message_id_from_lore_url(url).unwrap();
        assert!(is_lore_url(url));
        assert!(url.contains(id.as_str()));
        assert!(id.contains('@') && !id.contains('/'));
        assert!(!id.starts_with('<') && !id.ends_with('>'));
    }
    assert_eq!(
        extract_message_id_from_lore_url("https://lore.kernel.org/all/<<a.b@c.d>>/"),
        Some("a.b@c.d".to_string())
    );
}

#[test]
fn law_view_suffix_keeps_message_id_on_examples() {
    for url in [
        "https://lore.kernel.org/all/a@b",
        "https://lore.kernel.org/all/a@b/",
        "https://lore.kernel.org/all/no-id",
        "https://lore.kernel.org",
        "https://lore.kernel.or",
        "https://lore.kernel.org.evil.com/all/a@b",
        "https:/",
        "http:/",
        "not a url",
    ] {
        let base = extract_message_id_from_lore_url(url);
        assert_eq!(extract_message_id_from_lore_url(&format!("{}/raw", url)), base);
        assert_eq!(extract_message_id_from_lore_url(&format!("{}/t.mbox.gz", url)), base);
    }
}
