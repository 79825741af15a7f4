use sashiko::patchwork::{
    PatchworkPlan, PatchworkPolicy, patchwork_authorization, patchwork_check_request,
    patchwork_check_url, plan_patchwork_check,
};

fn policy(enabled: bool, url: Option<&str>, token: Option<&str>) -> PatchworkPolicy {
    PatchworkPolicy {
        enabled,
        api_url: url.map(|s| s.to_string()),
        token: token.map(|s| s.to_string()),
    }
}

#[test]
fn plan_follows_policy() {
    assert!(matches!(plan_patchwork_check(&policy(false, Some("u"), None), "<m@x>"), PatchworkPlan::Disabled));
    assert!(matches!(plan_patchwork_check(&policy(true, None, None), "<m@x>"), PatchworkPlan::MissingApiUrl));
    match plan_patchwork_check(&policy(true, Some("https://pw.example/api//"), None), "<m@x>") {
        PatchworkPlan::Lookup { api_url, list_url } => {
            assert_eq!(api_url, "https://pw.example/api");
            assert_eq!(list_url, "https://pw.example/api/patches/?msgid=m@x");
        }
        other => panic!("unexpected: {:?}", other),
    }
}

#[test]
fn authorization_and_check_address() {
    assert_eq!(patchwork_authorization(&policy(true, None, Some("abc"))).as_deref(), Some("Token abc"));
    assert!(patchwork_authorization(&policy(true, None, None)).is_none());
    assert_eq!(
        patchwork_check_url("https://pw.example/api", &vec![4711, 12]).as_deref(),
        Some("https://pw.example/api/patches/4711/checks/")
    );
    assert!(patchwork_check_url("https://pw.example/api", &vec![]).is_none());
}

#[test]
fn check_payload() {
    let r = patchwork_check_request("success", "no issues", "https://r/1");
    assert_eq!(r.state, "success");
    assert_eq!(r.description, "no issues");
    assert_eq!(r.target_url, "https://r/1");
    assert_eq!(r.context, "sashiko");
}
