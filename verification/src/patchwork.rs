//! Reporting review results to Patchwork as checks: which requests to make,
//! to which addresses, with which payload.

use vstd::prelude::*;

use crate::text::{
    CharClass, chars_of, decimal, push_decimal, push_str, string_of, trim_both, trim_end,
    trim_end_exec, trim_exec, extend_chars, lemma_trim_both_append,
    lemma_trim_start_prepend,
};

verus! {

/// How (and whether) review results go to a Patchwork instance.
#[derive(Debug)]
pub struct PatchworkPolicy {
    pub enabled: bool,
    /// The REST API root, such as `https://patchwork.kernel.org/api`.
    pub api_url: Option<String>,
    pub token: Option<String>,
}

/// The payload of a Patchwork check.
#[derive(Debug)]
pub struct PatchworkCheckRequest {
    pub state: String,
    pub target_url: String,
    pub description: String,
    pub context: String,
}

/// What to do first for a check.
#[derive(Debug)]
pub enum PatchworkPlan {
    /// Reporting is off.
    Disabled,
    /// Reporting is on but no API address is configured.
    MissingApiUrl,
    /// Look the patch up by its message-ID at `list_url`; `api_url` is the
    /// API root without trailing slashes.
    Lookup { api_url: String, list_url: String },
}

/// The API root without its trailing slashes.
pub open spec fn api_root(api_url: Seq<char>) -> Seq<char> {
    trim_end(api_url, CharClass::Is('/'))
}

/// The patch-list query for a message-ID; the ID is stripped of all
/// surrounding `<` and `>`.
pub open spec fn patch_list_url(api_url: Seq<char>, msgid: Seq<char>) -> Seq<char> {
    api_root(api_url) + "/patches/?msgid="@ + trim_both(msgid, CharClass::AngleBracket)
}

/// Decides how a check for `msgid` starts.
pub fn plan_patchwork_check(policy: &PatchworkPolicy, msgid: &str) -> (r: PatchworkPlan)
    ensures
        !policy.enabled ==> r is Disabled,
        policy.enabled && policy.api_url is None ==> r is MissingApiUrl,
        policy.enabled ==> (policy.api_url matches Some(url) ==> {
            &&& r matches PatchworkPlan::Lookup { api_url, list_url }
            &&& api_url@ == api_root(url@)
            &&& list_url@ == patch_list_url(url@, msgid@)
        }),
{
    if !policy.enabled {
        return PatchworkPlan::Disabled;
    }
    match &policy.api_url {
        Some(url) => {
            let root = trim_end_exec(&chars_of(url.as_str()), CharClass::Is('/'));
            let clean = trim_exec(&chars_of(msgid), CharClass::AngleBracket);
            let mut list = chars_of("");
            extend_chars(&mut list, &root);
            push_str(&mut list, "/patches/?msgid=");
            extend_chars(&mut list, &clean);
            proof {
                reveal_strlit("");
            }
            assert(list@ =~= patch_list_url(url@, msgid@));
            PatchworkPlan::Lookup { api_url: string_of(&root), list_url: string_of(&list) }
        },
        None => PatchworkPlan::MissingApiUrl,
    }
}

/// The `Authorization` header value for the policy's token, if it has one.
pub fn patchwork_authorization(policy: &PatchworkPolicy) -> (r: Option<String>)
    ensures
        policy.token is None ==> r is None,
        policy.token matches Some(t) ==> {
            &&& r matches Some(h)
            &&& h@ == "Token "@ + t@
        },
{
    match &policy.token {
        Some(t) => {
            let mut v = chars_of("Token ");
            push_str(&mut v, t.as_str());
            Some(string_of(&v))
        },
        None => None,
    }
}

/// The checks address of a patch.
pub open spec fn check_url(api_root: Seq<char>, patch_id: u64) -> Seq<char> {
    api_root + "/patches/"@ + decimal(patch_id as nat) + "/checks/"@
}

/// Where to post the check, given the IDs of the patches found for the
/// message-ID: the first one is taken; none found means nothing to post.
pub fn patchwork_check_url(api_url: &str, patch_ids: &Vec<u64>) -> (r: Option<String>)
    ensures
        patch_ids@.len() == 0 ==> r is None,
        patch_ids@.len() > 0 ==> {
            &&& r matches Some(u)
            &&& u@ == check_url(api_url@, patch_ids@[0])
        },
{
    if patch_ids.len() == 0 {
        return None;
    }
    let mut v = chars_of(api_url);
    push_str(&mut v, "/patches/");
    push_decimal(&mut v, patch_ids[0]);
    push_str(&mut v, "/checks/");
    Some(string_of(&v))
}

/// The check payload; its context is always `sashiko`.
pub fn patchwork_check_request(status: &str, description: &str, target_url: &str) -> (r:
    PatchworkCheckRequest)
    ensures
        r.state@ == status@,
        r.target_url@ == target_url@,
        r.description@ == description@,
        r.context@ == "sashiko"@,
{
    PatchworkCheckRequest {
        state: string_of(&chars_of(status)),
        target_url: string_of(&chars_of(target_url)),
        description: string_of(&chars_of(description)),
        context: string_of(&chars_of("sashiko")),
    }
}

/// The message-ID goes into the lookup without its angle brackets: with or
/// without them, the query is the same.
pub proof fn law_list_url_ignores_angle_brackets(api_url: Seq<char>, id: Seq<char>)
    ensures
        patch_list_url(api_url, seq!['<'] + id + seq!['>']) == patch_list_url(api_url, id),
{
    let cls = CharClass::AngleBracket;
    let wrapped = seq!['<'] + id + seq!['>'];
    assert(wrapped =~= (seq!['<'] + id).push('>'));
    lemma_trim_start_prepend('<', id.push('>'), cls);
    assert(seq!['<'] + id.push('>') =~= wrapped);
    lemma_trim_both_append(id, '>', cls);
}

} // verus!
