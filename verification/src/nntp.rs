//! The NNTP client's protocol decisions: status checks, command lines,
//! the `GROUP` reply, and the lines of an `ARTICLE` reply.

use vstd::prelude::*;

use crate::text::{
    chars_of, has_prefix, parse_u64, parse_u64_exec, push_str, slice_of, starts_with, string_of,
    views, words, words_exec,
};

verus! {

/// What a `GROUP` command reports about a newsgroup.
#[derive(Debug)]
pub struct GroupInfo {
    /// The estimated number of articles.
    pub number: u64,
    pub low: u64,
    pub high: u64,
    pub name: String,
}

/// A reply the client cannot go on with.
#[derive(Debug)]
pub enum NntpError {
    /// The greeting is neither `200` nor `201`.
    UnexpectedWelcome { response: String },
    /// `GROUP` was not answered with `211`.
    GroupSelectFailed { group: String, response: String },
    /// A `211` reply with fewer than five words.
    InvalidGroupResponse { response: String },
    /// `ARTICLE` was not answered with `220`.
    ArticleFailed { id: String, response: String },
}

/// The greeting shows the server ready (`200`, or `201` without posting).
pub open spec fn is_welcome(response: Seq<char>) -> bool {
    has_prefix(response, "200"@) || has_prefix(response, "201"@)
}

/// Checks the server's greeting.
pub fn check_welcome(response: &str) -> (r: Result<(), NntpError>)
    ensures
        r is Ok <==> is_welcome(response@),
        r matches Err(e) ==> e matches NntpError::UnexpectedWelcome { response: got } && got@
            == response@,
{
    let v = chars_of(response);
    if starts_with(&v, &chars_of("200")) || starts_with(&v, &chars_of("201")) {
        Ok(())
    } else {
        Err(NntpError::UnexpectedWelcome { response: string_of(&v) })
    }
}

/// The `GROUP` command line for a newsgroup.
pub fn group_command(group_name: &str) -> (r: String)
    ensures
        r@ == "GROUP "@ + group_name@,
{
    let mut v = chars_of("GROUP ");
    push_str(&mut v, group_name);
    string_of(&v)
}

/// The `ARTICLE` command line for a message-ID (with angle brackets) or an
/// article number.
pub fn article_command(id: &str) -> (r: String)
    ensures
        r@ == "ARTICLE "@ + id@,
{
    let mut v = chars_of("ARTICLE ");
    push_str(&mut v, id);
    string_of(&v)
}

/// A number of a `GROUP` reply; one that does not read as a `u64` counts as 0.
pub open spec fn group_number(w: Seq<char>) -> u64 {
    match parse_u64(w) {
        Some(n) => n,
        None => 0,
    }
}

/// Reads the reply to `GROUP group_name`: `211 number low high name`.
pub fn parse_group_response(group_name: &str, response: &str) -> (r: Result<GroupInfo, NntpError>)
    ensures
        !has_prefix(response@, "211"@) ==> {
            &&& r matches Err(NntpError::GroupSelectFailed { group, response: got })
            &&& group@ == group_name@
            &&& got@ == response@
        },
        has_prefix(response@, "211"@) && words(response@).len() < 5 ==> {
            &&& r matches Err(NntpError::InvalidGroupResponse { response: got })
            &&& got@ == response@
        },
        has_prefix(response@, "211"@) && words(response@).len() >= 5 ==> {
            &&& r matches Ok(info)
            &&& info.number == group_number(words(response@)[1])
            &&& info.low == group_number(words(response@)[2])
            &&& info.high == group_number(words(response@)[3])
            &&& info.name@ == words(response@)[4]
        },
{
    let v = chars_of(response);
    if !starts_with(&v, &chars_of("211")) {
        return Err(
            NntpError::GroupSelectFailed {
                group: string_of(&chars_of(group_name)),
                response: string_of(&v),
            },
        );
    }
    let parts = words_exec(&v);
    let ghost ws = views(parts@);
    if parts.len() < 5 {
        return Err(NntpError::InvalidGroupResponse { response: string_of(&v) });
    }
    assert(ws[1] == parts@[1]@ && ws[2] == parts@[2]@ && ws[3] == parts@[3]@ && ws[4]
        == parts@[4]@);
    let number = match parse_u64_exec(&parts[1]) {
        Some(n) => n,
        None => 0,
    };
    let low = match parse_u64_exec(&parts[2]) {
        Some(n) => n,
        None => 0,
    };
    let high = match parse_u64_exec(&parts[3]) {
        Some(n) => n,
        None => 0,
    };
    Ok(GroupInfo { number, low, high, name: string_of(&parts[4]) })
}

/// Checks the status line of the reply to `ARTICLE id`.
pub fn check_article_status(id: &str, response: &str) -> (r: Result<(), NntpError>)
    ensures
        r is Ok <==> has_prefix(response@, "220"@),
        r matches Err(e) ==> {
            &&& e matches NntpError::ArticleFailed { id: got_id, response: got }
            &&& got_id@ == id@
            &&& got@ == response@
        },
{
    let v = chars_of(response);
    if starts_with(&v, &chars_of("220")) {
        Ok(())
    } else {
        Err(NntpError::ArticleFailed { id: string_of(&chars_of(id)), response: string_of(&v) })
    }
}

/// One line of an article body as it comes over the wire.
#[derive(Debug)]
pub enum ArticleLine {
    /// The lone `.` that ends the article.
    End,
    /// A line of the article, dot-unstuffed.
    Text(String),
}

/// The article line carried by a wire line: none for the terminating `.`;
/// a line that starts with `..` loses one dot; any other line is itself.
pub open spec fn line_payload(line: Seq<char>) -> Option<Seq<char>> {
    if line == "."@ {
        None
    } else if has_prefix(line, ".."@) {
        Some(line.drop_first())
    } else {
        Some(line)
    }
}

/// How the sender puts an article line on the wire (dot-stuffing): a line
/// that starts with `.` gets one more.
pub open spec fn dot_stuffed(line: Seq<char>) -> Seq<char> {
    if line.len() > 0 && line[0] == '.' {
        seq!['.'] + line
    } else {
        line
    }
}

/// Reads one wire line of an article.
pub fn article_line(line: &str) -> (r: ArticleLine)
    ensures
        line_payload(line@) is None ==> r is End,
        line_payload(line@) matches Some(l) ==> r matches ArticleLine::Text(t) && t@ == l,
{
    proof {
        reveal_strlit(".");
        reveal_strlit("..");
    }
    let v = chars_of(line);
    let dot = chars_of(".");
    if v.len() == 1 && v[0] == '.' {
        assert(v@ =~= dot@);
        return ArticleLine::End;
    }
    assert(v@ != dot@);
    if starts_with(&v, &chars_of("..")) {
        let t = slice_of(&v, 1, v.len());
        assert(t@ =~= v@.drop_first());
        ArticleLine::Text(string_of(&t))
    } else {
        ArticleLine::Text(string_of(&v))
    }
}

/// Dot-unstuffing gives back every article line the sender stuffed, and
/// no stuffed line reads as the end of the article.
pub proof fn law_unstuffing_undoes_stuffing(l: Seq<char>)
    ensures
        line_payload(dot_stuffed(l)) == Some(l),
{
    reveal_strlit(".");
    reveal_strlit("..");
    let s = dot_stuffed(l);
    if l.len() > 0 && l[0] == '.' {
        assert(s.take(2) =~= ".."@);
        assert(s.drop_first() =~= l);
        assert(s.len() >= 2);
    } else {
        if s.len() >= 2 {
            assert(s.take(2) != ".."@) by {
                assert(s.take(2)[0] != '.');
            }
        }
        if s =~= "."@ {
            assert(l[0] == '.');
        }
    }
}

/// The text that describes an `NntpError`.
pub open spec fn nntp_error_text(e: NntpError) -> Seq<char> {
    match e {
        NntpError::UnexpectedWelcome { response } => "Unexpected welcome message: "@ + response@,
        NntpError::GroupSelectFailed { group, response } => "Failed to select group "@ + group@
            + ": "@ + response@,
        NntpError::InvalidGroupResponse { response } => "Invalid GROUP response format: "@
            + response@,
        NntpError::ArticleFailed { id, response } => "Failed to retrieve article "@ + id@ + ": "@
            + response@,
    }
}

impl NntpError {
    /// The text that describes the error.
    pub fn message(&self) -> (r: String)
        ensures
            r@ == nntp_error_text(*self),
    {
        let mut v: Vec<char> = Vec::new();
        match self {
            NntpError::UnexpectedWelcome { response } => {
                push_str(&mut v, "Unexpected welcome message: ");
                push_str(&mut v, response.as_str());
            },
            NntpError::GroupSelectFailed { group, response } => {
                push_str(&mut v, "Failed to select group ");
                push_str(&mut v, group.as_str());
                push_str(&mut v, ": ");
                push_str(&mut v, response.as_str());
            },
            NntpError::InvalidGroupResponse { response } => {
                push_str(&mut v, "Invalid GROUP response format: ");
                push_str(&mut v, response.as_str());
            },
            NntpError::ArticleFailed { id, response } => {
                push_str(&mut v, "Failed to retrieve article ");
                push_str(&mut v, id.as_str());
                push_str(&mut v, ": ");
                push_str(&mut v, response.as_str());
            },
        }
        string_of(&v)
    }
}

} // verus!
