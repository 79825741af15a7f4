//! Parsing one e-mail of a patch series: its header fields and the diff it
//! carries.
//!
//! The raw text is cut into lines (as `str::lines` does); an mbox `From `
//! postmark line at the top is skipped. The header block runs up to the
//! first empty line, the body follows it. Header names match without regard
//! to ASCII case, folded header lines (starting with a space or a tab)
//! continue the field above them, and field values are trimmed of
//! whitespace.

use vstd::prelude::*;

use crate::lore::{strip_angle_brackets, strip_angle_brackets_exec};
use crate::text::{
    CharClass, chars_of, extend_chars, find_char, has_prefix, index_of, lemma_index_of, lines_exec,
    lines_of, parse_u64, parse_u64_exec, slice_of, starts_with, string_of, trim_both, trim_exec,
    views, words, words_exec,
};

verus! {

/// The header fields of a patch e-mail that a review needs.
#[derive(Debug)]
pub struct EmailMetadata {
    pub subject: String,
    pub author: String,
    pub date: String,
    /// Without angle brackets.
    pub message_id: String,
    /// The position of the patch in its series (`3` for `[PATCH 3/7]`).
    pub index: u64,
}

/// The diff an e-mail carries.
#[derive(Debug)]
pub struct ParsedPatch {
    pub diff: String,
}

/// The lines of the e-mail, without a leading mbox `From ` postmark.
pub open spec fn email_lines(raw: Seq<char>) -> Seq<Seq<char>> {
    let ls = lines_of(raw);
    if ls.len() > 0 && has_prefix(ls[0], "From "@) {
        ls.drop_first()
    } else {
        ls
    }
}

/// The number of header lines: the lines before the first empty one.
pub open spec fn header_len(ls: Seq<Seq<char>>) -> nat
    decreases ls.len(),
{
    if ls.len() == 0 || ls[0].len() == 0 {
        0
    } else {
        1 + header_len(ls.drop_first())
    }
}

/// The body lines: those after the empty line that ends the header block.
pub open spec fn body_lines(ls: Seq<Seq<char>>) -> Seq<Seq<char>> {
    let h = header_len(ls);
    if h < ls.len() {
        ls.skip(h + 1 as int)
    } else {
        Seq::<Seq<char>>::empty()
    }
}

/// `c` with ASCII upper case mapped to lower case.
pub open spec fn ascii_lower(c: char) -> char {
    if 'A' <= c <= 'Z' {
        (c as int + 32) as char
    } else {
        c
    }
}

/// `a` and `b` are equal up to ASCII case.
pub open spec fn eq_ignore_ascii_case(a: Seq<char>, b: Seq<char>) -> bool {
    a.len() == b.len() && forall|i: int| 0 <= i < a.len() ==> ascii_lower(a[i]) == ascii_lower(b[i])
}

/// `line` starts the header field `name`: the name, in any ASCII case, then `:`.
pub open spec fn names_header(line: Seq<char>, name: Seq<char>) -> bool {
    line.len() > name.len() && line[name.len() as int] == ':' && eq_ignore_ascii_case(
        line.take(name.len() as int),
        name,
    )
}

/// A folded header line, which continues the field above it.
pub open spec fn is_continuation(line: Seq<char>) -> bool {
    line.len() > 0 && (line[0] == ' ' || line[0] == '\t')
}

/// The folded lines that follow line `k - 1`, up to line `h`, joined.
pub open spec fn continuation_text(ls: Seq<Seq<char>>, k: int, h: int) -> Seq<char>
    decreases h - k,
{
    if 0 <= k < h && is_continuation(ls[k]) {
        ls[k] + continuation_text(ls, k + 1, h)
    } else {
        Seq::<char>::empty()
    }
}

/// The value of the first field `name` among header lines `k..h`, unfolded
/// and trimmed.
pub open spec fn first_header(ls: Seq<Seq<char>>, h: int, name: Seq<char>, k: int) -> Option<
    Seq<char>,
>
    decreases h - k,
{
    if k >= h || k < 0 {
        None
    } else if names_header(ls[k], name) {
        Some(
            trim_both(
                ls[k].skip(name.len() + 1 as int) + continuation_text(ls, k + 1, h),
                CharClass::Whitespace,
            ),
        )
    } else {
        first_header(ls, h, name, k + 1)
    }
}

/// The value of the header field `name` of the e-mail, empty when it has none.
pub open spec fn header_field(raw: Seq<char>, name: Seq<char>) -> Seq<char> {
    let ls = email_lines(raw);
    match first_header(ls, header_len(ls) as int, name, 0) {
        Some(v) => v,
        None => Seq::<char>::empty(),
    }
}

pub open spec fn email_subject(raw: Seq<char>) -> Seq<char> {
    header_field(raw, "Subject"@)
}

pub open spec fn email_author(raw: Seq<char>) -> Seq<char> {
    header_field(raw, "From"@)
}

pub open spec fn email_date(raw: Seq<char>) -> Seq<char> {
    header_field(raw, "Date"@)
}

pub open spec fn email_message_id(raw: Seq<char>) -> Seq<char> {
    strip_angle_brackets(header_field(raw, "Message-ID"@))
}

/// The text of the first `[...]` tag of a subject.
pub open spec fn subject_tag(subject: Seq<char>) -> Option<Seq<char>> {
    match index_of(subject, '[') {
        Some(open) => {
            let rest = subject.skip(open + 1);
            match index_of(rest, ']') {
                Some(close) => Some(rest.take(close)),
                None => None,
            }
        },
        None => None,
    }
}

/// `n` for a word `n/m` of two numbers.
pub open spec fn fraction_numerator(w: Seq<char>) -> Option<u64> {
    match index_of(w, '/') {
        Some(slash) => match parse_u64(w.take(slash)) {
            Some(n) => if parse_u64(w.skip(slash + 1)) is Some {
                Some(n)
            } else {
                None
            },
            None => None,
        },
        None => None,
    }
}

/// The numerator of the first word of `ws` that is a fraction `n/m`.
pub open spec fn first_numerator(ws: Seq<Seq<char>>) -> Option<u64>
    decreases ws.len(),
{
    if ws.len() == 0 {
        None
    } else {
        match fraction_numerator(ws[0]) {
            Some(n) => Some(n),
            None => first_numerator(ws.drop_first()),
        }
    }
}

/// The position of a patch in its series: `n` from the first `n/m` word of
/// the subject's first `[...]` tag, else 1 (a lone patch).
pub open spec fn patch_index(subject: Seq<char>) -> u64 {
    match subject_tag(subject) {
        Some(tag) => match first_numerator(words(tag)) {
            Some(n) => n,
            None => 1,
        },
        None => 1,
    }
}

/// The first line at or after `k` that starts a git diff.
pub open spec fn first_diff_line(ls: Seq<Seq<char>>, k: int) -> Option<int>
    decreases ls.len() - k,
{
    if k < 0 || k >= ls.len() {
        None
    } else if has_prefix(ls[k], "diff --git "@) {
        Some(k)
    } else {
        first_diff_line(ls, k + 1)
    }
}

/// The first signature separator line (`-- `) at or after `k`, else the end.
pub open spec fn signature_line(ls: Seq<Seq<char>>, k: int) -> int
    decreases ls.len() - k,
{
    if k < 0 || k >= ls.len() {
        ls.len() as int
    } else if ls[k] == "-- "@ {
        k
    } else {
        signature_line(ls, k + 1)
    }
}

/// Lines joined, each ended by a newline.
pub open spec fn joined_lines(ls: Seq<Seq<char>>) -> Seq<char>
    decreases ls.len(),
{
    if ls.len() == 0 {
        Seq::<char>::empty()
    } else {
        joined_lines(ls.drop_last()) + ls.last().push('\n')
    }
}

/// The diff of the e-mail: the body lines from the first `diff --git ` line
/// up to the signature separator, if there is such a line.
pub open spec fn email_diff(raw: Seq<char>) -> Option<Seq<char>> {
    let b = body_lines(email_lines(raw));
    match first_diff_line(b, 0) {
        Some(k) => Some(joined_lines(b.subrange(k, signature_line(b, k)))),
        None => None,
    }
}

/// The lines of the e-mail `raw`, without a leading mbox `From ` postmark.
pub fn email_lines_exec(raw: &str) -> (r: Vec<Vec<char>>)
    ensures
        views(r@) == email_lines(raw@),
{
    let v = chars_of(raw);
    let mut ls = lines_exec(&v);
    let postmark = chars_of("From ");
    if ls.len() > 0 && starts_with(&ls[0], &postmark) {
        let ghost before = ls@;
        assert(views(ls@)[0] == ls@[0]@);
        ls.remove(0);
        assert(views(ls@) =~= views(before).drop_first());
    }
    ls
}

proof fn lemma_header_len(ls: Seq<Seq<char>>, k: int)
    requires
        0 <= k <= ls.len(),
        forall|j: int| 0 <= j < k ==> (#[trigger] ls[j]).len() > 0,
        k == ls.len() || ls[k].len() == 0,
    ensures
        header_len(ls) == k,
    decreases k,
{
    if k > 0 {
        let t = ls.drop_first();
        assert(ls[0].len() > 0);
        assert forall|j: int| 0 <= j < k - 1 implies (#[trigger] t[j]).len() > 0 by {
            assert(t[j] == ls[j + 1]);
        }
        lemma_header_len(t, k - 1);
    }
}

/// The number of header lines of `ls`.
pub fn header_len_exec(ls: &Vec<Vec<char>>) -> (r: usize)
    ensures
        r == header_len(views(ls@)),
        r <= ls.len(),
{
    let ghost lv = views(ls@);
    let mut k: usize = 0;
    while k < ls.len() && ls[k].len() > 0
        invariant
            k <= ls.len(),
            lv == views(ls@),
            forall|j: int| 0 <= j < k ==> (#[trigger] lv[j]).len() > 0,
        decreases ls.len() - k,
    {
        assert(lv[k as int] == ls@[k as int]@);
        k = k + 1;
    }
    proof {
        if k < ls.len() {
            assert(lv[k as int] == ls@[k as int]@);
        }
        lemma_header_len(lv, k as int);
    }
    k
}

fn ascii_lower_exec(c: char) -> (r: char)
    ensures
        r == ascii_lower(c),
{
    if 'A' <= c && c <= 'Z' {
        ((c as u32 + 32) as u8) as char
    } else {
        c
    }
}

/// Whether `line` starts the header field `name`.
pub fn names_header_exec(line: &Vec<char>, name: &Vec<char>) -> (r: bool)
    ensures
        r == names_header(line@, name@),
{
    if line.len() <= name.len() || line[name.len()] != ':' {
        return false;
    }
    let mut i: usize = 0;
    while i < name.len()
        invariant
            i <= name.len() < line.len(),
            forall|j: int| 0 <= j < i ==> ascii_lower(line@[j]) == ascii_lower(name@[j]),
        decreases name.len() - i,
    {
        if ascii_lower_exec(line[i]) != ascii_lower_exec(name[i]) {
            assert(line@.take(name@.len() as int)[i as int] == line@[i as int]);
            return false;
        }
        i = i + 1;
    }
    assert forall|j: int| 0 <= j < name@.len() implies ascii_lower(
        line@.take(name@.len() as int)[j],
    ) == ascii_lower(name@[j]) by {
        assert(line@.take(name@.len() as int)[j] == line@[j]);
    }
    true
}

/// The folded lines that follow line `k - 1`, up to line `h`, joined.
pub fn continuation_exec(ls: &Vec<Vec<char>>, k: usize, h: usize) -> (r: Vec<char>)
    requires
        h <= ls.len(),
    ensures
        r@ == continuation_text(views(ls@), k as int, h as int),
{
    let ghost lv = views(ls@);
    let mut acc: Vec<char> = Vec::new();
    let mut j: usize = k;
    while j < h && ls[j].len() > 0 && (ls[j][0] == ' ' || ls[j][0] == '\t')
        invariant
            h <= ls.len(),
            lv == views(ls@),
            continuation_text(lv, k as int, h as int) == acc@ + continuation_text(
                lv,
                j as int,
                h as int,
            ),
        decreases h - j,
    {
        assert(lv[j as int] == ls@[j as int]@);
        let ghost before = acc@;
        extend_chars(&mut acc, &ls[j]);
        assert(before + continuation_text(lv, j as int, h as int) =~= acc@ + continuation_text(
            lv,
            j + 1,
            h as int,
        ));
        j = j + 1;
    }
    proof {
        if j < h {
            assert(lv[j as int] == ls@[j as int]@);
        }
        assert(continuation_text(lv, j as int, h as int) =~= Seq::<char>::empty());
        assert(acc@ + Seq::<char>::empty() =~= acc@);
    }
    acc
}

/// The value of the first field `name` among the first `h` lines of `ls`.
pub fn first_header_exec(ls: &Vec<Vec<char>>, h: usize, name: &Vec<char>) -> (r: Option<Vec<char>>)
    requires
        h <= ls.len(),
    ensures
        r matches Some(v) ==> first_header(views(ls@), h as int, name@, 0) == Some(v@),
        r is None ==> first_header(views(ls@), h as int, name@, 0) is None,
{
    let ghost lv = views(ls@);
    let mut k: usize = 0;
    while k < h
        invariant
            h <= ls.len(),
            lv == views(ls@),
            first_header(lv, h as int, name@, 0) == first_header(lv, h as int, name@, k as int),
        decreases h - k,
    {
        assert(lv[k as int] == ls@[k as int]@);
        if names_header_exec(&ls[k], name) {
            let line = &ls[k];
            let ll = line.len();
            let nl = name.len();
            assert(ll > nl);
            let mut value = slice_of(line, nl + 1, ll);
            assert(value@ =~= lv[k as int].skip(name@.len() + 1 as int));
            let cont = continuation_exec(ls, k + 1, h);
            extend_chars(&mut value, &cont);
            let t = trim_exec(&value, CharClass::Whitespace);
            return Some(t);
        }
        k = k + 1;
    }
    None
}

/// The value of the header field `name` among the header lines of `ls`,
/// empty when there is none.
fn header_field_exec(ls: &Vec<Vec<char>>, h: usize, name: &str) -> (r: Vec<char>)
    requires
        h == header_len(views(ls@)),
        h <= ls.len(),
    ensures
        r@ == (match first_header(views(ls@), h as int, name@, 0) {
            Some(v) => v,
            None => Seq::<char>::empty(),
        }),
{
    let n = chars_of(name);
    match first_header_exec(ls, h, &n) {
        Some(v) => v,
        None => Vec::new(),
    }
}

/// The text of the first `[...]` tag of `subject`.
pub fn subject_tag_exec(subject: &Vec<char>) -> (r: Option<Vec<char>>)
    ensures
        r matches Some(t) ==> subject_tag(subject@) == Some(t@),
        r is None ==> subject_tag(subject@) is None,
{
    proof {
        lemma_index_of(subject@, '[');
    }
    match find_char(subject, '[') {
        Some(open) => {
            assert(open < subject.len());
            let rest = slice_of(subject, open + 1, subject.len());
            assert(rest@ =~= subject@.skip(open + 1));
            proof {
                lemma_index_of(rest@, ']');
            }
            match find_char(&rest, ']') {
                Some(close) => {
                    let t = slice_of(&rest, 0, close);
                    assert(t@ =~= rest@.take(close as int));
                    Some(t)
                },
                None => None,
            }
        },
        None => None,
    }
}

/// `n` for a word `n/m` of two numbers.
pub fn fraction_numerator_exec(w: &Vec<char>) -> (r: Option<u64>)
    ensures
        r == fraction_numerator(w@),
{
    proof {
        lemma_index_of(w@, '/');
    }
    match find_char(w, '/') {
        Some(slash) => {
            assert(slash < w.len());
            let num = slice_of(w, 0, slash);
            let den = slice_of(w, slash + 1, w.len());
            assert(num@ =~= w@.take(slash as int));
            assert(den@ =~= w@.skip(slash + 1));
            match parse_u64_exec(&num) {
                Some(n) => {
                    if parse_u64_exec(&den).is_some() {
                        Some(n)
                    } else {
                        None
                    }
                },
                None => None,
            }
        },
        None => None,
    }
}

/// The numerator of the first word of `ws` that is a fraction `n/m`.
pub fn first_numerator_exec(ws: &Vec<Vec<char>>) -> (r: Option<u64>)
    ensures
        r == first_numerator(views(ws@)),
{
    let ghost all = views(ws@);
    let mut i: usize = 0;
    assert(all.skip(0) =~= all);
    while i < ws.len()
        invariant
            i <= ws.len(),
            all == views(ws@),
            first_numerator(all) == first_numerator(all.skip(i as int)),
        decreases ws.len() - i,
    {
        let ghost rest = all.skip(i as int);
        assert(rest[0] == ws@[i as int]@);
        assert(rest.drop_first() =~= all.skip(i + 1));
        match fraction_numerator_exec(&ws[i]) {
            Some(n) => {
                return Some(n);
            },
            None => {},
        }
        i = i + 1;
    }
    assert(all.skip(i as int).len() == 0);
    None
}

/// The position of a patch in its series, read from its subject.
pub fn patch_index_exec(subject: &Vec<char>) -> (r: u64)
    ensures
        r == patch_index(subject@),
{
    match subject_tag_exec(subject) {
        Some(tag) => {
            let ws = words_exec(&tag);
            match first_numerator_exec(&ws) {
                Some(n) => n,
                None => 1,
            }
        },
        None => 1,
    }
}

/// The first line of `ls` that starts a git diff.
fn first_diff_line_exec(ls: &Vec<Vec<char>>) -> (r: Option<usize>)
    ensures
        r matches Some(k) ==> first_diff_line(views(ls@), 0) == Some(k as int) && k < ls.len(),
        r is None ==> first_diff_line(views(ls@), 0) is None,
{
    let ghost lv = views(ls@);
    let marker = chars_of("diff --git ");
    let mut k: usize = 0;
    while k < ls.len()
        invariant
            k <= ls.len(),
            lv == views(ls@),
            marker@ == "diff --git "@,
            first_diff_line(lv, 0) == first_diff_line(lv, k as int),
        decreases ls.len() - k,
    {
        assert(lv[k as int] == ls@[k as int]@);
        if starts_with(&ls[k], &marker) {
            return Some(k);
        }
        k = k + 1;
    }
    None
}

/// The first signature separator line of `ls` at or after `k`, else its length.
fn signature_line_exec(ls: &Vec<Vec<char>>, k: usize) -> (r: usize)
    requires
        k <= ls.len(),
    ensures
        r as int == signature_line(views(ls@), k as int),
        k <= r <= ls.len(),
{
    let ghost lv = views(ls@);
    let sep = chars_of("-- ");
    let mut e: usize = k;
    while e < ls.len()
        invariant
            k <= e <= ls.len(),
            lv == views(ls@),
            sep@ == "-- "@,
            signature_line(lv, k as int) == signature_line(lv, e as int),
        decreases ls.len() - e,
    {
        assert(lv[e as int] == ls@[e as int]@);
        if ls[e].len() == sep.len() && starts_with(&ls[e], &sep) {
            assert(lv[e as int] =~= sep@);
            return e;
        }
        if ls[e].len() == sep.len() {
            assert(lv[e as int].take(sep@.len() as int) =~= lv[e as int]);
        }
        assert(lv[e as int] != sep@);
        e = e + 1;
    }
    e
}

/// Lines `from..to` of `ls`, each ended by a newline.
fn joined_exec(ls: &Vec<Vec<char>>, from: usize, to: usize) -> (r: Vec<char>)
    requires
        from <= to <= ls.len(),
    ensures
        r@ == joined_lines(views(ls@).subrange(from as int, to as int)),
{
    let ghost lv = views(ls@);
    let mut acc: Vec<char> = Vec::new();
    let mut j: usize = from;
    assert(lv.subrange(from as int, from as int).len() == 0);
    while j < to
        invariant
            from <= j <= to <= ls.len(),
            lv == views(ls@),
            acc@ == joined_lines(lv.subrange(from as int, j as int)),
        decreases to - j,
    {
        let ghost next = lv.subrange(from as int, j + 1);
        assert(next.drop_last() =~= lv.subrange(from as int, j as int));
        assert(next.last() == ls@[j as int]@);
        extend_chars(&mut acc, &ls[j]);
        acc.push('\n');
        j = j + 1;
    }
    acc
}

/// Parses one e-mail of a patch series: its subject, author, date,
/// message-ID and series position, and the diff it carries, if any.
pub fn parse_email(raw: &str) -> (r: (EmailMetadata, Option<ParsedPatch>))
    ensures
        r.0.subject@ == email_subject(raw@),
        r.0.author@ == email_author(raw@),
        r.0.date@ == email_date(raw@),
        r.0.message_id@ == email_message_id(raw@),
        r.0.index == patch_index(email_subject(raw@)),
        r.1 matches Some(p) ==> email_diff(raw@) == Some(p.diff@),
        r.1 is None ==> email_diff(raw@) is None,
{
    let ls = email_lines_exec(raw);
    let h = header_len_exec(&ls);
    let subject = header_field_exec(&ls, h, "Subject");
    let author = header_field_exec(&ls, h, "From");
    let date = header_field_exec(&ls, h, "Date");
    let raw_id = header_field_exec(&ls, h, "Message-ID");
    let message_id = strip_angle_brackets_exec(&raw_id);
    let index = patch_index_exec(&subject);
    let meta = EmailMetadata {
        subject: string_of(&subject),
        author: string_of(&author),
        date: string_of(&date),
        message_id: string_of(&message_id),
        index,
    };
    let ghost lv = views(ls@);
    let mut body: Vec<Vec<char>> = Vec::new();
    if h < ls.len() {
        let mut j: usize = h + 1;
        assert(views(body@) =~= lv.subrange(h + 1, h + 1));
        while j < ls.len()
            invariant
                h < j <= ls.len(),
                lv == views(ls@),
                views(body@) == lv.subrange(h + 1, j as int),
            decreases ls.len() - j,
        {
            let line = slice_of(&ls[j], 0, ls[j].len());
            let ghost before = views(body@);
            body.push(line);
            assert(views(body@) =~= before.push(line@));
            assert(line@ =~= lv[j as int]);
            assert(views(body@) =~= lv.subrange(h + 1, j + 1));
            j = j + 1;
        }
        assert(lv.subrange(h + 1, lv.len() as int) =~= lv.skip(h + 1));
    } else {
        assert(views(body@) =~= Seq::<Seq<char>>::empty());
    }
    assert(views(body@) == body_lines(lv));
    let patch = match first_diff_line_exec(&body) {
        Some(k) => {
            let e = signature_line_exec(&body, k);
            let d = joined_exec(&body, k, e);
            Some(ParsedPatch { diff: string_of(&d) })
        },
        None => None,
    };
    (meta, patch)
}

proof fn lemma_first_diff_line(ls: Seq<Seq<char>>, k: int)
    requires
        0 <= k,
    ensures
        first_diff_line(ls, k) matches Some(j) ==> k <= j < ls.len() && has_prefix(
            ls[j],
            "diff --git "@,
        ),
    decreases ls.len() - k,
{
    if k < ls.len() && !has_prefix(ls[k], "diff --git "@) {
        lemma_first_diff_line(ls, k + 1);
    }
}

proof fn lemma_signature_line(ls: Seq<Seq<char>>, k: int)
    requires
        0 <= k <= ls.len(),
    ensures
        k <= signature_line(ls, k) <= ls.len(),
        signature_line(ls, k) < ls.len() ==> ls[signature_line(ls, k)] == "-- "@,
    decreases ls.len() - k,
{
    if k < ls.len() && ls[k] != "-- "@ {
        lemma_signature_line(ls, k + 1);
    }
}

proof fn lemma_joined_prefix(ls: Seq<Seq<char>>)
    requires
        ls.len() > 0,
    ensures
        has_prefix(joined_lines(ls), ls[0]),
        joined_lines(ls).len() > 0,
        joined_lines(ls).last() == '\n',
    decreases ls.len(),
{
    let j = joined_lines(ls);
    if ls.len() == 1 {
        assert(ls.drop_last() =~= Seq::<Seq<char>>::empty());
        assert(j =~= ls[0].push('\n'));
        assert(j.take(ls[0].len() as int) =~= ls[0]);
    } else {
        let d = ls.drop_last();
        lemma_joined_prefix(d);
        assert(d[0] == ls[0]);
        let jd = joined_lines(d);
        assert(j =~= jd + ls.last().push('\n'));
        assert(j.take(ls[0].len() as int) =~= jd.take(ls[0].len() as int));
    }
}

/// A diff taken from an e-mail starts with its `diff --git ` line and ends
/// with a newline.
pub proof fn law_diff_starts_with_git_header(raw: Seq<char>)
    ensures
        email_diff(raw) matches Some(d) ==> {
            &&& has_prefix(d, "diff --git "@)
            &&& d.len() > 0
            &&& d.last() == '\n'
        },
{
    reveal_strlit("diff --git ");
    reveal_strlit("-- ");
    let b = body_lines(email_lines(raw));
    lemma_first_diff_line(b, 0);
    if let Some(k) = first_diff_line(b, 0) {
        lemma_signature_line(b, k);
        let e = signature_line(b, k);
        assert(e != k) by {
            if e == k {
                assert(b[k].len() >= 11);
                assert(b[k] == "-- "@);
            }
        }
        let part = b.subrange(k, e);
        assert(part[0] == b[k]);
        lemma_joined_prefix(part);
        let d = joined_lines(part);
        let m = "diff --git "@;
        assert(d.take(m.len() as int) =~= b[k].take(m.len() as int));
    }
}

proof fn lemma_first_diff_line_is_first(ls: Seq<Seq<char>>, k: int)
    requires
        0 <= k,
    ensures
        first_diff_line(ls, k) matches Some(j) ==> forall|i: int|
            k <= i < j ==> !has_prefix(#[trigger] ls[i], "diff --git "@),
        first_diff_line(ls, k) is None ==> forall|i: int|
            k <= i < ls.len() ==> !has_prefix(#[trigger] ls[i], "diff --git "@),
    decreases ls.len() - k,
{
    if k < ls.len() && !has_prefix(ls[k], "diff --git "@) {
        lemma_first_diff_line_is_first(ls, k + 1);
    }
}

proof fn lemma_signature_line_is_first(ls: Seq<Seq<char>>, k: int)
    requires
        0 <= k <= ls.len(),
    ensures
        forall|i: int| k <= i < signature_line(ls, k) ==> #[trigger] ls[i] != "-- "@,
    decreases ls.len() - k,
{
    if k < ls.len() && ls[k] != "-- "@ {
        lemma_signature_line_is_first(ls, k + 1);
    }
}

/// The diff of an e-mail is all of its body from the first `diff --git `
/// line on, up to the first signature separator after it: no body line
/// before it starts a diff, every body line from there to the separator
/// (each further `diff --git ` line included) is in it, and there is no diff
/// exactly when no body line starts one.
pub proof fn law_diff_is_whole_body_diff(raw: Seq<char>)
    ensures
        email_diff(raw) is None <==> forall|i: int|
            0 <= i < body_lines(email_lines(raw)).len() ==> !has_prefix(
                #[trigger] body_lines(email_lines(raw))[i],
                "diff --git "@,
            ),
        email_diff(raw) matches Some(d) ==> exists|k: int, e: int|
            0 <= k < e <= body_lines(email_lines(raw)).len() && d == joined_lines(
                #[trigger] body_lines(email_lines(raw)).subrange(k, e),
            ) && has_prefix(body_lines(email_lines(raw))[k], "diff --git "@) && (forall|i: int|
                0 <= i < k ==> !has_prefix(#[trigger] body_lines(email_lines(raw))[i], "diff --git "@))
                && (forall|i: int| k <= i < e ==> #[trigger] body_lines(email_lines(raw))[i] != "-- "@)
                && (e == body_lines(email_lines(raw)).len() || body_lines(email_lines(raw))[e]
                == "-- "@),
{
    reveal_strlit("diff --git ");
    reveal_strlit("-- ");
    let b = body_lines(email_lines(raw));
    lemma_first_diff_line(b, 0);
    lemma_first_diff_line_is_first(b, 0);
    if let Some(k) = first_diff_line(b, 0) {
        lemma_signature_line(b, k);
        lemma_signature_line_is_first(b, k);
        let e = signature_line(b, k);
        assert(e != k) by {
            if e == k {
                assert(b[k].len() >= 11);
                assert(b[k] == "-- "@);
            }
        }
        assert(email_diff(raw) == Some(joined_lines(b.subrange(k, e))));
    } else {
        assert(email_diff(raw) is None);
    }
    if email_diff(raw) is Some {
        let k = first_diff_line(b, 0)->0;
        assert(has_prefix(b[k], "diff --git "@));
        assert(!(forall|i: int| 0 <= i < b.len() ==> !has_prefix(#[trigger] b[i], "diff --git "@)));
    }
}

} // verus!
