//! lore.kernel.org helpers: recognising lore URLs and message-IDs, the
//! thread archive address of a message, and picking one message out of a
//! thread mbox.

use vstd::prelude::*;

use crate::text::{
    CharClass, chars_of, contains_char, contains_seq, find_char, has_char, has_infix, has_prefix,
    index_of, lemma_index_of, nonempty_exec, nonempty_pieces, slice_of, split_by, split_exec, starts_with, string_of,
    trim_end, trim_end_exec, trim_start, trim_start_exec, views, occurs_at, occurs_at_exec,
    lines_exec, lines_of, trim_both, trim_exec, str_lowercase, to_lowercase, extend_chars,
    decimal, push_decimal, push_str, in_class, lemma_nonempty_concat, lemma_nonempty_members,
    lemma_split_by_pieces, lemma_split_by_plain, lemma_split_by_sep, lemma_trim_end_chars,
    lemma_trim_start_chars, lemma_trim_end_append, lemma_trim_start_append, lemma_trim_start_prepend,
    lemma_infix_trans, lemma_skip_infix, lemma_prefix_infix, lemma_trim_start_infix,
    lemma_trim_end_prefix, lemma_split_by_infix,
};
use vstd::utf8::{decode_utf8, encode_utf8, valid_utf8};
use vstd::string::StringSliceAdditionalSpecFns;
use std::io::Read;

use crate::email::{
    names_header, names_header_exec, email_author, email_date, email_diff, email_message_id, email_subject, parse_email, patch_index,
};
use crate::worker::{PatchInput, ReviewInput};

verus! {

/// `https://lore.kernel.org`
pub open spec fn lore_https() -> Seq<char> {
    "https://lore.kernel.org"@
}

/// `http://lore.kernel.org`
pub open spec fn lore_http() -> Seq<char> {
    "http://lore.kernel.org"@
}

/// The character ends the host of a URL: a path, a port, a query or a
/// fragment begins with it.
pub open spec fn ends_host(c: char) -> bool {
    c == '/' || c == ':' || c == '?' || c == '#'
}

/// `s` starts with the address `prefix` and the host it names ends there:
/// nothing follows, or a character that ends the host.
pub open spec fn starts_with_host(s: Seq<char>, prefix: Seq<char>) -> bool {
    &&& has_prefix(s, prefix)
    &&& (s.len() == prefix.len() || ends_host(s[prefix.len() as int]))
}

/// The input names lore.kernel.org by its URL: it starts with the https or
/// the http address of the host, and the host ends right after
/// `lore.kernel.org` (so `https://lore.kernel.org.example.com` or
/// `http://lore.kernel.orgx`, other hosts, do not count).
pub open spec fn spec_is_lore_url(s: Seq<char>) -> bool {
    starts_with_host(s, lore_https()) || starts_with_host(s, lore_http())
}

/// Where the lore host ends in `v`, when `v` is a lore URL (https first).
fn lore_host_end(v: &Vec<char>) -> (r: Option<usize>)
    ensures
        r matches Some(n) ==> n <= v.len() && lore_path(v@) == Some(v@.skip(n as int)),
        r is None ==> lore_path(v@) is None,
{
    let https = chars_of("https://lore.kernel.org");
    let http = chars_of("http://lore.kernel.org");
    proof {
        reveal_strlit("https://lore.kernel.org");
        reveal_strlit("http://lore.kernel.org");
        if has_prefix(v@, https@) {
            assert(v@[4] == v@.take(23)[4]);
            assert(!has_prefix(v@, http@)) by {
                if has_prefix(v@, http@) {
                    assert(v@[4] == v@.take(22)[4]);
                }
            }
        }
    }
    let n = if starts_with(v, &https) {
        https.len()
    } else if starts_with(v, &http) {
        http.len()
    } else {
        return None;
    };
    if n == v.len() || v[n] == '/' || v[n] == ':' || v[n] == '?' || v[n] == '#' {
        Some(n)
    } else {
        None
    }
}

/// Returns `true` when `input` looks like a lore.kernel.org URL.
///
/// Only matches when the hostname is exactly `lore.kernel.org` (not a
/// substring of another domain).
pub fn is_lore_url(input: &str) -> (r: bool)
    ensures
        r == spec_is_lore_url(input@),
{
    let v = chars_of(input);
    lore_host_end(&v).is_some()
}

/// A message-ID rather than a git ref, path or range: there is an `@`, the
/// text after the first `@` holds a `.`, and the input holds no `/`, no `\`
/// and no `..`.
pub open spec fn spec_is_message_id(s: Seq<char>) -> bool {
    match index_of(s, '@') {
        Some(at) => {
            &&& has_char(s.skip(at + 1), '.')
            &&& !has_char(s, '/')
            &&& !has_char(s, '\\')
            &&& !has_infix(s, ".."@)
        },
        None => false,
    }
}

/// Returns `true` when `input` looks like an RFC 5322 message-ID
/// rather than a git ref, file path, or commit range.
///
/// Kernel message-IDs almost always have a dot in the local part
/// (e.g. `20231025202513.12358-1-tony.luck@intel.com`).  Requiring a
/// dot after `@` distinguishes them from bare `user@branch` patterns
/// that should be treated as git refs.
pub fn is_message_id(input: &str) -> (r: bool)
    ensures
        r == spec_is_message_id(input@),
{
    let v = chars_of(input);
    proof {
        lemma_index_of(v@, '@');
    }
    match find_char(&v, '@') {
        Some(at) => {
            assert(index_of(v@, '@') == Some(at as int));
            assert(at < v.len());
            let domain = slice_of(&v, at + 1, v.len());
            assert(domain@ =~= v@.skip(at + 1));
            let dots = chars_of("..");
            contains_char(&domain, '.') && !contains_char(&v, '/') && !contains_char(&v, '\\')
                && !contains_seq(&v, &dots)
        },
        None => false,
    }
}

/// The path after the lore host, when the URL is a lore URL (https first):
/// it is empty or starts with the character that ends the host.
pub open spec fn lore_path(url: Seq<char>) -> Option<Seq<char>> {
    if starts_with_host(url, lore_https()) {
        Some(url.skip(lore_https().len() as int))
    } else if starts_with_host(url, lore_http()) {
        Some(url.skip(lore_http().len() as int))
    } else {
        None
    }
}

/// `s` without its leading `<`s and trailing `>`s.
pub open spec fn strip_angle_brackets(s: Seq<char>) -> Seq<char> {
    trim_end(trim_start(s, CharClass::Is('<')), CharClass::Is('>'))
}

/// A path segment that names a view of a message, not the message.
pub open spec fn is_view_suffix(seg: Seq<char>) -> bool {
    seg == "raw"@ || seg == "t.mbox.gz"@
}

/// Walking the segments from the last one back, skipping `raw` and
/// `t.mbox.gz`: the first one that, stripped of angle brackets, holds an `@`.
pub open spec fn last_message_id_segment(segs: Seq<Seq<char>>) -> Option<Seq<char>>
    decreases segs.len(),
{
    if segs.len() == 0 {
        None
    } else {
        let seg = segs.last();
        let cleaned = strip_angle_brackets(seg);
        if !is_view_suffix(seg) && has_char(cleaned, '@') {
            Some(cleaned)
        } else {
            last_message_id_segment(segs.drop_last())
        }
    }
}

/// The message-ID a lore URL names: the URL must be a lore URL (the lore
/// host, ended); its path is cut at `/` into non-empty segments (leading slashes only give
/// empty segments, so trimming them first changes nothing).
pub open spec fn lore_url_message_id(url: Seq<char>) -> Option<Seq<char>> {
    match lore_path(url) {
        Some(path) => last_message_id_segment(nonempty_pieces(split_by(path, CharClass::Is('/')))),
        None => None,
    }
}

/// `v` without its leading `<`s and trailing `>`s.
pub fn strip_angle_brackets_exec(v: &Vec<char>) -> (r: Vec<char>)
    ensures
        r@ == strip_angle_brackets(v@),
{
    let t = trim_start_exec(v, CharClass::Is('<'));
    trim_end_exec(&t, CharClass::Is('>'))
}

/// Extracts the message-ID component from a lore.kernel.org URL.
///
/// Handles patterns such as:
/// - `https://lore.kernel.org/all/<msgid>/`
/// - `https://lore.kernel.org/all/<msgid>`
/// - `https://lore.kernel.org/<list>/<msgid>/raw`
///
/// Only a URL that [`is_lore_url`] accepts yields an ID, so the host must be
/// exactly `lore.kernel.org`.
pub fn extract_message_id_from_lore_url(url: &str) -> (r: Option<String>)
    ensures
        r matches Some(id) ==> lore_url_message_id(url@) == Some(id@),
        r is None ==> lore_url_message_id(url@) is None,
{
    let v = chars_of(url);
    let path = match lore_host_end(&v) {
        Some(n) => {
            let p = slice_of(&v, n, v.len());
            assert(p@ =~= v@.skip(n as int));
            p
        },
        None => {
            return None;
        },
    };
    assert(lore_path(url@) == Some(path@));
    let pieces = split_exec(&path, CharClass::Is('/'));
    let segs = nonempty_exec(&pieces);
    let ghost all = views(segs@);
    let raw = chars_of("raw");
    let mbox = chars_of("t.mbox.gz");
    let mut k: usize = segs.len();
    assert(all.take(k as int) =~= all);
    assert(lore_url_message_id(url@) == last_message_id_segment(all));
    while k > 0
        invariant
            k <= segs.len(),
            lore_url_message_id(url@) == last_message_id_segment(all),
            all == views(segs@),
            raw@ == "raw"@,
            mbox@ == "t.mbox.gz"@,
            last_message_id_segment(all) == last_message_id_segment(all.take(k as int)),
        decreases k,
    {
        let seg = &segs[k - 1];
        let ghost prefix = all.take(k as int);
        assert(prefix.last() == seg@);
        assert(prefix.drop_last() =~= all.take(k - 1));
        let skip = (seg.len() == raw.len() && starts_with(seg, &raw)) || (seg.len() == mbox.len()
            && starts_with(seg, &mbox));
        assert(skip == is_view_suffix(seg@)) by {
            if seg@.len() == raw@.len() {
                assert(seg@.take(raw@.len() as int) =~= seg@);
            }
            if seg@.len() == mbox@.len() {
                assert(seg@.take(mbox@.len() as int) =~= seg@);
            }
        }
        if !skip {
            let cleaned = strip_angle_brackets_exec(seg);
            if contains_char(&cleaned, '@') {
                assert(last_message_id_segment(prefix) == Some(cleaned@));
                return Some(string_of(&cleaned));
            }
        }
        k = k - 1;
    }
    assert(all.take(0) =~= Seq::<Seq<char>>::empty());
    None
}

/// Why a lore lookup gave no message.
#[derive(Debug)]
pub enum LoreError {
    /// lore.kernel.org answered 404 for the message.
    MessageNotFound { message_id: String },
    /// lore.kernel.org answered another status that is not a success;
    /// `reason` is the status's canonical reason phrase.
    HttpStatus { status: u16, reason: String },
    /// The compressed thread archive is larger than the download limit.
    CompressedTooLarge { size: usize, max_size: usize },
    /// Reading the thread archive as a gzip stream failed; `detail` is the
    /// text of the read error.
    Decompression { detail: String },
    /// The decompressed thread holds more than `max_bytes` bytes.
    DecompressedTooLarge { max_bytes: u64 },
    /// The decompressed thread is not UTF-8; `detail` is the text of the
    /// conversion error.
    InvalidUtf8 { detail: String },
    /// No message of the thread carries the wanted message-ID.
    NotInThread { message_id: String, thread_messages: usize },
    /// The message holds no diff.
    NoPatchContent { message_id: String },
}

/// Position `j` of the mbox text `s` starts a message: it follows a newline
/// and begins a `From ` line.
pub open spec fn starts_message(s: Seq<char>, j: int) -> bool {
    1 <= j && s[j - 1] == '\n' && occurs_at(s, "From "@, j)
}

/// The first `n` characters of `s`, cut before each position that starts a
/// message.
pub open spec fn mbox_pieces(s: Seq<char>, n: nat) -> Seq<Seq<char>>
    decreases n,
{
    if n == 0 {
        seq![Seq::<char>::empty()]
    } else {
        let r = mbox_pieces(s, (n - 1) as nat);
        let c = s[n - 1];
        if starts_message(s, n - 1) {
            r.push(seq![c])
        } else {
            r.update(r.len() - 1, r.last().push(c))
        }
    }
}

/// The messages of an mbox (mboxrd: each message after the first begins
/// with a `From ` line right after a newline); the empty text holds none.
pub open spec fn mbox_messages(s: Seq<char>) -> Seq<Seq<char>> {
    if s.len() == 0 {
        Seq::<Seq<char>>::empty()
    } else {
        mbox_pieces(s, s.len())
    }
}

proof fn lemma_mbox_pieces_nonempty(s: Seq<char>, n: nat)
    ensures
        mbox_pieces(s, n).len() >= 1,
    decreases n,
{
    if n > 0 {
        lemma_mbox_pieces_nonempty(s, (n - 1) as nat);
    }
}

/// The messages of the mbox text `v`.
pub fn split_mbox(v: &Vec<char>) -> (r: Vec<Vec<char>>)
    ensures
        views(r@) == mbox_messages(v@),
{
    let mut pieces: Vec<Vec<char>> = Vec::new();
    if v.len() == 0 {
        assert(views(pieces@) =~= mbox_messages(v@));
        return pieces;
    }
    let marker = chars_of("From ");
    let mut cur: Vec<char> = Vec::new();
    let mut i: usize = 0;
    assert(views(pieces@).push(cur@) =~= mbox_pieces(v@, 0));
    while i < v.len()
        invariant
            i <= v.len(),
            marker@ == "From "@,
            views(pieces@).push(cur@) == mbox_pieces(v@, i as nat),
        decreases v.len() - i,
    {
        proof {
            lemma_mbox_pieces_nonempty(v@, i as nat);
        }
        let c = v[i];
        let starts = i >= 1 && v[i - 1] == '\n' && occurs_at_exec(v, &marker, i);
        assert(starts == starts_message(v@, i as int));
        if starts {
            pieces.push(cur);
            cur = Vec::new();
            cur.push(c);
            assert(views(pieces@).push(cur@) =~= mbox_pieces(v@, (i + 1) as nat));
        } else {
            cur.push(c);
            assert(views(pieces@).push(cur@) =~= mbox_pieces(v@, (i + 1) as nat));
        }
        i = i + 1;
    }
    pieces.push(cur);
    assert(views(pieces@) =~= mbox_messages(v@));
    pieces
}

/// The value of a `Message-ID` header line, after the colon: the line starts
/// with the field name `Message-ID` in any ASCII case, then `:`.
pub open spec fn message_id_header_value(line: Seq<char>) -> Option<Seq<char>> {
    if names_header(line, "Message-ID"@) {
        Some(line.skip("Message-ID"@.len() + 1 as int))
    } else {
        None
    }
}

/// A message-ID as written in a header value, without surrounding
/// whitespace and angle brackets.
pub open spec fn normalized_message_id(value: Seq<char>) -> Seq<char> {
    strip_angle_brackets(trim_both(value, CharClass::Whitespace))
}

/// `line` is a `Message-ID` header whose lowercased ID is `target_lower`.
pub open spec fn line_names_message(line: Seq<char>, target_lower: Seq<char>) -> bool {
    match message_id_header_value(line) {
        Some(value) => str_lowercase(normalized_message_id(value)) == target_lower,
        None => false,
    }
}

/// Among the header lines of `msg` (its lines before the first empty one)
/// there is a `Message-ID` header naming `target_lower`.
pub open spec fn message_has_id(msg: Seq<char>, target_lower: Seq<char>) -> bool {
    let ls = lines_of(msg);
    exists|k: int|
        0 <= k < ls.len() && #[trigger] line_names_message(ls[k], target_lower) && forall|j: int|
            0 <= j <= k ==> (#[trigger] ls[j]).len() > 0
}

/// The first of `ms` that carries the message-ID `target_lower`.
pub open spec fn find_message(ms: Seq<Seq<char>>, target_lower: Seq<char>) -> Option<Seq<char>>
    decreases ms.len(),
{
    if ms.len() == 0 {
        None
    } else if message_has_id(ms[0], target_lower) {
        Some(ms[0])
    } else {
        find_message(ms.drop_first(), target_lower)
    }
}

/// The message of the thread `mbox` whose `Message-ID` header matches
/// `target_id`, compared case-insensitively (both lowercased).
pub open spec fn thread_message(mbox: Seq<char>, target_id: Seq<char>) -> Option<Seq<char>> {
    find_message(mbox_messages(mbox), str_lowercase(target_id))
}

/// The lowercased, normalized ID of a `Message-ID` header line, if it is one.
fn line_message_id(line: &Vec<char>, name: &Vec<char>) -> (r: Option<String>)
    requires
        name@ == "Message-ID"@,
    ensures
        r matches Some(id) ==> message_id_header_value(line@) matches Some(value) && id@
            == str_lowercase(normalized_message_id(value)),
        r is None ==> message_id_header_value(line@) is None,
{
    if !names_header_exec(line, name) {
        return None;
    }
    let total = line.len();
    assert(name@.len() < total);
    let n = name.len() + 1;
    let value = slice_of(line, n, line.len());
    assert(message_id_header_value(line@) == Some(value@)) by {
        assert(value@ =~= line@.skip(n as int));
    }
    let trimmed = trim_exec(&value, CharClass::Whitespace);
    let id = strip_angle_brackets_exec(&trimmed);
    let s = string_of(&id);
    Some(to_lowercase(s.as_str()))
}

/// Whether the header lines of `msg` name the message-ID `target_lower`.
fn message_has_id_exec(msg: &Vec<char>, target_lower: &String, name: &Vec<char>) -> (r: bool)
    requires
        name@ == "Message-ID"@,
    ensures
        r == message_has_id(msg@, target_lower@),
{
    let ls = lines_exec(msg);
    let ghost lv = lines_of(msg@);
    let mut k: usize = 0;
    while k < ls.len()
        invariant
            views(ls@) == lv,
            lv == lines_of(msg@),
            k <= ls.len(),
            name@ == "Message-ID"@,
            forall|j: int| 0 <= j < k ==> (#[trigger] lv[j]).len() > 0,
            forall|j: int| 0 <= j < k ==> !line_names_message(#[trigger] lv[j], target_lower@),
        decreases ls.len() - k,
    {
        assert(lv[k as int] == ls@[k as int]@);
        if ls[k].len() == 0 {
            assert forall|m: int|
                0 <= m < lv.len() && #[trigger] line_names_message(lv[m], target_lower@) implies !(
            forall|j: int| 0 <= j <= m ==> (#[trigger] lv[j]).len() > 0) by {
                if m >= k {
                    assert(lv[k as int].len() == 0);
                }
            }
            return false;
        }
        match line_message_id(&ls[k], name) {
            Some(id) => {
                if id == *target_lower {
                    assert(line_names_message(lv[k as int], target_lower@));
                    return true;
                }
            },
            None => {},
        }
        assert(!line_names_message(lv[k as int], target_lower@));
        k = k + 1;
    }
    false
}

/// Splits a concatenated mbox into individual messages and returns the
/// one whose `Message-ID` header matches `target_id`.
pub fn extract_message_from_mbox(mbox: &str, target_id: &str) -> (r: Result<String, LoreError>)
    ensures
        r matches Ok(m) ==> thread_message(mbox@, target_id@) == Some(m@),
        r matches Err(e) ==> {
            &&& e matches LoreError::NotInThread { message_id, thread_messages }
            &&& message_id@ == target_id@
            &&& thread_messages == mbox_messages(mbox@).len()
        },
        r is Err <==> thread_message(mbox@, target_id@) is None,
{
    let v = chars_of(mbox);
    let messages = split_mbox(&v);
    let ghost ms = views(messages@);
    let target_lower = to_lowercase(target_id);
    let name = chars_of("Message-ID");
    let mut i: usize = 0;
    assert(ms.skip(0) =~= ms);
    while i < messages.len()
        invariant
            ms == views(messages@),
            ms == mbox_messages(mbox@),
            i <= messages.len(),
            name@ == "Message-ID"@,
            target_lower@ == str_lowercase(target_id@),
            find_message(ms, target_lower@) == find_message(ms.skip(i as int), target_lower@),
        decreases messages.len() - i,
    {
        let ghost rest = ms.skip(i as int);
        assert(rest[0] == messages@[i as int]@);
        assert(rest.drop_first() =~= ms.skip(i + 1));
        if message_has_id_exec(&messages[i], &target_lower, &name) {
            return Ok(string_of(&messages[i]));
        }
        i = i + 1;
    }
    assert(ms.skip(i as int).len() == 0);
    Err(LoreError::NotInThread { message_id: string_of(&chars_of(target_id)), thread_messages: messages.len() })
}

/// Maximum compressed download size (10 MiB).
pub const MAX_MBOX_DOWNLOAD: usize = 10 * 1024 * 1024;

/// Maximum decompressed mbox size (50 MiB).
pub const MAX_MBOX_DECOMPRESSED: u64 = 50 * 1024 * 1024;

/// The bytes a message-ID path segment percent-encodes besides non-ASCII
/// ones: the C0 controls, DEL, `/`, `\`, `?`, `#`, space and `%`.
pub open spec fn in_path_segment_set(b: u8) -> bool {
    b <= 0x1f || b == 0x7f || b == 0x2f || b == 0x5c || b == 0x3f || b == 0x23 || b == 0x20
        || b == 0x25
}

/// The upper-case hexadecimal digit `d`.
pub open spec fn hex_digit(d: nat) -> char {
    if d < 10 {
        (d + 48) as char
    } else {
        (d + 55) as char
    }
}

/// One byte percent-encoded: `%XX` for a non-ASCII byte or one of the set,
/// the byte's own character otherwise.
pub open spec fn percent_encode_byte(b: u8) -> Seq<char> {
    if b >= 0x80 || in_path_segment_set(b) {
        seq!['%', hex_digit((b / 16) as nat), hex_digit((b % 16) as nat)]
    } else {
        seq![b as char]
    }
}

/// The bytes `bs` percent-encoded one after the other (what
/// `percent_encoding::utf8_percent_encode` gives for the UTF-8 bytes of a text).
pub open spec fn percent_encode(bs: Seq<u8>) -> Seq<char>
    decreases bs.len(),
{
    if bs.len() == 0 {
        Seq::<char>::empty()
    } else {
        percent_encode(bs.drop_last()) + percent_encode_byte(bs.last())
    }
}

fn hex_digit_exec(d: u8) -> (c: char)
    requires
        d < 16,
    ensures
        c == hex_digit(d as nat),
{
    if d < 10 {
        (d + 48) as char
    } else {
        (d + 55) as char
    }
}

/// The UTF-8 bytes of `s`, percent-encoded for use as one URL path segment.
pub fn percent_encode_segment(s: &str) -> (r: String)
    ensures
        r@ == percent_encode(s.spec_bytes()),
{
    let bytes = s.as_bytes();
    let mut out: Vec<char> = Vec::new();
    let mut i: usize = 0;
    assert(bytes@.take(0) =~= Seq::<u8>::empty());
    while i < bytes.len()
        invariant
            i <= bytes@.len(),
            out@ == percent_encode(bytes@.take(i as int)),
        decreases bytes.len() - i,
    {
        let b = bytes[i];
        assert(bytes@.take(i + 1).drop_last() =~= bytes@.take(i as int));
        if b >= 0x80 || b <= 0x1f || b == 0x7f || b == 0x2f || b == 0x5c || b == 0x3f || b == 0x23
            || b == 0x20 || b == 0x25 {
            out.push('%');
            out.push(hex_digit_exec(b / 16));
            out.push(hex_digit_exec(b % 16));
        } else {
            out.push(b as char);
        }
        assert(out@ =~= percent_encode(bytes@.take(i + 1)));
        i = i + 1;
    }
    assert(bytes@.take(bytes@.len() as int) =~= bytes@);
    string_of(&out)
}

/// A message-ID without its leading `<`s and trailing `>`s.
pub fn clean_message_id(message_id: &str) -> (r: String)
    ensures
        r@ == strip_angle_brackets(message_id@),
{
    let v = chars_of(message_id);
    string_of(&strip_angle_brackets_exec(&v))
}

/// The address of the gzipped thread archive that holds a message.
pub open spec fn lore_thread_url(message_id: Seq<char>) -> Seq<char> {
    "https://lore.kernel.org/all/"@ + percent_encode(encode_utf8(strip_angle_brackets(message_id)))
        + "/t.mbox.gz"@
}

/// The `/t.mbox.gz` address of the thread that holds `message_id` (lore's
/// bot protection lets this endpoint through where it blocks `/raw`); the
/// ID, stripped of angle brackets, is percent-encoded as a path segment.
pub fn lore_thread_mbox_url(message_id: &str) -> (r: String)
    ensures
        r@ == lore_thread_url(message_id@),
{
    let clean = clean_message_id(message_id);
    let enc = percent_encode_segment(clean.as_str());
    let mut v = chars_of("https://lore.kernel.org/all/");
    extend_chars(&mut v, &chars_of(enc.as_str()));
    extend_chars(&mut v, &chars_of("/t.mbox.gz"));
    string_of(&v)
}

/// The verdict on lore's HTTP status: 404 means the message is unknown,
/// any other status outside 200..=299 is an error, a success goes on.
pub fn check_lore_status(status: u16, reason: &str, message_id: &str) -> (r: Result<(), LoreError>)
    ensures
        200 <= status <= 299 <==> r is Ok,
        status == 404 ==> {
            &&& r matches Err(LoreError::MessageNotFound { message_id: id })
            &&& id@ == message_id@
        },
        status != 404 && !(200 <= status <= 299) ==> {
            &&& r matches Err(LoreError::HttpStatus { status: s, reason: why })
            &&& s == status
            &&& why@ == reason@
        },
{
    if status == 404 {
        Err(LoreError::MessageNotFound { message_id: string_of(&chars_of(message_id)) })
    } else if !(200 <= status && status <= 299) {
        Err(LoreError::HttpStatus { status, reason: string_of(&chars_of(reason)) })
    } else {
        Ok(())
    }
}

/// The canonical reason phrase of an HTTP status, when it has one.
pub uninterp spec fn canonical_reason_text(status: u16) -> Option<Seq<char>>;

/// `StatusCode::from_u16(status)` then `canonical_reason()` (of `http`, as
/// `reqwest` re-exports it). The contract claims that the phrase is a function
/// of the status (named `canonical_reason_text`) and, as the source shows,
/// that a status outside 100..=999 is no status code and so has none.
#[verifier::external_body]
fn status_reason(status: u16) -> (r: Option<String>)
    ensures
        r matches Some(t) ==> canonical_reason_text(status) == Some(t@),
        r is None ==> canonical_reason_text(status) is None,
        (status < 100 || status > 999) ==> r is None,
{
    match reqwest::StatusCode::from_u16(status) {
        Ok(code) => match code.canonical_reason() {
            Some(t) => Some(t.to_string()),
            None => None,
        },
        Err(_) => None,
    }
}

/// The phrase an error names a status by: its canonical reason, else
/// `<unknown status code>`.
pub open spec fn status_reason_text(status: u16) -> Seq<char> {
    match canonical_reason_text(status) {
        Some(t) => t,
        None => "<unknown status code>"@,
    }
}

/// The verdict on lore's answer with HTTP status `status`, naming the status
/// by its reason phrase when it is an error.
pub fn check_lore_response(status: u16, message_id: &str) -> (r: Result<(), LoreError>)
    ensures
        200 <= status <= 299 <==> r is Ok,
        status == 404 ==> {
            &&& r matches Err(LoreError::MessageNotFound { message_id: id })
            &&& id@ == message_id@
        },
        status != 404 && !(200 <= status <= 299) ==> {
            &&& r matches Err(LoreError::HttpStatus { status: s, reason: why })
            &&& s == status
            &&& why@ == status_reason_text(status)
        },
{
    let reason = match status_reason(status) {
        Some(t) => t,
        None => string_of(&chars_of("<unknown status code>")),
    };
    check_lore_status(status, reason.as_str(), message_id)
}

/// The compressed archive may be at most `MAX_MBOX_DOWNLOAD` bytes.
pub fn check_archive_size(size: usize) -> (r: Result<(), LoreError>)
    ensures
        r is Ok <==> size <= MAX_MBOX_DOWNLOAD,
        r matches Err(e) ==> {
            &&& e matches LoreError::CompressedTooLarge { size: s, max_size }
            &&& s == size
            &&& max_size == MAX_MBOX_DOWNLOAD
        },
{
    if size > MAX_MBOX_DOWNLOAD {
        Err(LoreError::CompressedTooLarge { size, max_size: MAX_MBOX_DOWNLOAD })
    } else {
        Ok(())
    }
}

/// What a `flate2::read::GzDecoder` over `data`, read through
/// `Read::take(limit)` to the end, yields: the first (at most `limit`)
/// decoded bytes, or nothing when the read fails.
pub uninterp spec fn gzip_decoded_prefix(data: Seq<u8>, limit: nat) -> Option<Seq<u8>>;

/// What a `flate2::read::GzDecoder` over `data`, read to the end with no
/// limit, yields: all the decoded bytes, or nothing when the read fails.
pub uninterp spec fn gzip_decoded(data: Seq<u8>) -> Option<Seq<u8>>;

/// `flate2::read::GzDecoder::new(data).take(limit).read_to_end(..)`. The
/// contract claims that whether the read succeeds, and the bytes it gives, are
/// a function of `data` and `limit` (named `gzip_decoded_prefix`) and, as
/// `Read::take` documents, that no more than `limit` bytes come out. When the
/// whole stream decodes (to the bytes named `gzip_decoded`), the limited read
/// succeeds too and gives the first `limit` of them: the decoder over a byte
/// slice fails only on bad input, and `take` only stops the read early. What
/// the bytes are is not stated, nor the text of the read error.
#[verifier::external_body]
fn gunzip_prefix(data: &[u8], limit: u64) -> (r: Result<Vec<u8>, String>)
    ensures
        r matches Ok(v) ==> gzip_decoded_prefix(data@, limit as nat) == Some(v@) && v@.len()
            <= limit,
        r is Err ==> gzip_decoded_prefix(data@, limit as nat) is None,
        gzip_decoded(data@) is Some ==> r is Ok,
        r matches Ok(v) ==> (gzip_decoded(data@) matches Some(full) ==> v@ == full.take(
            if full.len() < limit { full.len() as int } else { limit as int })),
{
    let mut out = Vec::new();
    match flate2::read::GzDecoder::new(data).take(limit).read_to_end(&mut out) {
        Ok(_) => Ok(out),
        Err(e) => Err(e.to_string()),
    }
}

/// `String::from_utf8`: it succeeds exactly on valid UTF-8, and the text is
/// the decoded characters. The text of the error is not stated.
#[verifier::external_body]
fn string_from_utf8(bytes: Vec<u8>) -> (r: Result<String, String>)
    ensures
        r is Ok <==> valid_utf8(bytes@),
        r matches Ok(s) ==> s@ == decode_utf8(bytes@),
{
    match String::from_utf8(bytes) {
        Ok(s) => Ok(s),
        Err(e) => Err(e.to_string()),
    }
}

/// The first `MAX_MBOX_DECOMPRESSED` decoded bytes `raw` of the archive are
/// not all of it: decoding one byte more gives more.
pub open spec fn archive_overflows(compressed: Seq<u8>, raw: Seq<u8>) -> bool {
    &&& raw.len() == MAX_MBOX_DECOMPRESSED
    &&& gzip_decoded_prefix(compressed, (MAX_MBOX_DECOMPRESSED + 1) as nat) matches Some(more)
    &&& more.len() > MAX_MBOX_DECOMPRESSED
}

/// What taking the message `message_id` out of the decoded thread `raw`
/// gives: the UTF-8 error, the message, or the not-found error.
pub open spec fn thread_outcome(r: Result<String, LoreError>, raw: Seq<u8>, message_id: Seq<char>) -> bool {
    if !valid_utf8(raw) {
        r matches Err(LoreError::InvalidUtf8 { .. })
    } else {
        match thread_message(decode_utf8(raw), message_id) {
            Some(m) => {
                &&& r matches Ok(text)
                &&& text@ == m
            },
            None => {
                &&& r matches Err(LoreError::NotInThread { message_id: id, thread_messages: n })
                &&& id@ == message_id
                &&& n == mbox_messages(decode_utf8(raw)).len()
            },
        }
    }
}

/// Decompresses a downloaded thread archive (gzip, with the size limits) and
/// returns the message of the thread whose `Message-ID` is `message_id`.
pub fn message_from_thread_archive(compressed: &[u8], message_id: &str) -> (r: Result<
    String,
    LoreError,
>)
    ensures
        compressed@.len() > MAX_MBOX_DOWNLOAD ==> {
            &&& r matches Err(LoreError::CompressedTooLarge { size, max_size })
            &&& size == compressed@.len()
            &&& max_size == MAX_MBOX_DOWNLOAD
        },
        compressed@.len() <= MAX_MBOX_DOWNLOAD ==> match gzip_decoded_prefix(
            compressed@,
            MAX_MBOX_DECOMPRESSED as nat,
        ) {
            None => r matches Err(LoreError::Decompression { .. }),
            Some(raw) => if archive_overflows(compressed@, raw) {
                &&& r matches Err(LoreError::DecompressedTooLarge { max_bytes })
                &&& max_bytes == MAX_MBOX_DECOMPRESSED
            } else {
                thread_outcome(r, raw, message_id@)
            },
        },
        compressed@.len() <= MAX_MBOX_DOWNLOAD ==> match gzip_decoded(compressed@) {
            Some(whole) => whole.len() <= MAX_MBOX_DECOMPRESSED ==> thread_outcome(
                r,
                whole,
                message_id@,
            ),
            None => true,
        },
{
    check_archive_size(compressed.len())?;
    let raw = match gunzip_prefix(compressed, MAX_MBOX_DECOMPRESSED) {
        Ok(raw) => raw,
        Err(detail) => {
            return Err(LoreError::Decompression { detail });
        },
    };
    proof {
        if let Some(whole) = gzip_decoded(compressed@) {
            if whole.len() <= MAX_MBOX_DECOMPRESSED {
                assert(whole.take(whole.len() as int) =~= whole);
            }
        }
    }
    if raw.len() as u64 == MAX_MBOX_DECOMPRESSED {
        match gunzip_prefix(compressed, MAX_MBOX_DECOMPRESSED + 1) {
            Ok(more) => {
                if more.len() as u64 > MAX_MBOX_DECOMPRESSED {
                    return Err(LoreError::DecompressedTooLarge { max_bytes: MAX_MBOX_DECOMPRESSED });
                }
            },
            Err(_) => {},
        }
    }
    let ghost raw_bytes = raw@;
    let text = match string_from_utf8(raw) {
        Ok(t) => t,
        Err(detail) => {
            return Err(LoreError::InvalidUtf8 { detail });
        },
    };
    assert(text@ == decode_utf8(raw_bytes));
    extract_message_from_mbox(text.as_str(), message_id)
}

/// The text that describes a `LoreError`.
pub open spec fn lore_error_text(e: LoreError) -> Seq<char> {
    match e {
        LoreError::MessageNotFound { message_id } => "message not found on lore.kernel.org: "@
            + message_id@,
        LoreError::HttpStatus { status, reason } => "lore.kernel.org returned HTTP "@ + decimal(
            status as nat,
        ) + " "@ + reason@,
        LoreError::CompressedTooLarge { size, max_size } => "compressed mbox too large ("@ + decimal(
            size as nat,
        ) + " bytes, limit "@ + decimal(max_size as nat) + " bytes)"@,
        LoreError::Decompression { detail } => detail@,
        LoreError::DecompressedTooLarge { max_bytes } => "decompressed mbox exceeds "@ + decimal(
            max_bytes as nat,
        ) + " byte limit"@,
        LoreError::InvalidUtf8 { detail } => "invalid UTF-8 in mbox: "@ + detail@,
        LoreError::NotInThread { message_id, thread_messages } => "message "@ + message_id@
            + " not found in thread mbox ("@ + decimal(thread_messages as nat)
            + " messages in thread)"@,
        LoreError::NoPatchContent { message_id } => "no patch content found in message "@
            + message_id@ + ". The message may be a reply or cover letter without a diff."@,
    }
}

impl LoreError {
    /// The text that describes the error.
    pub fn message(&self) -> (r: String)
        ensures
            r@ == lore_error_text(*self),
    {
        let mut v: Vec<char> = Vec::new();
        match self {
            LoreError::MessageNotFound { message_id } => {
                push_str(&mut v, "message not found on lore.kernel.org: ");
                push_str(&mut v, message_id.as_str());
            },
            LoreError::HttpStatus { status, reason } => {
                push_str(&mut v, "lore.kernel.org returned HTTP ");
                push_decimal(&mut v, *status as u64);
                push_str(&mut v, " ");
                push_str(&mut v, reason.as_str());
            },
            LoreError::CompressedTooLarge { size, max_size } => {
                push_str(&mut v, "compressed mbox too large (");
                push_decimal(&mut v, *size as u64);
                push_str(&mut v, " bytes, limit ");
                push_decimal(&mut v, *max_size as u64);
                push_str(&mut v, " bytes)");
            },
            LoreError::Decompression { detail } => {
                push_str(&mut v, detail.as_str());
            },
            LoreError::DecompressedTooLarge { max_bytes } => {
                push_str(&mut v, "decompressed mbox exceeds ");
                push_decimal(&mut v, *max_bytes);
                push_str(&mut v, " byte limit");
            },
            LoreError::InvalidUtf8 { detail } => {
                push_str(&mut v, "invalid UTF-8 in mbox: ");
                push_str(&mut v, detail.as_str());
            },
            LoreError::NotInThread { message_id, thread_messages } => {
                push_str(&mut v, "message ");
                push_str(&mut v, message_id.as_str());
                push_str(&mut v, " not found in thread mbox (");
                push_decimal(&mut v, *thread_messages as u64);
                push_str(&mut v, " messages in thread)");
            },
            LoreError::NoPatchContent { message_id } => {
                push_str(&mut v, "no patch content found in message ");
                push_str(&mut v, message_id.as_str());
                push_str(&mut v, ". The message may be a reply or cover letter without a diff.");
            },
        }
        string_of(&v)
    }
}

/// `p` is the review patch made of the e-mail `raw` whose diff is `diff`:
/// all its fields come from the e-mail, and it names no commit.
pub open spec fn is_patch_of_email(p: PatchInput, raw: Seq<char>, diff: Seq<char>) -> bool {
    &&& p.index == patch_index(email_subject(raw)) as i64
    &&& p.diff@ == diff
    &&& p.subject matches Some(s) && s@ == email_subject(raw)
    &&& p.author matches Some(a) && a@ == email_author(raw)
    &&& p.date matches Some(d) && d@ == email_date(raw)
    &&& p.message_id matches Some(m) && m@ == email_message_id(raw)
    &&& p.commit_id is None
}

/// Parses a raw mbox email into a [`ReviewInput`] suitable for the
/// local review pipeline.
///
/// The returned [`PatchInput`] entries have `commit_id: None` because
/// mbox-sourced patches do not originate from a local git history.
/// The caller must use `current_tree: false` when passing the result
/// to the review worker so that patches are applied via `git am`.
pub fn build_review_input_from_mbox(raw_mbox: &str) -> (r: Result<ReviewInput, LoreError>)
    ensures
        match email_diff(raw_mbox@) {
            None => {
                &&& r matches Err(LoreError::NoPatchContent { message_id })
                &&& message_id@ == email_message_id(raw_mbox@)
            },
            Some(diff) => {
                &&& r matches Ok(ri)
                &&& ri.id == 0
                &&& ri.subject@ == email_subject(raw_mbox@)
                &&& ri.patches@.len() == 1
                &&& is_patch_of_email(ri.patches@[0], raw_mbox@, diff)
            },
        },
{
    let (metadata, patch) = parse_email(raw_mbox);
    let patch = match patch {
        Some(p) => p,
        None => {
            return Err(LoreError::NoPatchContent { message_id: metadata.message_id });
        },
    };
    let subject = metadata.subject.clone();
    let patch_input = PatchInput {
        index: metadata.index as i64,
        diff: patch.diff,
        subject: Some(metadata.subject),
        author: Some(metadata.author),
        date: Some(metadata.date),
        message_id: Some(metadata.message_id),
        commit_id: None,
    };
    let mut patches: Vec<PatchInput> = Vec::new();
    patches.push(patch_input);
    Ok(ReviewInput { id: 0, subject, patches })
}

/// A text that names lore by its URL is never taken for a message-ID (a
/// URL holds `/`).
pub proof fn law_lore_url_is_not_message_id(s: Seq<char>)
    requires
        spec_is_lore_url(s),
    ensures
        !spec_is_message_id(s),
{
    reveal_strlit("https://lore.kernel.org");
    reveal_strlit("http://lore.kernel.org");
    if has_prefix(s, lore_https()) {
        assert(s.take(23)[6] == '/');
        assert(s[6] == '/');
    } else {
        assert(s.take(22)[5] == '/');
        assert(s[5] == '/');
    }
}

proof fn lemma_last_segment_origin(segs: Seq<Seq<char>>)
    ensures
        last_message_id_segment(segs) matches Some(x) ==> has_char(x, '@') && exists|k: int|
            0 <= k < segs.len() && x == strip_angle_brackets(#[trigger] segs[k]),
    decreases segs.len(),
{
    if segs.len() > 0 {
        lemma_last_segment_origin(segs.drop_last());
        let seg = segs.last();
        if !is_view_suffix(seg) && has_char(strip_angle_brackets(seg), '@') {
            assert(segs[segs.len() - 1] == seg);
        } else if let Some(x) = last_message_id_segment(segs.drop_last()) {
            let k = choose|k: int|
                0 <= k < segs.drop_last().len() && x == strip_angle_brackets(
                    #[trigger] segs.drop_last()[k],
                );
            assert(segs[k] == segs.drop_last()[k]);
        }
    }
}

/// Only lore URLs yield a message-ID, and what they yield is a piece of the
/// URL that holds an `@` and no `/`, and neither starts with `<` nor ends
/// with `>`.
pub proof fn law_extracted_id_shape(url: Seq<char>)
    ensures
        lore_url_message_id(url) matches Some(id) ==> {
            &&& spec_is_lore_url(url)
            &&& has_infix(url, id)
            &&& has_char(id, '@')
            &&& !has_char(id, '/')
            &&& !(id.len() > 0 && id[0] == '<')
            &&& !(id.len() > 0 && id.last() == '>')
        },
{
    if let Some(path) = lore_path(url) {
        let slash = CharClass::Is('/');
        let lt = CharClass::Is('<');
        let gt = CharClass::Is('>');
        let pieces = split_by(path, slash);
        let segs = nonempty_pieces(pieces);
        lemma_last_segment_origin(segs);
        lemma_nonempty_members(pieces);
        lemma_split_by_pieces(path, slash);
        lemma_split_by_infix(path, slash);
        if let Some(id) = last_message_id_segment(segs) {
            let k = choose|k: int| 0 <= k < segs.len() && id == strip_angle_brackets(#[trigger] segs[k]);
            let seg = segs[k];
            assert(pieces.contains(seg));
            let m = choose|m: int| 0 <= m < pieces.len() && pieces[m] == seg;
            assert(!has_char(seg, '/')) by {
                if has_char(seg, '/') {
                    let i = choose|i: int| 0 <= i < seg.len() && seg[i] == '/';
                    assert(!in_class(slash, pieces[m][i]));
                }
            }
            lemma_trim_start_chars(seg, lt, '/');
            lemma_trim_end_chars(trim_start(seg, lt), gt, '/');
            let ts = trim_start(seg, lt);
            lemma_trim_start_infix(seg, lt);
            lemma_trim_end_prefix(ts, gt);
            lemma_prefix_infix(ts, id);
            if starts_with_host(url, lore_https()) {
                lemma_skip_infix(url, lore_https().len() as int);
            } else {
                lemma_skip_infix(url, lore_http().len() as int);
            }
            assert(has_infix(path, seg));
            lemma_infix_trans(url, path, seg);
            lemma_infix_trans(url, seg, ts);
            lemma_infix_trans(url, ts, id);
            if id.len() > 0 {
                assert(id[0] == ts.take(id.len() as int)[0]);
                assert(!in_class(lt, ts[0]));
                assert(!in_class(gt, id.last()));
            }
        }
    }
}

/// A message-ID written into a lore URL, `https://lore.kernel.org/<list>/<id>`
/// followed by nothing, `/`, `/raw` or `/t.mbox.gz`, is read back from it.
pub proof fn law_lore_url_roundtrip(list: Seq<char>, id: Seq<char>, tail: Seq<char>)
    requires
        !has_char(list, '/'),
        !has_char(id, '/'),
        has_char(id, '@'),
        strip_angle_brackets(id) == id,
        tail == ""@ || tail == "/"@ || tail == "/raw"@ || tail == "/t.mbox.gz"@,
    ensures
        lore_url_message_id(lore_https() + "/"@ + list + "/"@ + id + tail) == Some(id),
{
    reveal_strlit("https://lore.kernel.org");
    reveal_strlit("/");
    reveal_strlit("");
    reveal_strlit("/raw");
    reveal_strlit("raw");
    reveal_strlit("/t.mbox.gz");
    reveal_strlit("t.mbox.gz");
    let slash = CharClass::Is('/');
    let url = lore_https() + "/"@ + list + "/"@ + id + tail;
    let path = "/"@ + list + "/"@ + id + tail;
    assert(url =~= lore_https() + path);
    assert(url.take(lore_https().len() as int) =~= lore_https());
    assert(url.skip(lore_https().len() as int) =~= path);
    assert(lore_path(url) == Some(path));
    let e = Seq::<char>::empty();
    assert forall|i: int| 0 <= i < list.len() implies !in_class(slash, #[trigger] list[i]) by {
        if list[i] == '/' {
            assert(has_char(list, '/'));
        }
    }
    assert forall|i: int| 0 <= i < id.len() implies !in_class(slash, #[trigger] id[i]) by {
        if id[i] == '/' {
            assert(has_char(id, '/'));
        }
    }
    lemma_split_by_plain(list, slash);
    lemma_split_by_plain(id, slash);
    lemma_split_by_plain(e, slash);
    assert(path =~= e + seq!['/'] + (list + seq!['/'] + (id + tail)));
    lemma_split_by_sep(e, '/', list + seq!['/'] + (id + tail), slash);
    lemma_split_by_sep(list, '/', id + tail, slash);
    let tail_pieces: Seq<Seq<char>> = if tail == ""@ {
        assert(id + tail =~= id);
        seq![id]
    } else {
        let rest = tail.drop_first();
        assert(id + tail =~= id + seq!['/'] + rest);
        lemma_split_by_sep(id, '/', rest, slash);
        assert forall|i: int| 0 <= i < rest.len() implies !in_class(slash, #[trigger] rest[i]) by {
        }
        lemma_split_by_plain(rest, slash);
        seq![id, rest]
    };
    assert(split_by(id + tail, slash) == tail_pieces);
    let pieces = seq![e] + seq![list] + tail_pieces;
    assert(split_by(path, slash) =~= pieces);
    assert(id.len() > 0);
    lemma_nonempty_concat(seq![e] + seq![list], tail_pieces);
    let front = nonempty_pieces(seq![e] + seq![list]);
    let one = seq![id];
    let none = Seq::<Seq<char>>::empty();
    assert(one.last() == id);
    assert(one.drop_last() =~= none);
    assert(nonempty_pieces(none) =~= none);
    assert(nonempty_pieces(one) =~= one);
    assert(!is_view_suffix(id)) by {
        if id == "raw"@ || id == "t.mbox.gz"@ {
            let i = choose|i: int| 0 <= i < id.len() && id[i] == '@';
        }
    }
    if tail == ""@ {
        assert((front + seq![id]).drop_last() =~= front);
        assert(last_message_id_segment(front + seq![id]) == Some(id));
    } else {
        let rest = tail.drop_first();
        assert(seq![id, rest].drop_last() =~= seq![id]);
        assert(seq![id].drop_last() =~= Seq::<Seq<char>>::empty());
        if tail == "/"@ {
            assert(rest =~= e);
            assert(seq![id, rest].last() == rest);
            assert(nonempty_pieces(seq![id, rest]) =~= seq![id]);
            assert(last_message_id_segment(front + seq![id]) == Some(id));
        } else {
            assert(rest == "raw"@ || rest == "t.mbox.gz"@);
            assert(seq![id, rest].last() == rest);
            assert(rest.len() > 0);
            assert(nonempty_pieces(seq![id, rest]) =~= seq![id, rest]);
            assert((front + seq![id, rest]).drop_last() =~= front + seq![id]);
            assert((front + seq![id]).drop_last() =~= front);
            assert(last_message_id_segment(front + seq![id, rest]) == Some(id));
        }
    }
}

/// The pieces `ps` written one after the other.
pub open spec fn concat_all(ps: Seq<Seq<char>>) -> Seq<char>
    decreases ps.len(),
{
    if ps.len() == 0 {
        Seq::<char>::empty()
    } else {
        concat_all(ps.drop_last()) + ps.last()
    }
}

proof fn lemma_mbox_pieces_concat(s: Seq<char>, n: nat)
    requires
        n <= s.len(),
    ensures
        concat_all(mbox_pieces(s, n)) == s.take(n as int),
    decreases n,
{
    if n == 0 {
        let one = seq![Seq::<char>::empty()];
        assert(one.drop_last() =~= Seq::<Seq<char>>::empty());
        assert(one.last() == Seq::<char>::empty());
        assert(concat_all(Seq::<Seq<char>>::empty()) == Seq::<char>::empty());
        assert(concat_all(one) =~= Seq::<char>::empty());
        assert(s.take(0) =~= Seq::<char>::empty());
    } else {
        let m = (n - 1) as nat;
        lemma_mbox_pieces_concat(s, m);
        lemma_mbox_pieces_nonempty(s, m);
        let r = mbox_pieces(s, m);
        let c = s[n - 1];
        assert(s.take(n as int) =~= s.take(m as int).push(c));
        if starts_message(s, n - 1) {
            assert(r.push(seq![c]).drop_last() =~= r);
            assert(concat_all(mbox_pieces(s, n)) =~= s.take(n as int));
        } else {
            let r2 = r.update(r.len() - 1, r.last().push(c));
            assert(r2.drop_last() =~= r.drop_last());
            assert(concat_all(r2) =~= concat_all(r).push(c));
        }
    }
}

/// Cutting an mbox into messages loses and adds nothing: the messages,
/// written one after the other, are the mbox.
pub proof fn law_mbox_messages_cover_mbox(s: Seq<char>)
    ensures
        concat_all(mbox_messages(s)) == s,
{
    if s.len() == 0 {
        assert(s =~= Seq::<char>::empty());
    } else {
        lemma_mbox_pieces_concat(s, s.len());
        assert(s.take(s.len() as int) =~= s);
    }
}

proof fn lemma_find_message(ms: Seq<Seq<char>>, t: Seq<char>)
    ensures
        find_message(ms, t) matches Some(m) ==> exists|j: int|
            0 <= j < ms.len() && ms[j] == m && message_has_id(m, t) && forall|i: int|
                0 <= i < j ==> !message_has_id(#[trigger] ms[i], t),
        find_message(ms, t) is None ==> forall|i: int|
            0 <= i < ms.len() ==> !message_has_id(#[trigger] ms[i], t),
    decreases ms.len(),
{
    if ms.len() > 0 {
        let rest = ms.drop_first();
        lemma_find_message(rest, t);
        if !message_has_id(ms[0], t) {
            if let Some(m) = find_message(rest, t) {
                let j = choose|j: int|
                    0 <= j < rest.len() && rest[j] == m && message_has_id(m, t) && forall|i: int|
                        0 <= i < j ==> !message_has_id(#[trigger] rest[i], t);
                assert(ms[j + 1] == m);
                assert forall|i: int| 0 <= i < j + 1 implies !message_has_id(#[trigger] ms[i], t) by {
                    if i > 0 {
                        assert(ms[i] == rest[i - 1]);
                    }
                }
            } else {
                assert forall|i: int| 0 <= i < ms.len() implies !message_has_id(#[trigger] ms[i], t) by {
                    if i > 0 {
                        assert(ms[i] == rest[i - 1]);
                    }
                }
            }
        }
    }
}

/// The message taken from a thread is the first message of the thread whose
/// header names the wanted ID (compared lowercased); no message is taken
/// only when none names it.
pub proof fn law_thread_message_is_first_match(mbox: Seq<char>, target_id: Seq<char>)
    ensures
        thread_message(mbox, target_id) matches Some(m) ==> exists|j: int|
            0 <= j < mbox_messages(mbox).len() && mbox_messages(mbox)[j] == m && message_has_id(
                m,
                str_lowercase(target_id),
            ) && forall|i: int|
                0 <= i < j ==> !message_has_id(
                    #[trigger] mbox_messages(mbox)[i],
                    str_lowercase(target_id),
                ),
        thread_message(mbox, target_id) is None ==> forall|i: int|
            0 <= i < mbox_messages(mbox).len() ==> !message_has_id(
                #[trigger] mbox_messages(mbox)[i],
                str_lowercase(target_id),
            ),
{
    lemma_find_message(mbox_messages(mbox), str_lowercase(target_id));
}

/// IDs that differ only where lowercasing makes them equal find the same
/// message.
pub proof fn law_thread_message_ignores_case(mbox: Seq<char>, a: Seq<char>, b: Seq<char>)
    requires
        str_lowercase(a) == str_lowercase(b),
    ensures
        thread_message(mbox, a) == thread_message(mbox, b),
{
}

/// A percent-encoded message-ID stays one path segment of the archive
/// address: it holds no `/`, `?`, `#` or space.
pub proof fn law_percent_encoding_keeps_one_segment(bs: Seq<u8>)
    ensures
        forall|i: int|
            0 <= i < percent_encode(bs).len() ==> {
                let c = #[trigger] percent_encode(bs)[i];
                c != '/' && c != '?' && c != '#' && c != ' '
            },
    decreases bs.len(),
{
    if bs.len() > 0 {
        law_percent_encoding_keeps_one_segment(bs.drop_last());
        let b = bs.last();
        let pre = percent_encode(bs.drop_last());
        let e = percent_encode_byte(b);
        assert(percent_encode(bs) == pre + e);
        assert forall|i: int| 0 <= i < e.len() implies {
            let c = #[trigger] e[i];
            c != '/' && c != '?' && c != '#' && c != ' '
        } by {
            if b >= 0x80 || in_path_segment_set(b) {
                assert(b / 16 < 16 && b % 16 < 16);
            }
        }
        assert forall|i: int| 0 <= i < percent_encode(bs).len() implies {
            let c = #[trigger] percent_encode(bs)[i];
            c != '/' && c != '?' && c != '#' && c != ' '
        } by {
            if i < pre.len() {
                assert(percent_encode(bs)[i] == pre[i]);
            } else {
                assert(percent_encode(bs)[i] == e[i - pre.len()]);
            }
        }
    }
}

/// A message-ID addresses the same thread archive with or without its
/// angle brackets.
pub proof fn law_thread_url_ignores_angle_brackets(id: Seq<char>)
    ensures
        lore_thread_url(seq!['<'] + id + seq!['>']) == lore_thread_url(id),
{
    let wrapped = seq!['<'] + id + seq!['>'];
    let lt = CharClass::Is('<');
    let gt = CharClass::Is('>');
    assert(wrapped =~= seq!['<'] + id.push('>'));
    lemma_trim_start_prepend('<', id.push('>'), lt);
    lemma_trim_start_append(id, '>', lt);
    lemma_trim_end_append(trim_start(id, lt), '>', gt);
}

proof fn lemma_host_after_scheme(
    scheme: Seq<char>,
    host: Seq<char>,
    rest: Seq<char>,
    prefix: Seq<char>,
    name: Seq<char>,
)
    requires
        !has_char(scheme, ':'),
        forall|i: int| 0 <= i < host.len() ==> !ends_host(#[trigger] host[i]),
        rest.len() == 0 || ends_host(rest[0]),
        name == "https"@ || name == "http"@,
        prefix == name + "://"@ + "lore.kernel.org"@,
        starts_with_host(scheme + "://"@ + host + rest, prefix),
    ensures
        scheme == name,
        host == "lore.kernel.org"@,
{
    reveal_strlit("https");
    reveal_strlit("http");
    reveal_strlit("://");
    reveal_strlit("lore.kernel.org");
    let sep = "://"@;
    let lore = "lore.kernel.org"@;
    let u = scheme + sep + host + rest;
    let n = scheme.len() as int;
    let k = name.len() as int;
    let h = host.len() as int;
    assert(prefix.len() == k + 3 + 15);
    assert(forall|i: int| 0 <= i < prefix.len() ==> u[i] == #[trigger] prefix[i]) by {
        assert forall|i: int| 0 <= i < prefix.len() implies u[i] == #[trigger] prefix[i] by {
            assert(u.take(prefix.len() as int)[i] == u[i]);
        }
    }
    assert(prefix[k] == ':');
    if n > k {
        assert(u[k] == scheme[k]);
        assert(has_char(scheme, ':'));
    }
    if n < k {
        assert(u[n] == ':');
        assert(prefix[n] == name[n]);
    }
    assert(n == k);
    assert forall|i: int| 0 <= i < k implies scheme[i] == name[i] by {
        assert(u[i] == scheme[i]);
        assert(prefix[i] == name[i]);
    }
    assert(scheme =~= name);
    assert(forall|j: int| 0 <= j < 15 ==> !ends_host(#[trigger] lore[j]));
    if h < 15 {
        assert(u.len() == k + 3 + h + rest.len());
        assert(rest.len() > 0);
        assert(u[k + 3 + h] == rest[0]);
        assert(prefix[k + 3 + h] == lore[h]);
    }
    if h > 15 {
        assert(u[k + 3 + 15] == host[15]);
        assert(!ends_host(host[15]));
    }
    assert forall|j: int| 0 <= j < 15 implies host[j] == lore[j] by {
        assert(u[k + 3 + j] == host[j]);
        assert(prefix[k + 3 + j] == lore[j]);
    }
    assert(host =~= lore);
}

/// Only the host `lore.kernel.org` itself makes a lore URL: for a URL
/// `scheme://host` followed by nothing or by a path, port, query or fragment,
/// the input is a lore URL exactly when the scheme is `https` or `http` and
/// the host is `lore.kernel.org`; a longer host such as
/// `lore.kernel.org.example.com` is not lore.
pub proof fn law_lore_url_needs_exact_host(scheme: Seq<char>, host: Seq<char>, rest: Seq<char>)
    requires
        !has_char(scheme, ':'),
        forall|i: int| 0 <= i < host.len() ==> !ends_host(#[trigger] host[i]),
        rest.len() == 0 || ends_host(rest[0]),
    ensures
        spec_is_lore_url(scheme + "://"@ + host + rest) <==> ((scheme == "https"@ || scheme
            == "http"@) && host == "lore.kernel.org"@),
{
    reveal_strlit("https://lore.kernel.org");
    reveal_strlit("http://lore.kernel.org");
    reveal_strlit("https");
    reveal_strlit("http");
    reveal_strlit("://");
    reveal_strlit("lore.kernel.org");
    let u = scheme + "://"@ + host + rest;
    assert(lore_https() =~= "https"@ + "://"@ + "lore.kernel.org"@);
    assert(lore_http() =~= "http"@ + "://"@ + "lore.kernel.org"@);
    if starts_with_host(u, lore_https()) {
        lemma_host_after_scheme(scheme, host, rest, lore_https(), "https"@);
    }
    if starts_with_host(u, lore_http()) {
        lemma_host_after_scheme(scheme, host, rest, lore_http(), "http"@);
    }
    if (scheme == "https"@ || scheme == "http"@) && host == "lore.kernel.org"@ {
        let p = scheme + "://"@ + host;
        assert(u =~= p + rest);
        assert(u.take(p.len() as int) =~= p);
        if rest.len() > 0 {
            assert(u[p.len() as int] == rest[0]);
        }
        if scheme == "https"@ {
            assert(p =~= lore_https());
        } else {
            assert(p =~= lore_http());
        }
    }
}

proof fn lemma_host_with_suffix(url: Seq<char>, sfx: Seq<char>, p: Seq<char>)
    requires
        p == lore_https() || p == lore_http(),
        sfx.len() > 0,
        sfx[0] != '/',
        sfx[0] != 'l',
    ensures
        starts_with_host(url + seq!['/'] + sfx, p) == starts_with_host(url, p),
{
    reveal_strlit("https://lore.kernel.org");
    reveal_strlit("http://lore.kernel.org");
    let u = url + seq!['/'] + sfx;
    let n = p.len() as int;
    let m = url.len() as int;
    assert(forall|i: int| 0 <= i < n - 1 && #[trigger] p[i] == '/' ==> p[i + 1] == '/' || p[i + 1] == 'l');
    if m >= n {
        assert(u.take(n) =~= url.take(n));
        if m > n {
            assert(u[n] == url[n]);
        }
        if m == n {
            assert(u[n] == '/');
        }
    } else if has_prefix(u, p) {
        assert(u[m] == u.take(n)[m]);
        assert(u[m + 1] == u.take(n)[m + 1]);
        assert(u[m] == '/');
        assert(u[m + 1] == sfx[0]);
    }
}

/// A trailing `/raw` or `/t.mbox.gz` never changes what is read from a URL:
/// the same message-ID, or none either way.
pub proof fn law_view_suffix_keeps_message_id(url: Seq<char>, suffix: Seq<char>)
    requires
        is_view_suffix(suffix),
    ensures
        lore_url_message_id(url + "/"@ + suffix) == lore_url_message_id(url),
{
    reveal_strlit("/");
    reveal_strlit("raw");
    reveal_strlit("t.mbox.gz");
    let slash = CharClass::Is('/');
    let u = url + "/"@ + suffix;
    assert(u =~= url + seq!['/'] + suffix);
    assert(suffix[0] == 'r' || suffix[0] == 't');
    lemma_host_with_suffix(url, suffix, lore_https());
    lemma_host_with_suffix(url, suffix, lore_http());
    if let Some(path) = lore_path(url) {
        let n = if starts_with_host(url, lore_https()) {
            lore_https().len() as int
        } else {
            lore_http().len() as int
        };
        assert(path == url.skip(n));
        assert(lore_path(u) == Some(u.skip(n)));
        assert(u.skip(n) =~= path + seq!['/'] + suffix);
        lemma_split_by_sep(path, '/', suffix, slash);
        assert forall|i: int| 0 <= i < suffix.len() implies !in_class(slash, #[trigger] suffix[i]) by {
        }
        lemma_split_by_plain(suffix, slash);
        let segs = nonempty_pieces(split_by(path, slash));
        lemma_nonempty_concat(split_by(path, slash), seq![suffix]);
        assert(seq![suffix].drop_last() =~= Seq::<Seq<char>>::empty());
        assert(nonempty_pieces(Seq::<Seq<char>>::empty()) =~= Seq::<Seq<char>>::empty());
        assert(seq![suffix].last() == suffix);
        assert(suffix.len() > 0);
        assert(nonempty_pieces(seq![suffix]) =~= seq![suffix]);
        assert((segs + seq![suffix]).drop_last() =~= segs);
        assert((segs + seq![suffix]).last() == suffix);
    }
}

/// The header block of a message is all its lines before the first empty
/// one, folded continuation lines included: a `Message-ID` header naming the
/// wanted ID on any of those lines makes the message carry it, and the thread
/// then yields a message.
pub proof fn law_header_block_reaches_first_blank_line(
    mbox: Seq<char>,
    target_id: Seq<char>,
    i: int,
    k: int,
)
    requires
        0 <= i < mbox_messages(mbox).len(),
        0 <= k < lines_of(mbox_messages(mbox)[i]).len(),
        line_names_message(lines_of(mbox_messages(mbox)[i])[k], str_lowercase(target_id)),
        forall|j: int| 0 <= j <= k ==> (#[trigger] lines_of(mbox_messages(mbox)[i])[j]).len() > 0,
    ensures
        message_has_id(mbox_messages(mbox)[i], str_lowercase(target_id)),
        thread_message(mbox, target_id) is Some,
{
    let ms = mbox_messages(mbox);
    let t = str_lowercase(target_id);
    let ls = lines_of(ms[i]);
    assert(line_names_message(ls[k], t));
    assert(message_has_id(ms[i], t));
    lemma_find_message(ms, t);
}

proof fn lemma_last_segment_is_last_with_id(segs: Seq<Seq<char>>)
    ensures
        last_message_id_segment(segs) matches Some(x) ==> exists|k: int|
            0 <= k < segs.len() && !is_view_suffix(#[trigger] segs[k]) && has_char(
                strip_angle_brackets(segs[k]),
                '@',
            ) && x == strip_angle_brackets(segs[k]) && forall|j: int|
                k < j < segs.len() ==> is_view_suffix(#[trigger] segs[j]) || !has_char(
                    strip_angle_brackets(segs[j]),
                    '@',
                ),
        last_message_id_segment(segs) is None ==> forall|k: int|
            0 <= k < segs.len() ==> is_view_suffix(#[trigger] segs[k]) || !has_char(
                strip_angle_brackets(segs[k]),
                '@',
            ),
    decreases segs.len(),
{
    if segs.len() > 0 {
        let d = segs.drop_last();
        lemma_last_segment_is_last_with_id(d);
        let n = segs.len() - 1;
        let seg = segs.last();
        assert(segs[n] == seg);
        if !is_view_suffix(seg) && has_char(strip_angle_brackets(seg), '@') {
        } else if let Some(x) = last_message_id_segment(d) {
            let k = choose|k: int|
                0 <= k < d.len() && !is_view_suffix(#[trigger] d[k]) && has_char(
                    strip_angle_brackets(d[k]),
                    '@',
                ) && x == strip_angle_brackets(d[k]) && forall|j: int|
                    k < j < d.len() ==> is_view_suffix(#[trigger] d[j]) || !has_char(
                        strip_angle_brackets(d[j]),
                        '@',
                    );
            assert(segs[k] == d[k]);
            assert forall|j: int| k < j < segs.len() implies is_view_suffix(#[trigger] segs[j])
                || !has_char(strip_angle_brackets(segs[j]), '@') by {
                if j < n {
                    assert(segs[j] == d[j]);
                }
            }
        } else {
            assert forall|k: int| 0 <= k < segs.len() implies is_view_suffix(#[trigger] segs[k])
                || !has_char(strip_angle_brackets(segs[k]), '@') by {
                if k < n {
                    assert(segs[k] == d[k]);
                }
            }
        }
    }
}

/// The message-ID of a lore URL is its last non-empty path segment that,
/// stripped of angle brackets, holds an `@`, not counting `raw` and
/// `t.mbox.gz`: segments without an `@` after it are passed over, and there
/// is no ID only when no segment holds one.
pub proof fn law_message_id_is_last_id_segment(url: Seq<char>, path: Seq<char>)
    requires
        lore_path(url) == Some(path),
    ensures
        lore_url_message_id(url) matches Some(id) ==> exists|k: int|
            0 <= k < nonempty_pieces(split_by(path, CharClass::Is('/'))).len() && !is_view_suffix(
                #[trigger] nonempty_pieces(split_by(path, CharClass::Is('/')))[k],
            ) && id == strip_angle_brackets(nonempty_pieces(split_by(path, CharClass::Is('/')))[k])
                && has_char(id, '@') && forall|j: int|
                k < j < nonempty_pieces(split_by(path, CharClass::Is('/'))).len()
                    ==> is_view_suffix(
                    #[trigger] nonempty_pieces(split_by(path, CharClass::Is('/')))[j],
                ) || !has_char(
                    strip_angle_brackets(nonempty_pieces(split_by(path, CharClass::Is('/')))[j]),
                    '@',
                ),
        lore_url_message_id(url) is None <==> forall|k: int|
            0 <= k < nonempty_pieces(split_by(path, CharClass::Is('/'))).len() ==> is_view_suffix(
                #[trigger] nonempty_pieces(split_by(path, CharClass::Is('/')))[k],
            ) || !has_char(
                strip_angle_brackets(nonempty_pieces(split_by(path, CharClass::Is('/')))[k]),
                '@',
            ),
{
    let segs = nonempty_pieces(split_by(path, CharClass::Is('/')));
    lemma_last_segment_is_last_with_id(segs);
}

proof fn lemma_last_segment_skips_plain(front: Seq<Seq<char>>, x: Seq<char>, rest: Seq<Seq<char>>)
    requires
        !is_view_suffix(x),
        has_char(strip_angle_brackets(x), '@'),
        forall|k: int| 0 <= k < rest.len() ==> !has_char(#[trigger] rest[k], '@'),
    ensures
        last_message_id_segment(front + seq![x] + rest) == Some(strip_angle_brackets(x)),
    decreases rest.len(),
{
    let all = front + seq![x] + rest;
    if rest.len() == 0 {
        assert(all.last() == x);
    } else {
        let seg = rest.last();
        assert(rest[rest.len() - 1] == seg);
        assert(all.last() == seg);
        lemma_trim_start_chars(seg, CharClass::Is('<'), '@');
        lemma_trim_end_chars(trim_start(seg, CharClass::Is('<')), CharClass::Is('>'), '@');
        assert(all.drop_last() =~= front + seq![x] + rest.drop_last());
        assert forall|k: int| 0 <= k < rest.drop_last().len() implies !has_char(
            #[trigger] rest.drop_last()[k],
            '@',
        ) by {
            assert(rest.drop_last()[k] == rest[k]);
        }
        lemma_last_segment_skips_plain(front, x, rest.drop_last());
    }
}

/// A message-ID segment followed by any path without an `@` (such as `T/`,
/// `raw` or a list of thread views) is read back from a lore URL:
/// `https://lore.kernel.org/<list>/<id>/<rest>` yields `<id>`.
pub proof fn law_id_segment_before_plain_path(list: Seq<char>, id: Seq<char>, rest: Seq<char>)
    requires
        !has_char(list, '/'),
        !has_char(id, '/'),
        has_char(id, '@'),
        id[0] != '<',
        id.last() != '>',
        !has_char(rest, '@'),
    ensures
        lore_url_message_id(lore_https() + "/"@ + list + "/"@ + id + "/"@ + rest) == Some(id),
{
    reveal_strlit("https://lore.kernel.org");
    reveal_strlit("/");
    reveal_strlit("raw");
    reveal_strlit("t.mbox.gz");
    let slash = CharClass::Is('/');
    let url = lore_https() + "/"@ + list + "/"@ + id + "/"@ + rest;
    let path = "/"@ + list + "/"@ + id + "/"@ + rest;
    assert(url =~= lore_https() + path);
    assert(url.take(lore_https().len() as int) =~= lore_https());
    assert(url[lore_https().len() as int] == '/');
    assert(url.skip(lore_https().len() as int) =~= path);
    assert(lore_path(url) == Some(path));
    let e = Seq::<char>::empty();
    assert forall|i: int| 0 <= i < list.len() implies !in_class(slash, #[trigger] list[i]) by {
        if list[i] == '/' {
            assert(has_char(list, '/'));
        }
    }
    assert forall|i: int| 0 <= i < id.len() implies !in_class(slash, #[trigger] id[i]) by {
        if id[i] == '/' {
            assert(has_char(id, '/'));
        }
    }
    lemma_split_by_plain(list, slash);
    lemma_split_by_plain(id, slash);
    lemma_split_by_plain(e, slash);
    assert(path =~= e + seq!['/'] + (list + seq!['/'] + (id + seq!['/'] + rest)));
    lemma_split_by_sep(e, '/', list + seq!['/'] + (id + seq!['/'] + rest), slash);
    lemma_split_by_sep(list, '/', id + seq!['/'] + rest, slash);
    lemma_split_by_sep(id, '/', rest, slash);
    let tail = split_by(rest, slash);
    assert(split_by(path, slash) =~= (seq![e, list] + seq![id]) + tail);
    lemma_nonempty_concat(seq![e, list] + seq![id], tail);
    lemma_nonempty_concat(seq![e, list], seq![id]);
    let one = seq![id];
    assert(one.last() == id);
    assert(one.drop_last() =~= Seq::<Seq<char>>::empty());
    assert(nonempty_pieces(Seq::<Seq<char>>::empty()) =~= Seq::<Seq<char>>::empty());
    assert(id.len() > 0);
    assert(nonempty_pieces(one) =~= one);
    let front = nonempty_pieces(seq![e, list]);
    let plain = nonempty_pieces(tail);
    assert(nonempty_pieces(split_by(path, slash)) =~= front + seq![id] + plain);
    lemma_nonempty_members(tail);
    lemma_split_by_infix(rest, slash);
    assert forall|k: int| 0 <= k < plain.len() implies !has_char(#[trigger] plain[k], '@') by {
        assert(tail.contains(plain[k]));
        let m = choose|m: int| 0 <= m < tail.len() && tail[m] == plain[k];
        assert(has_infix(rest, tail[m]));
        if has_char(plain[k], '@') {
            let q = choose|q: int| 0 <= q < plain[k].len() && plain[k][q] == '@';
            let p0 = choose|p0: int| occurs_at(rest, tail[m], p0);
            assert(rest.subrange(p0, p0 + tail[m].len())[q] == rest[p0 + q]);
            assert(has_char(rest, '@'));
        }
    }
    assert(!is_view_suffix(id)) by {
        if id == "raw"@ || id == "t.mbox.gz"@ {
            let i = choose|i: int| 0 <= i < id.len() && id[i] == '@';
        }
    }
    assert(trim_start(id, CharClass::Is('<')) == id);
    assert(trim_end(id, CharClass::Is('>')) == id);
    assert(strip_angle_brackets(id) == id);
    lemma_last_segment_skips_plain(front, id, plain);
}

/// What makes a message-ID: with the first `@` at position `at`, the input
/// is one exactly when a `.` follows somewhere after that `@` and the input
/// holds no `/`, no `\` and no `..`; any other characters (angle brackets,
/// `+`, `=`, ...) play no part. Without an `@` it is none.
pub proof fn law_message_id_verdict(s: Seq<char>, at: int)
    requires
        0 <= at < s.len(),
        s[at] == '@',
        forall|j: int| 0 <= j < at ==> s[j] != '@',
    ensures
        spec_is_message_id(s) <==> (has_char(s.skip(at + 1), '.') && !has_char(s, '/')
            && !has_char(s, '\\') && !has_infix(s, ".."@)),
{
    lemma_index_of(s, '@');
    let i = index_of(s, '@')->0;
    assert(i == at) by {
        if i < at {
            assert(s[i] == '@');
        }
        if i > at {
            assert(s[at] != '@');
        }
    }
}

/// An input without `@` is never a message-ID.
pub proof fn law_message_id_needs_at(s: Seq<char>)
    requires
        !has_char(s, '@'),
    ensures
        !spec_is_message_id(s),
{
    lemma_index_of(s, '@');
}

/// A message-ID stays one when it is written in angle brackets, as in a
/// `Message-ID` header, and a text that is none stays none.
pub proof fn law_message_id_ignores_angle_brackets(s: Seq<char>)
    ensures
        spec_is_message_id(seq!['<'] + s + seq!['>']) == spec_is_message_id(s),
{
    reveal_strlit("..");
    let w = seq!['<'] + s + seq!['>'];
    let dd = ".."@;
    assert(dd.len() == 2 && dd[0] == '.' && dd[1] == '.');
    assert forall|i: int| 0 <= i < s.len() implies w[i + 1] == s[i] by {}
    assert(w[0] == '<' && w[w.len() - 1] == '>');
    assert(has_char(w, '/') == has_char(s, '/')) by {
        if has_char(w, '/') {
            let i = choose|i: int| 0 <= i < w.len() && w[i] == '/';
            assert(s[i - 1] == '/');
        }
        if has_char(s, '/') {
            let i = choose|i: int| 0 <= i < s.len() && s[i] == '/';
            assert(w[i + 1] == '/');
        }
    }
    assert(has_char(w, '\\') == has_char(s, '\\')) by {
        if has_char(w, '\\') {
            let i = choose|i: int| 0 <= i < w.len() && w[i] == '\\';
            assert(s[i - 1] == '\\');
        }
        if has_char(s, '\\') {
            let i = choose|i: int| 0 <= i < s.len() && s[i] == '\\';
            assert(w[i + 1] == '\\');
        }
    }
    assert(has_infix(w, dd) == has_infix(s, dd)) by {
        if has_infix(w, dd) {
            let p = choose|p: int| occurs_at(w, dd, p);
            assert(w.subrange(p, p + 2)[0] == w[p]);
            assert(w.subrange(p, p + 2)[1] == w[p + 1]);
            assert(1 <= p && p + 2 <= w.len() - 1);
            assert(s.subrange(p - 1, p + 1) =~= dd);
            assert(occurs_at(s, dd, p - 1));
        }
        if has_infix(s, dd) {
            let p = choose|p: int| occurs_at(s, dd, p);
            assert(s.subrange(p, p + 2)[0] == s[p]);
            assert(s.subrange(p, p + 2)[1] == s[p + 1]);
            assert(w.subrange(p + 1, p + 3) =~= dd);
            assert(occurs_at(w, dd, p + 1));
        }
    }
    lemma_index_of(s, '@');
    lemma_index_of(w, '@');
    if has_char(s, '@') {
        let at = index_of(s, '@')->0;
        assert(w[at + 1] == '@');
        assert forall|j: int| 0 <= j < at + 1 implies w[j] != '@' by {
            if j > 0 {
                assert(w[j] == s[j - 1]);
            }
        }
        law_message_id_verdict(s, at);
        law_message_id_verdict(w, at + 1);
        let ta = s.skip(at + 1);
        let tw = w.skip(at + 2);
        assert(tw =~= ta.push('>'));
        assert(has_char(tw, '.') == has_char(ta, '.')) by {
            if has_char(tw, '.') {
                let i = choose|i: int| 0 <= i < tw.len() && tw[i] == '.';
                assert(i < ta.len());
                assert(ta[i] == '.');
            }
            if has_char(ta, '.') {
                let i = choose|i: int| 0 <= i < ta.len() && ta[i] == '.';
                assert(tw[i] == '.');
            }
        }
    } else {
        assert(!has_char(w, '@')) by {
            if has_char(w, '@') {
                let i = choose|i: int| 0 <= i < w.len() && w[i] == '@';
                assert(s[i - 1] == '@');
            }
        }
        law_message_id_needs_at(s);
        law_message_id_needs_at(w);
    }
}

} // verus!
