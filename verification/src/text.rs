//! Character-sequence utilities shared by the parsers.
//!
//! Text is handled as the sequence of its `char`s (the view of a `str` or
//! `String`); every function here is specified over that sequence.

use vstd::prelude::*;

verus! {

/// A set of characters at which a trim stops or a split cuts.
#[derive(Clone, Copy, Debug, PartialEq, Eq)]
pub enum CharClass {
    /// Exactly this character.
    Is(char),
    /// A Unicode `White_Space` character (what `char::is_whitespace` accepts).
    Whitespace,
    /// `<` or `>`.
    AngleBracket,
}

/// Unicode `White_Space`: the characters `char::is_whitespace` accepts.
pub open spec fn is_unicode_whitespace(c: char) -> bool {
    let u = c as u32;
    ||| 0x09 <= u <= 0x0d
    ||| u == 0x20
    ||| u == 0x85
    ||| u == 0xa0
    ||| u == 0x1680
    ||| 0x2000 <= u <= 0x200a
    ||| u == 0x2028
    ||| u == 0x2029
    ||| u == 0x202f
    ||| u == 0x205f
    ||| u == 0x3000
}

pub open spec fn in_class(cls: CharClass, c: char) -> bool {
    match cls {
        CharClass::Is(d) => c == d,
        CharClass::Whitespace => is_unicode_whitespace(c),
        CharClass::AngleBracket => c == '<' || c == '>',
    }
}

/// Whether `c` belongs to `cls`.
pub fn class_contains(cls: CharClass, c: char) -> (r: bool)
    ensures
        r == in_class(cls, c),
{
    match cls {
        CharClass::Is(d) => c == d,
        CharClass::Whitespace => {
            let u = c as u32;
            (0x09 <= u && u <= 0x0d) || u == 0x20 || u == 0x85 || u == 0xa0 || u == 0x1680 || (
            0x2000 <= u && u <= 0x200a) || u == 0x2028 || u == 0x2029 || u == 0x202f || u
                == 0x205f || u == 0x3000
        },
        CharClass::AngleBracket => c == '<' || c == '>',
    }
}

/// `p` is a prefix of `s`.
pub open spec fn has_prefix(s: Seq<char>, p: Seq<char>) -> bool {
    p.len() <= s.len() && s.take(p.len() as int) == p
}

/// `c` occurs in `s`.
pub open spec fn has_char(s: Seq<char>, c: char) -> bool {
    exists|i: int| 0 <= i < s.len() && s[i] == c
}

/// `p` occurs in `s` at position `i`.
pub open spec fn occurs_at(s: Seq<char>, p: Seq<char>, i: int) -> bool {
    0 <= i && i + p.len() <= s.len() && s.subrange(i, i + p.len()) == p
}

/// The characters of `s`, in order.
pub fn chars_of(s: &str) -> (r: Vec<char>)
    ensures
        r@ == s@,
{
    let mut r: Vec<char> = Vec::new();
    for c in it: s.chars()
        invariant
            r@ == it.seq().take(it.index() as int),
    {
        r.push(c);
    }
    r
}

/// `String::push`.
#[verifier::external_body]
fn string_push(s: &mut String, c: char)
    ensures
        final(s)@ == old(s)@.push(c),
{
    s.push(c);
}

/// The string made of the characters `v`.
pub fn string_of(v: &Vec<char>) -> (r: String)
    ensures
        r@ == v@,
{
    let mut r = String::new();
    let mut i: usize = 0;
    while i < v.len()
        invariant
            i <= v.len(),
            r@ == v@.take(i as int),
        decreases v.len() - i,
    {
        string_push(&mut r, v[i]);
        i = i + 1;
        assert(r@ =~= v@.take(i as int));
    }
    assert(v@.take(v.len() as int) =~= v@);
    r
}

/// The characters `v[from..to]`.
pub fn slice_of(v: &Vec<char>, from: usize, to: usize) -> (r: Vec<char>)
    requires
        from <= to <= v.len(),
    ensures
        r@ == v@.subrange(from as int, to as int),
{
    let mut r: Vec<char> = Vec::new();
    let mut i: usize = from;
    while i < to
        invariant
            from <= i <= to <= v.len(),
            r@ == v@.subrange(from as int, i as int),
        decreases to - i,
    {
        r.push(v[i]);
        i = i + 1;
        assert(r@ =~= v@.subrange(from as int, i as int));
    }
    r
}

/// Whether `p` occurs in `s` at position `i`.
pub fn occurs_at_exec(s: &Vec<char>, p: &Vec<char>, i: usize) -> (r: bool)
    ensures
        r == occurs_at(s@, p@, i as int),
{
    if i > s.len() || p.len() > s.len() - i {
        return false;
    }
    let mut k: usize = 0;
    while k < p.len()
        invariant
            i + p.len() <= s.len(),
            k <= p.len(),
            forall|j: int| 0 <= j < k ==> s@[i + j] == p@[j],
        decreases p.len() - k,
    {
        if s[i + k] != p[k] {
            assert(s@.subrange(i as int, i + p.len())[k as int] != p@[k as int]);
            return false;
        }
        k = k + 1;
    }
    assert(s@.subrange(i as int, i + p.len()) =~= p@);
    true
}

/// Whether `s` starts with `p`.
pub fn starts_with(s: &Vec<char>, p: &Vec<char>) -> (r: bool)
    ensures
        r == has_prefix(s@, p@),
{
    let r = occurs_at_exec(s, p, 0);
    assert(s@.take(p@.len() as int) =~= s@.subrange(0, p@.len() as int));
    r
}

/// Whether `c` occurs in `s`.
pub fn contains_char(s: &Vec<char>, c: char) -> (r: bool)
    ensures
        r == has_char(s@, c),
{
    let mut i: usize = 0;
    while i < s.len()
        invariant
            i <= s.len(),
            forall|j: int| 0 <= j < i ==> s@[j] != c,
        decreases s.len() - i,
    {
        if s[i] == c {
            return true;
        }
        i = i + 1;
    }
    false
}

/// `s` without its leading characters of class `cls`.
pub open spec fn trim_start(s: Seq<char>, cls: CharClass) -> Seq<char>
    decreases s.len(),
{
    if s.len() > 0 && in_class(cls, s[0]) {
        trim_start(s.drop_first(), cls)
    } else {
        s
    }
}

/// `s` without its trailing characters of class `cls`.
pub open spec fn trim_end(s: Seq<char>, cls: CharClass) -> Seq<char>
    decreases s.len(),
{
    if s.len() > 0 && in_class(cls, s.last()) {
        trim_end(s.drop_last(), cls)
    } else {
        s
    }
}

/// `s` without its leading and trailing characters of class `cls`.
pub open spec fn trim_both(s: Seq<char>, cls: CharClass) -> Seq<char> {
    trim_end(trim_start(s, cls), cls)
}

/// The pieces of `s` between the characters of class `cls` (as `str::split`
/// gives them): the empty text is one empty piece, a separator appended
/// starts a new piece, any other character extends the last piece.
pub open spec fn split_by(s: Seq<char>, cls: CharClass) -> Seq<Seq<char>>
    decreases s.len(),
{
    if s.len() == 0 {
        seq![Seq::<char>::empty()]
    } else {
        let r = split_by(s.drop_last(), cls);
        if in_class(cls, s.last()) {
            r.push(Seq::<char>::empty())
        } else {
            r.update(r.len() - 1, r.last().push(s.last()))
        }
    }
}

/// The pieces of `ps` that are not empty, in order.
pub open spec fn nonempty_pieces(ps: Seq<Seq<char>>) -> Seq<Seq<char>>
    decreases ps.len(),
{
    if ps.len() == 0 {
        Seq::<Seq<char>>::empty()
    } else {
        let r = nonempty_pieces(ps.drop_last());
        if ps.last().len() > 0 {
            r.push(ps.last())
        } else {
            r
        }
    }
}

/// The whitespace-separated words of `s` (as `str::split_whitespace` gives them).
pub open spec fn words(s: Seq<char>) -> Seq<Seq<char>> {
    nonempty_pieces(split_by(s, CharClass::Whitespace))
}

/// `l` without one trailing carriage return.
pub open spec fn strip_cr(l: Seq<char>) -> Seq<char> {
    if l.len() > 0 && l.last() == '\r' {
        l.drop_last()
    } else {
        l
    }
}

/// The lines of `s` (as `str::lines` gives them): the text is cut at each
/// `\n`, a `\r` right before a `\n` is dropped, and a final empty piece
/// (after a trailing `\n`, or of the empty text) is no line.
pub open spec fn lines_of(s: Seq<char>) -> Seq<Seq<char>> {
    let p = split_by(s, CharClass::Is('\n'));
    let body = Seq::new((p.len() - 1) as nat, |k: int| strip_cr(p[k]));
    if p.last().len() == 0 {
        body
    } else {
        body.push(p.last())
    }
}

/// The character sequences held by `vs`.
pub open spec fn views(vs: Seq<Vec<char>>) -> Seq<Seq<char>> {
    vs.map_values(|v: Vec<char>| v@)
}

pub proof fn lemma_split_by_nonempty(s: Seq<char>, cls: CharClass)
    ensures
        split_by(s, cls).len() >= 1,
    decreases s.len(),
{
    if s.len() > 0 {
        lemma_split_by_nonempty(s.drop_last(), cls);
    }
}

proof fn lemma_trim_start_skip(s: Seq<char>, cls: CharClass, i: int)
    requires
        0 <= i <= s.len(),
        forall|j: int| 0 <= j < i ==> in_class(cls, #[trigger] s[j]),
        i == s.len() || !in_class(cls, s[i]),
    ensures
        trim_start(s, cls) == s.skip(i),
    decreases i,
{
    if i == 0 {
        assert(s.skip(0) =~= s);
    } else {
        assert(in_class(cls, s[0]));
        let t = s.drop_first();
        assert forall|j: int| 0 <= j < i - 1 implies in_class(cls, #[trigger] t[j]) by {
            assert(t[j] == s[j + 1]);
        }
        lemma_trim_start_skip(t, cls, i - 1);
        assert(t.skip(i - 1) =~= s.skip(i));
    }
}

proof fn lemma_trim_end_take(s: Seq<char>, cls: CharClass, i: int)
    requires
        0 <= i <= s.len(),
        forall|j: int| i <= j < s.len() ==> in_class(cls, #[trigger] s[j]),
        i == 0 || !in_class(cls, s[i - 1]),
    ensures
        trim_end(s, cls) == s.take(i),
    decreases s.len() - i,
{
    if i == s.len() {
        assert(s.take(i) =~= s);
    } else {
        assert(in_class(cls, s.last()));
        let t = s.drop_last();
        assert forall|j: int| i <= j < t.len() implies in_class(cls, #[trigger] t[j]) by {
            assert(t[j] == s[j]);
        }
        lemma_trim_end_take(t, cls, i);
        assert(t.take(i) =~= s.take(i));
    }
}

/// `v` without its leading characters of class `cls`.
pub fn trim_start_exec(v: &Vec<char>, cls: CharClass) -> (r: Vec<char>)
    ensures
        r@ == trim_start(v@, cls),
{
    let mut i: usize = 0;
    while i < v.len() && class_contains(cls, v[i])
        invariant
            i <= v.len(),
            forall|j: int| 0 <= j < i ==> in_class(cls, #[trigger] v@[j]),
        decreases v.len() - i,
    {
        i = i + 1;
    }
    proof {
        lemma_trim_start_skip(v@, cls, i as int);
        assert(v@.skip(i as int) =~= v@.subrange(i as int, v@.len() as int));
    }
    slice_of(v, i, v.len())
}

/// `v` without its trailing characters of class `cls`.
pub fn trim_end_exec(v: &Vec<char>, cls: CharClass) -> (r: Vec<char>)
    ensures
        r@ == trim_end(v@, cls),
{
    let mut i: usize = v.len();
    while i > 0 && class_contains(cls, v[i - 1])
        invariant
            i <= v.len(),
            forall|j: int| i <= j < v@.len() ==> in_class(cls, #[trigger] v@[j]),
        decreases i,
    {
        i = i - 1;
    }
    proof {
        lemma_trim_end_take(v@, cls, i as int);
        assert(v@.take(i as int) =~= v@.subrange(0, i as int));
    }
    slice_of(v, 0, i)
}

/// `v` without its leading and trailing characters of class `cls`.
pub fn trim_exec(v: &Vec<char>, cls: CharClass) -> (r: Vec<char>)
    ensures
        r@ == trim_both(v@, cls),
{
    let t = trim_start_exec(v, cls);
    trim_end_exec(&t, cls)
}

/// The pieces of `v` between the characters of class `cls`.
pub fn split_exec(v: &Vec<char>, cls: CharClass) -> (r: Vec<Vec<char>>)
    ensures
        views(r@) == split_by(v@, cls),
{
    let mut pieces: Vec<Vec<char>> = Vec::new();
    let mut cur: Vec<char> = Vec::new();
    let mut i: usize = 0;
    assert(views(pieces@).push(cur@) =~= split_by(v@.take(0), cls));
    while i < v.len()
        invariant
            i <= v.len(),
            views(pieces@).push(cur@) == split_by(v@.take(i as int), cls),
        decreases v.len() - i,
    {
        let ghost before = v@.take(i as int);
        let ghost after = v@.take(i + 1);
        proof {
            assert(after.drop_last() =~= before);
            assert(after.last() == v@[i as int]);
            lemma_split_by_nonempty(before, cls);
        }
        let c = v[i];
        if class_contains(cls, c) {
            pieces.push(cur);
            cur = Vec::new();
            assert(views(pieces@).push(cur@) =~= split_by(after, cls));
        } else {
            cur.push(c);
            assert(views(pieces@).push(cur@) =~= split_by(after, cls));
        }
        i = i + 1;
    }
    assert(v@.take(v.len() as int) =~= v@);
    pieces.push(cur);
    assert(views(pieces@) =~= split_by(v@, cls));
    pieces
}

/// The pieces of `ps` that are not empty, in order.
pub fn nonempty_exec(ps: &Vec<Vec<char>>) -> (r: Vec<Vec<char>>)
    ensures
        views(r@) == nonempty_pieces(views(ps@)),
{
    let mut r: Vec<Vec<char>> = Vec::new();
    let ghost all = views(ps@);
    let mut i: usize = 0;
    assert(views(r@) =~= nonempty_pieces(all.take(0)));
    while i < ps.len()
        invariant
            i <= ps.len(),
            all == views(ps@),
            views(r@) == nonempty_pieces(all.take(i as int)),
        decreases ps.len() - i,
    {
        proof {
            assert(all.take(i + 1).drop_last() =~= all.take(i as int));
        }
        if ps[i].len() > 0 {
            let p = slice_of(&ps[i], 0, ps[i].len());
            assert(p@ =~= ps@[i as int]@);
            r.push(p);
        }
        assert(views(r@) =~= nonempty_pieces(all.take(i + 1)));
        i = i + 1;
    }
    assert(all.take(ps.len() as int) =~= all);
    r
}

/// `l` without one trailing carriage return.
pub fn strip_cr_exec(l: &Vec<char>) -> (r: Vec<char>)
    ensures
        r@ == strip_cr(l@),
{
    if l.len() > 0 && l[l.len() - 1] == '\r' {
        slice_of(l, 0, l.len() - 1)
    } else {
        slice_of(l, 0, l.len())
    }
}

/// The lines of `v` (as `str::lines` gives them).
pub fn lines_exec(v: &Vec<char>) -> (r: Vec<Vec<char>>)
    ensures
        views(r@) == lines_of(v@),
{
    let p = split_exec(v, CharClass::Is('\n'));
    let ghost ps = split_by(v@, CharClass::Is('\n'));
    proof {
        lemma_split_by_nonempty(v@, CharClass::Is('\n'));
    }
    assert(views(p@).len() == p@.len());
    let n = p.len();
    let mut r: Vec<Vec<char>> = Vec::new();
    let mut k: usize = 0;
    while k + 1 < n
        invariant
            n == p.len() >= 1,
            views(p@) == ps,
            k + 1 <= n,
            views(r@) == Seq::new(k as nat, |j: int| strip_cr(ps[j])),
        decreases n - k,
    {
        assert(views(p@)[k as int] == p@[k as int]@);
        let l = strip_cr_exec(&p[k]);
        let ghost old_r = views(r@);
        r.push(l);
        assert(views(r@) =~= old_r.push(l@));
        k = k + 1;
        assert(views(r@) =~= Seq::new(k as nat, |j: int| strip_cr(ps[j])));
    }
    assert(views(p@)[n - 1] == p@[n - 1]@);
    let ghost body = Seq::new((ps.len() - 1) as nat, |j: int| strip_cr(ps[j]));
    assert(views(r@) =~= body);
    if p[n - 1].len() > 0 {
        let last = slice_of(&p[n - 1], 0, p[n - 1].len());
        let ghost old_r = views(r@);
        r.push(last);
        assert(views(r@) =~= old_r.push(last@));
        assert(ps.len() == n);
        assert(ps[n - 1] == p@[n - 1]@);
        assert(ps.last() == p@[n - 1]@);
        assert(old_r == body);
        assert(last@ == ps.last());
        assert(views(r@) =~= body.push(ps.last()));
    }
    r
}

/// The whitespace-separated words of `v`.
pub fn words_exec(v: &Vec<char>) -> (r: Vec<Vec<char>>)
    ensures
        views(r@) == words(v@),
{
    let p = split_exec(v, CharClass::Whitespace);
    nonempty_exec(&p)
}

/// The first position of `c` in `s`.
pub open spec fn index_of(s: Seq<char>, c: char) -> Option<int>
    decreases s.len(),
{
    if s.len() == 0 {
        None
    } else if s[0] == c {
        Some(0)
    } else {
        match index_of(s.drop_first(), c) {
            Some(i) => Some(i + 1),
            None => None,
        }
    }
}

pub proof fn lemma_index_of(s: Seq<char>, c: char)
    ensures
        index_of(s, c) is None <==> !has_char(s, c),
        index_of(s, c) matches Some(i) ==> 0 <= i < s.len() && s[i] == c && forall|j: int|
            0 <= j < i ==> s[j] != c,
    decreases s.len(),
{
    if s.len() > 0 {
        let t = s.drop_first();
        lemma_index_of(t, c);
        if s[0] != c {
            if has_char(s, c) {
                let i = choose|i: int| 0 <= i < s.len() && s[i] == c;
                assert(t[i - 1] == c);
            }
            if has_char(t, c) {
                let i = choose|i: int| 0 <= i < t.len() && t[i] == c;
                assert(s[i + 1] == c);
            }
            match index_of(t, c) {
                Some(i) => {
                    assert forall|j: int| 0 <= j < i + 1 implies s[j] != c by {
                        if j > 0 {
                            assert(s[j] == t[j - 1]);
                        }
                    }
                },
                None => {},
            }
        }
    }
}

/// The first position of `c` in `v`.
pub fn find_char(v: &Vec<char>, c: char) -> (r: Option<usize>)
    ensures
        r matches Some(i) ==> index_of(v@, c) == Some(i as int),
        r is None ==> index_of(v@, c) is None,
{
    proof {
        lemma_index_of(v@, c);
    }
    let mut i: usize = 0;
    while i < v.len()
        invariant
            i <= v.len(),
            forall|j: int| 0 <= j < i ==> v@[j] != c,
        decreases v.len() - i,
    {
        if v[i] == c {
            proof {
                lemma_index_of(v@, c);
                assert(v@[i as int] == c);
                match index_of(v@, c) {
                    Some(k) => {
                        if k < i {
                            assert(v@[k] == c);
                        }
                        if k > i {
                            assert(v@[i as int] == c);
                        }
                    },
                    None => {
                        assert(has_char(v@, c));
                    },
                }
            }
            return Some(i);
        }
        i = i + 1;
    }
    proof {
        lemma_index_of(v@, c);
        if has_char(v@, c) {
            let k = choose|k: int| 0 <= k < v@.len() && v@[k] == c;
            assert(v@[k] != c);
        }
    }
    None
}

/// `p` occurs somewhere in `s`.
pub open spec fn has_infix(s: Seq<char>, p: Seq<char>) -> bool {
    exists|i: int| occurs_at(s, p, i)
}

/// Whether `p` occurs somewhere in `s`.
pub fn contains_seq(s: &Vec<char>, p: &Vec<char>) -> (r: bool)
    ensures
        r == has_infix(s@, p@),
{
    let mut i: usize = 0;
    while i < s.len()
        invariant
            i <= s.len(),
            forall|j: int| 0 <= j < i ==> !occurs_at(s@, p@, j),
        decreases s.len() - i,
    {
        if occurs_at_exec(s, p, i) {
            return true;
        }
        i = i + 1;
    }
    if occurs_at_exec(s, p, s.len()) {
        return true;
    }
    assert forall|j: int| !occurs_at(s@, p@, j) by {
        if 0 <= j && j < i {
        } else if j > s@.len() {
        }
    }
    false
}

/// The decimal digit `d` as a character.
pub open spec fn digit_char(d: nat) -> char {
    (d + 48) as char
}

/// The decimal notation of `n`, without leading zeros.
pub open spec fn decimal(n: nat) -> Seq<char>
    decreases n,
{
    if n < 10 {
        seq![digit_char(n)]
    } else {
        decimal(n / 10).push(digit_char(n % 10))
    }
}

fn digit_exec(d: u64) -> (c: char)
    requires
        d < 10,
    ensures
        c == digit_char(d as nat),
{
    ((d as u8) + 48u8) as char
}

/// The decimal notation of `n`.
pub fn decimal_exec(n: u64) -> (r: Vec<char>)
    ensures
        r@ == decimal(n as nat),
    decreases n,
{
    if n < 10 {
        let mut r: Vec<char> = Vec::new();
        r.push(digit_exec(n));
        assert(r@ =~= decimal(n as nat));
        r
    } else {
        let mut r = decimal_exec(n / 10);
        r.push(digit_exec(n % 10));
        r
    }
}

/// `c` is an ASCII decimal digit.
pub open spec fn is_digit(c: char) -> bool {
    '0' <= c <= '9'
}

/// The number written by the ASCII digits `s`.
pub open spec fn digits_value(s: Seq<char>) -> nat
    decreases s.len(),
{
    if s.len() == 0 {
        0
    } else {
        digits_value(s.drop_last()) * 10 + ((s.last() as int - 48) as nat)
    }
}

/// `s` without one leading `+`.
pub open spec fn unsigned_part(s: Seq<char>) -> Seq<char> {
    if s.len() > 0 && s[0] == '+' {
        s.drop_first()
    } else {
        s
    }
}

/// Every character of `d` is an ASCII digit.
pub open spec fn all_digits(d: Seq<char>) -> bool {
    forall|i: int| 0 <= i < d.len() ==> is_digit(#[trigger] d[i])
}

/// What `u64::from_str` gives: an optional `+`, then one or more ASCII
/// digits whose value fits in `u64`; anything else is no number.
pub open spec fn parse_u64(s: Seq<char>) -> Option<u64> {
    let d = unsigned_part(s);
    if d.len() > 0 && all_digits(d) && digits_value(d) <= u64::MAX {
        Some(digits_value(d) as u64)
    } else {
        None
    }
}

proof fn lemma_digits_value_grows(d: Seq<char>, k: int)
    requires
        0 <= k <= d.len(),
        forall|i: int| 0 <= i < d.len() ==> is_digit(#[trigger] d[i]),
    ensures
        digits_value(d.take(k)) <= digits_value(d),
    decreases d.len() - k,
{
    if k < d.len() {
        lemma_digits_value_grows(d, k + 1);
        assert(d.take(k + 1).drop_last() =~= d.take(k));
        assert(is_digit(d[k]));
    } else {
        assert(d.take(k) =~= d);
    }
}

/// `s` read as a `u64` the way `u64::from_str` reads it.
pub fn parse_u64_exec(s: &Vec<char>) -> (r: Option<u64>)
    ensures
        r == parse_u64(s@),
{
    let start: usize = if s.len() > 0 && s[0] == '+' {
        1
    } else {
        0
    };
    let ghost d = unsigned_part(s@);
    assert(d =~= s@.skip(start as int));
    if start == s.len() {
        assert(d.len() == 0);
        return None;
    }
    let mut i: usize = start;
    while i < s.len()
        invariant
            start <= i <= s.len(),
            d == s@.skip(start as int),
            d == unsigned_part(s@),
            forall|j: int| 0 <= j < i - start ==> is_digit(#[trigger] d[j]),
        decreases s.len() - i,
    {
        if !('0' <= s[i] && s[i] <= '9') {
            assert(d[i - start] == s@[i as int]);
            assert(!is_digit(d[i - start]));
            assert(!(forall|j: int| 0 <= j < d.len() ==> is_digit(#[trigger] d[j])));
            assert(parse_u64(s@) is None);
            return None;
        }
        assert(d[i - start] == s@[i as int]);
        i = i + 1;
    }
    let mut val: u64 = 0;
    let mut k: usize = start;
    assert(d.take(0) =~= Seq::<char>::empty());
    while k < s.len()
        invariant
            start <= k <= s.len(),
            d == s@.skip(start as int),
            d == unsigned_part(s@),
            d.len() == s.len() - start,
            forall|j: int| 0 <= j < d.len() ==> is_digit(#[trigger] d[j]),
            val == digits_value(d.take(k - start)),
        decreases s.len() - k,
    {
        let ghost pre = d.take(k + 1 - start);
        assert(pre.drop_last() =~= d.take(k - start));
        assert(pre.last() == s@[k as int]);
        assert(is_digit(d[k - start]));
        let dig = (s[k] as u32 - 48) as u64;
        if val > (u64::MAX - dig) / 10 {
            proof {
                lemma_digits_value_grows(d, k + 1 - start);
                assert(digits_value(pre) == val * 10 + dig);
                assert(val * 10 + dig > u64::MAX) by (nonlinear_arith)
                    requires
                        val > (u64::MAX - dig) / 10,
                        dig <= 9,
                ;
                assert(digits_value(d) > u64::MAX);
                assert(parse_u64(s@) is None);
            }
            return None;
        }
        assert(val * 10 + dig <= u64::MAX) by (nonlinear_arith)
            requires
                val <= (u64::MAX - dig) / 10,
                dig <= 9,
        ;
        val = val * 10 + dig;
        k = k + 1;
    }
    assert(d.take(d.len() as int) =~= d);
    assert(d.len() > 0);
    assert(digits_value(d) <= u64::MAX);
    Some(val)
}

/// Appends the characters `src` to `dst`.
pub fn extend_chars(dst: &mut Vec<char>, src: &Vec<char>)
    ensures
        final(dst)@ == old(dst)@ + src@,
{
    let mut i: usize = 0;
    let ghost start = dst@;
    while i < src.len()
        invariant
            i <= src.len(),
            dst@ == start + src@.take(i as int),
        decreases src.len() - i,
    {
        dst.push(src[i]);
        i = i + 1;
        assert(dst@ =~= start + src@.take(i as int));
    }
    assert(src@.take(src.len() as int) =~= src@);
}

/// What `str::to_lowercase` gives for the text `s` (the Unicode lowercase
/// mapping, which takes tables to state).
pub uninterp spec fn str_lowercase(s: Seq<char>) -> Seq<char>;

/// `str::to_lowercase`. The contract claims only that the result is a
/// function of the text: `str_lowercase` applied to it.
#[verifier::external_body]
pub(crate) fn to_lowercase(s: &str) -> (r: String)
    ensures
        r@ == str_lowercase(s@),
{
    s.to_lowercase()
}

/// Appends the characters of `s` to `dst`.
pub fn push_str(dst: &mut Vec<char>, s: &str)
    ensures
        final(dst)@ == old(dst)@ + s@,
{
    let v = chars_of(s);
    extend_chars(dst, &v);
}

/// Appends the decimal notation of `n` to `dst`.
pub fn push_decimal(dst: &mut Vec<char>, n: u64)
    ensures
        final(dst)@ == old(dst)@ + decimal(n as nat),
{
    let v = decimal_exec(n);
    extend_chars(dst, &v);
}

/// Cutting `a`, a separator and `b` gives the pieces of `a` then those of `b`.
pub proof fn lemma_split_by_sep(a: Seq<char>, c: char, b: Seq<char>, cls: CharClass)
    requires
        in_class(cls, c),
    ensures
        split_by(a + seq![c] + b, cls) == split_by(a, cls) + split_by(b, cls),
    decreases b.len(),
{
    let s = a + seq![c] + b;
    if b.len() == 0 {
        assert(s.drop_last() =~= a);
        assert(split_by(b, cls) =~= seq![Seq::<char>::empty()]);
        assert(split_by(s, cls) =~= split_by(a, cls) + split_by(b, cls));
    } else {
        let b1 = b.drop_last();
        lemma_split_by_sep(a, c, b1, cls);
        assert(s.drop_last() =~= a + seq![c] + b1);
        assert(s.last() == b.last());
        lemma_split_by_nonempty(b1, cls);
        lemma_split_by_nonempty(a, cls);
        assert(split_by(s, cls) =~= split_by(a, cls) + split_by(b, cls));
    }
}

/// Text without separators is a single piece.
pub proof fn lemma_split_by_plain(s: Seq<char>, cls: CharClass)
    requires
        forall|i: int| 0 <= i < s.len() ==> !in_class(cls, #[trigger] s[i]),
    ensures
        split_by(s, cls) == seq![s],
    decreases s.len(),
{
    if s.len() > 0 {
        let t = s.drop_last();
        assert forall|i: int| 0 <= i < t.len() implies !in_class(cls, #[trigger] t[i]) by {
            assert(t[i] == s[i]);
        }
        lemma_split_by_plain(t, cls);
        assert(!in_class(cls, s[s.len() - 1]));
        assert(t.push(s.last()) =~= s);
        assert(split_by(s, cls) =~= seq![s]);
    } else {
        assert(s =~= Seq::<char>::empty());
    }
}

/// No piece holds a separator.
pub proof fn lemma_split_by_pieces(s: Seq<char>, cls: CharClass)
    ensures
        forall|k: int, i: int|
            0 <= k < split_by(s, cls).len() && 0 <= i < split_by(s, cls)[k].len() ==> !in_class(
                cls,
                #[trigger] split_by(s, cls)[k][i],
            ),
    decreases s.len(),
{
    if s.len() > 0 {
        lemma_split_by_pieces(s.drop_last(), cls);
        lemma_split_by_nonempty(s.drop_last(), cls);
    }
}

/// The non-empty pieces of two lists, one after the other.
pub proof fn lemma_nonempty_concat(x: Seq<Seq<char>>, y: Seq<Seq<char>>)
    ensures
        nonempty_pieces(x + y) == nonempty_pieces(x) + nonempty_pieces(y),
    decreases y.len(),
{
    if y.len() == 0 {
        assert(x + y =~= x);
        assert(nonempty_pieces(x) + nonempty_pieces(y) =~= nonempty_pieces(x));
    } else {
        lemma_nonempty_concat(x, y.drop_last());
        assert((x + y).drop_last() =~= x + y.drop_last());
        assert(nonempty_pieces(x + y) =~= nonempty_pieces(x) + nonempty_pieces(y));
    }
}

/// The non-empty pieces are pieces of the list.
pub proof fn lemma_nonempty_members(ps: Seq<Seq<char>>)
    ensures
        forall|k: int|
            0 <= k < nonempty_pieces(ps).len() ==> ps.contains(#[trigger] nonempty_pieces(ps)[k]),
    decreases ps.len(),
{
    if ps.len() > 0 {
        lemma_nonempty_members(ps.drop_last());
        let r = nonempty_pieces(ps.drop_last());
        assert forall|k: int| 0 <= k < nonempty_pieces(ps).len() implies ps.contains(
            #[trigger] nonempty_pieces(ps)[k],
        ) by {
            if k < r.len() {
                let j = choose|j: int| 0 <= j < ps.drop_last().len() && ps.drop_last()[j] == r[k];
                assert(ps[j] == r[k]);
            } else {
                assert(ps[ps.len() - 1] == ps.last());
            }
        }
    }
}

/// Trimming the front keeps only characters of the text.
pub proof fn lemma_trim_start_chars(s: Seq<char>, cls: CharClass, c: char)
    ensures
        has_char(trim_start(s, cls), c) ==> has_char(s, c),
    decreases s.len(),
{
    if s.len() > 0 && in_class(cls, s[0]) {
        lemma_trim_start_chars(s.drop_first(), cls, c);
        if has_char(s.drop_first(), c) {
            let i = choose|i: int| 0 <= i < s.drop_first().len() && s.drop_first()[i] == c;
            assert(s[i + 1] == c);
        }
    }
}

/// Trimming the end keeps only characters of the text.
pub proof fn lemma_trim_end_chars(s: Seq<char>, cls: CharClass, c: char)
    ensures
        has_char(trim_end(s, cls), c) ==> has_char(s, c),
    decreases s.len(),
{
    if s.len() > 0 && in_class(cls, s.last()) {
        lemma_trim_end_chars(s.drop_last(), cls, c);
        if has_char(s.drop_last(), c) {
            let i = choose|i: int| 0 <= i < s.drop_last().len() && s.drop_last()[i] == c;
            assert(s[i] == c);
        }
    }
}

/// A character of the class in front is trimmed away.
pub proof fn lemma_trim_start_prepend(c: char, s: Seq<char>, cls: CharClass)
    requires
        in_class(cls, c),
    ensures
        trim_start(seq![c] + s, cls) == trim_start(s, cls),
{
    assert((seq![c] + s).drop_first() =~= s);
}

/// A character of the class at the end is trimmed away.
pub proof fn lemma_trim_end_append(s: Seq<char>, c: char, cls: CharClass)
    requires
        in_class(cls, c),
    ensures
        trim_end(s.push(c), cls) == trim_end(s, cls),
{
    assert(s.push(c).drop_last() =~= s);
}

/// Trimming the front of a text that ends with a character outside the
/// class keeps that end.
pub proof fn lemma_trim_start_append(s: Seq<char>, c: char, cls: CharClass)
    requires
        !in_class(cls, c),
    ensures
        trim_start(s.push(c), cls) == trim_start(s, cls).push(c),
    decreases s.len(),
{
    if s.len() > 0 && in_class(cls, s[0]) {
        assert(s.push(c).drop_first() =~= s.drop_first().push(c));
        lemma_trim_start_append(s.drop_first(), c, cls);
    } else if s.len() == 0 {
        assert(s.push(c)[0] == c);
    } else {
        assert(s.push(c)[0] == s[0]);
    }
}

/// A character of the class at the end does not change the trimmed text.
pub proof fn lemma_trim_both_append(s: Seq<char>, c: char, cls: CharClass)
    requires
        in_class(cls, c),
    ensures
        trim_both(s.push(c), cls) == trim_both(s, cls),
    decreases s.len(),
{
    if s.len() > 0 && in_class(cls, s[0]) {
        assert(s.push(c).drop_first() =~= s.drop_first().push(c));
        lemma_trim_both_append(s.drop_first(), c, cls);
    } else if s.len() == 0 {
        let one = s.push(c);
        assert(one[0] == c);
        assert(one.drop_first() =~= Seq::<char>::empty());
        assert(trim_start(Seq::<char>::empty(), cls) == Seq::<char>::empty());
        assert(trim_start(one, cls) =~= Seq::<char>::empty());
        assert(s =~= Seq::<char>::empty());
    } else {
        assert(s.push(c)[0] == s[0]);
        lemma_trim_end_append(s, c, cls);
    }
}

/// What occurs in a piece of `a` occurs in `a`.
pub proof fn lemma_infix_trans(a: Seq<char>, b: Seq<char>, c: Seq<char>)
    requires
        has_infix(a, b),
        has_infix(b, c),
    ensures
        has_infix(a, c),
{
    let i = choose|i: int| occurs_at(a, b, i);
    let j = choose|j: int| occurs_at(b, c, j);
    assert(a.subrange(i + j, i + j + c.len()) =~= b.subrange(j, j + c.len()));
    assert(occurs_at(a, c, i + j));
}

/// The end of `s` from position `n` on occurs in `s`.
pub proof fn lemma_skip_infix(s: Seq<char>, n: int)
    requires
        0 <= n <= s.len(),
    ensures
        has_infix(s, s.skip(n)),
{
    assert(s.subrange(n, n + s.skip(n).len()) =~= s.skip(n));
    assert(occurs_at(s, s.skip(n), n));
}

/// A prefix of `s` occurs in `s`.
pub proof fn lemma_prefix_infix(s: Seq<char>, p: Seq<char>)
    requires
        has_prefix(s, p),
    ensures
        has_infix(s, p),
{
    assert(s.subrange(0, p.len() as int) =~= s.take(p.len() as int));
    assert(occurs_at(s, p, 0));
}

/// Trimming the front leaves a piece of the text that does not start with a
/// character of the class.
pub proof fn lemma_trim_start_infix(s: Seq<char>, cls: CharClass)
    ensures
        has_infix(s, trim_start(s, cls)),
        trim_start(s, cls).len() > 0 ==> !in_class(cls, trim_start(s, cls)[0]),
    decreases s.len(),
{
    if s.len() > 0 && in_class(cls, s[0]) {
        lemma_trim_start_infix(s.drop_first(), cls);
        lemma_skip_infix(s, 1);
        assert(s.skip(1) =~= s.drop_first());
        lemma_infix_trans(s, s.drop_first(), trim_start(s, cls));
    } else {
        lemma_skip_infix(s, 0);
        assert(s.skip(0) =~= s);
    }
}

/// Trimming the end leaves a prefix of the text that does not end with a
/// character of the class.
pub proof fn lemma_trim_end_prefix(s: Seq<char>, cls: CharClass)
    ensures
        has_prefix(s, trim_end(s, cls)),
        trim_end(s, cls).len() > 0 ==> !in_class(cls, trim_end(s, cls).last()),
    decreases s.len(),
{
    if s.len() > 0 && in_class(cls, s.last()) {
        lemma_trim_end_prefix(s.drop_last(), cls);
        let t = trim_end(s, cls);
        assert(s.take(t.len() as int) =~= s.drop_last().take(t.len() as int));
    } else {
        assert(s.take(s.len() as int) =~= s);
    }
}

/// Every piece of `s` occurs in `s`, and the last piece ends `s`.
pub proof fn lemma_split_by_infix(s: Seq<char>, cls: CharClass)
    ensures
        forall|k: int|
            0 <= k < split_by(s, cls).len() ==> has_infix(s, #[trigger] split_by(s, cls)[k]),
        split_by(s, cls).last().len() <= s.len(),
        s.skip(s.len() - split_by(s, cls).last().len()) == split_by(s, cls).last(),
    decreases s.len(),
{
    lemma_split_by_nonempty(s, cls);
    if s.len() == 0 {
        let e = Seq::<char>::empty();
        assert(split_by(s, cls) =~= seq![e]);
        assert(s.subrange(0, 0) =~= e);
        assert(occurs_at(s, e, 0));
        assert(s.skip(0) =~= e);
    } else {
        let t = s.drop_last();
        lemma_split_by_infix(t, cls);
        lemma_split_by_nonempty(t, cls);
        let r = split_by(t, cls);
        lemma_skip_infix(s, 0);
        assert(has_prefix(s, t)) by {
            assert(s.take(t.len() as int) =~= t);
        }
        lemma_prefix_infix(s, t);
        if in_class(cls, s.last()) {
            let e = Seq::<char>::empty();
            assert forall|k: int| 0 <= k < split_by(s, cls).len() implies has_infix(
                s,
                #[trigger] split_by(s, cls)[k],
            ) by {
                if k < r.len() {
                    assert(split_by(s, cls)[k] == r[k]);
                    assert(has_infix(t, r[k]));
                    lemma_infix_trans(s, t, r[k]);
                } else {
                    assert(split_by(s, cls)[k] == e);
                    assert(s.subrange(0, 0) =~= e);
                    assert(occurs_at(s, e, 0));
                }
            }
            assert(s.skip(s.len() as int) =~= e);
        } else {
            let l = r.last();
            let nl = l.push(s.last());
            assert(s.skip(s.len() - nl.len()) =~= nl) by {
                assert(t.skip(t.len() - l.len()) == l);
            }
            assert forall|k: int| 0 <= k < split_by(s, cls).len() implies has_infix(
                s,
                #[trigger] split_by(s, cls)[k],
            ) by {
                if k < r.len() - 1 {
                    assert(split_by(s, cls)[k] == r[k]);
                    assert(has_infix(t, r[k]));
                    lemma_infix_trans(s, t, r[k]);
                } else {
                    assert(split_by(s, cls)[k] == nl);
                    lemma_skip_infix(s, s.len() - nl.len());
                }
            }
        }
    }
}

} // verus!
