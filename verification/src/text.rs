//! Character classes and small string operations shared by the lexers.

use vstd::prelude::*;
use vstd::string::StrSliceExecFns;

verus! {

/// `char::is_ascii_whitespace`: space, tab, line feed, form feed, carriage return.
pub open spec fn is_ascii_ws(c: char) -> bool {
    c == ' ' || c == '\t' || c == '\n' || c == '\x0C' || c == '\r'
}

/// `char::is_ascii_alphabetic`.
pub open spec fn is_ascii_alpha(c: char) -> bool {
    ('a' <= c && c <= 'z') || ('A' <= c && c <= 'Z')
}

/// `char::is_ascii_digit`.
pub open spec fn is_ascii_digit(c: char) -> bool {
    '0' <= c && c <= '9'
}

/// `char::is_ascii_alphanumeric`.
pub open spec fn is_ascii_alnum(c: char) -> bool {
    is_ascii_alpha(c) || is_ascii_digit(c)
}

/// A character that may start an identifier: `_` or an ASCII letter.
pub open spec fn is_word_start(c: char) -> bool {
    c == '_' || is_ascii_alpha(c)
}

/// A character that may continue an identifier: `_`, an ASCII letter or digit.
pub open spec fn is_word_char(c: char) -> bool {
    c == '_' || is_ascii_alnum(c)
}

/// Every character of `s` is ASCII whitespace (true of the empty text).
pub open spec fn all_ws(s: Seq<char>) -> bool {
    forall|i: int| 0 <= i < s.len() ==> #[trigger] is_ascii_ws(s[i])
}

/// Every character of `s` may start an identifier.
pub open spec fn all_word_start(s: Seq<char>) -> bool {
    forall|i: int| 0 <= i < s.len() ==> #[trigger] is_word_start(s[i])
}

/// Every character of `s` may continue an identifier.
pub open spec fn all_word_char(s: Seq<char>) -> bool {
    forall|i: int| 0 <= i < s.len() ==> #[trigger] is_word_char(s[i])
}

/// The one character that `s` consists of, if it is exactly one character
/// (what `char::from_str` accepts).
pub open spec fn single_char_of(s: Seq<char>) -> Option<char> {
    if s.len() == 1 { Some(s[0]) } else { None }
}

pub fn is_ws_char(c: char) -> (b: bool)
    ensures b == is_ascii_ws(c),
{
    c == ' ' || c == '\t' || c == '\n' || c == '\x0C' || c == '\r'
}

pub fn is_digit_char(c: char) -> (b: bool)
    ensures b == is_ascii_digit(c),
{
    '0' <= c && c <= '9'
}

pub fn is_word_start_char(c: char) -> (b: bool)
    ensures b == is_word_start(c),
{
    c == '_' || ('a' <= c && c <= 'z') || ('A' <= c && c <= 'Z')
}

pub fn is_word_char_char(c: char) -> (b: bool)
    ensures b == is_word_char(c),
{
    is_word_start_char(c) || is_digit_char(c)
}

/// Whether every character of `g` is ASCII whitespace.
pub fn all_whitespace(g: &str) -> (b: bool)
    ensures b == all_ws(g@),
{
    let n = g.unicode_len();
    let mut i: usize = 0;
    while i < n
        invariant
            n == g@.len(),
            i <= n,
            forall|j: int| 0 <= j < i ==> #[trigger] is_ascii_ws(g@[j]),
        decreases n - i,
    {
        if !is_ws_char(g.get_char(i)) {
            return false;
        }
        i = i + 1;
    }
    true
}

/// Whether every character of `g` may start an identifier.
pub fn all_word_starts(g: &str) -> (b: bool)
    ensures b == all_word_start(g@),
{
    let n = g.unicode_len();
    let mut i: usize = 0;
    while i < n
        invariant
            n == g@.len(),
            i <= n,
            forall|j: int| 0 <= j < i ==> #[trigger] is_word_start(g@[j]),
        decreases n - i,
    {
        if !is_word_start_char(g.get_char(i)) {
            return false;
        }
        i = i + 1;
    }
    true
}

/// Whether every character of `g` may continue an identifier.
pub fn all_word_chars(g: &str) -> (b: bool)
    ensures b == all_word_char(g@),
{
    let n = g.unicode_len();
    let mut i: usize = 0;
    while i < n
        invariant
            n == g@.len(),
            i <= n,
            forall|j: int| 0 <= j < i ==> #[trigger] is_word_char(g@[j]),
        decreases n - i,
    {
        if !is_word_char_char(g.get_char(i)) {
            return false;
        }
        i = i + 1;
    }
    true
}

/// `char::from_str(g).ok()`: the character `g` consists of, if exactly one.
pub fn single_char(g: &str) -> (r: Option<char>)
    ensures r == single_char_of(g@),
{
    if g.unicode_len() == 1 {
        Some(g.get_char(0))
    } else {
        None
    }
}

/// `String::push`: appends one character.
#[verifier::external_body]
pub(crate) fn push_char(s: &mut String, c: char)
    ensures
        final(s)@ == old(s)@.push(c),
{
    s.push(c);
}

/// Moves the contents out of `s`, leaving it empty.
pub fn take_string(s: &mut String) -> (r: String)
    ensures
        r@ == old(s)@,
        final(s)@ == Seq::<char>::empty(),
{
    let mut r = String::new();
    std::mem::swap(&mut r, s);
    r
}

/// A one-character string.
pub fn string_of_char(c: char) -> (r: String)
    ensures
        r@ == seq![c],
{
    let mut r = String::new();
    push_char(&mut r, c);
    r
}

/// The characters of `s`, in order.
pub fn chars_of(s: &str) -> (v: Vec<char>)
    ensures
        v@ == s@,
{
    let mut v: Vec<char> = Vec::new();
    for c in it: s.chars()
        invariant
            v@ == it.seq().take(it.index() as int),
    {
        v.push(c);
    }
    v
}

/// `s` without one trailing carriage return, if it has one.
pub open spec fn strip_cr(x: Seq<char>) -> Seq<char> {
    if x.len() > 0 && x.last() == '\r' { x.drop_last() } else { x }
}

/// Scans `s` from the left: the lines ended so far (each without its `\n`
/// and without one `\r` before it) and the text of the line still open.
pub open spec fn line_scan(s: Seq<char>) -> (Seq<Seq<char>>, Seq<char>)
    decreases s.len(),
{
    if s.len() == 0 {
        (seq![], seq![])
    } else {
        let (ls, cur) = line_scan(s.drop_last());
        if s.last() == '\n' {
            (ls.push(strip_cr(cur)), seq![])
        } else {
            (ls, cur.push(s.last()))
        }
    }
}

/// `str::lines`: lines end at `\n` or `\r\n`, which are not part of them; the
/// final line ending is optional, and a last line without one keeps a
/// trailing `\r`.
pub open spec fn text_lines(s: Seq<char>) -> Seq<Seq<char>> {
    let (ls, cur) = line_scan(s);
    if cur.len() > 0 { ls.push(cur) } else { ls }
}

/// Scans `s` from the left: the pieces ended so far, each with its `\n`,
/// and the piece still open.
pub open spec fn piece_scan(s: Seq<char>) -> (Seq<Seq<char>>, Seq<char>)
    decreases s.len(),
{
    if s.len() == 0 {
        (seq![], seq![])
    } else {
        let (ps, cur) = piece_scan(s.drop_last());
        if s.last() == '\n' {
            (ps.push(cur.push('\n')), seq![])
        } else {
            (ps, cur.push(s.last()))
        }
    }
}

/// The pieces that successive `BufRead::read_line` calls return from `s`:
/// each ends with its `\n`, except perhaps the last, and none is empty.
pub open spec fn text_pieces(s: Seq<char>) -> Seq<Seq<char>> {
    let (ps, cur) = piece_scan(s);
    if cur.len() > 0 { ps.push(cur) } else { ps }
}

/// A string holding `v[from..to]`.
pub fn string_of_range(v: &Vec<char>, from: usize, to: usize) -> (r: String)
    requires
        from <= to <= v@.len(),
    ensures
        r@ == v@.subrange(from as int, to as int),
{
    let mut r = String::new();
    let mut i = from;
    while i < to
        invariant
            from <= i <= to <= v@.len(),
            r@ == v@.subrange(from as int, i as int),
        decreases to - i,
    {
        push_char(&mut r, v[i]);
        assert(v@.subrange(from as int, i + 1) == v@.subrange(from as int, i as int).push(v@[i as int]));
        i = i + 1;
    }
    r
}

/// `s.lines()`, collected.
pub fn lines_of(s: &str) -> (res: Vec<String>)
    ensures
        res@.map_values(|l: String| l@) == text_lines(s@),
{
    let chars = chars_of(s);
    let n = chars.len();
    let mut res: Vec<String> = Vec::new();
    let mut start: usize = 0;
    let mut i: usize = 0;
    while i < n
        invariant
            n == chars@.len(),
            chars@ == s@,
            start <= i <= n,
            line_scan(s@.take(i as int)) == (
                res@.map_values(|l: String| l@),
                s@.subrange(start as int, i as int),
            ),
        decreases n - i,
    {
        assert(s@.take(i + 1).drop_last() == s@.take(i as int));
        if chars[i] == '\n' {
            let end = if i > start && chars[i - 1] == '\r' { i - 1 } else { i };
            let line = string_of_range(&chars, start, end);
            proof {
                let cur = s@.subrange(start as int, i as int);
                if i > start && chars@[i - 1] == '\r' {
                    assert(cur.drop_last() == s@.subrange(start as int, end as int));
                }
            }
            res.push(line);
            start = i + 1;
        } else {
            assert(s@.subrange(start as int, i + 1) == s@.subrange(start as int, i as int).push(s@[i as int]));
        }
        i = i + 1;
        assert(res@.map_values(|l: String| l@) == line_scan(s@.take(i as int)).0);
    }
    assert(s@.take(n as int) == s@);
    if start < n {
        let line = string_of_range(&chars, start, n);
        res.push(line);
    }
    assert(res@.map_values(|l: String| l@) == text_lines(s@));
    res
}

/// The pieces that `read_line` would return from `s`, collected.
pub fn pieces_of(s: &str) -> (res: Vec<String>)
    ensures
        res@.map_values(|l: String| l@) == text_pieces(s@),
{
    let chars = chars_of(s);
    let n = chars.len();
    let mut res: Vec<String> = Vec::new();
    let mut start: usize = 0;
    let mut i: usize = 0;
    while i < n
        invariant
            n == chars@.len(),
            chars@ == s@,
            start <= i <= n,
            piece_scan(s@.take(i as int)) == (
                res@.map_values(|l: String| l@),
                s@.subrange(start as int, i as int),
            ),
        decreases n - i,
    {
        assert(s@.take(i + 1).drop_last() == s@.take(i as int));
        assert(s@.subrange(start as int, i + 1) == s@.subrange(start as int, i as int).push(s@[i as int]));
        if chars[i] == '\n' {
            let piece = string_of_range(&chars, start, i + 1);
            res.push(piece);
            start = i + 1;
        }
        i = i + 1;
        assert(res@.map_values(|l: String| l@) == piece_scan(s@.take(i as int)).0);
    }
    assert(s@.take(n as int) == s@);
    if start < n {
        let piece = string_of_range(&chars, start, n);
        res.push(piece);
    }
    assert(res@.map_values(|l: String| l@) == text_pieces(s@));
    res
}

/// Whether two character vectors hold the same characters.
pub fn same_chars(a: &Vec<char>, b: &Vec<char>) -> (r: bool)
    ensures
        r == (a@ == b@),
{
    if a.len() != b.len() {
        return false;
    }
    let mut i: usize = 0;
    while i < a.len()
        invariant
            a@.len() == b@.len(),
            i <= a@.len(),
            forall|j: int| 0 <= j < i ==> a@[j] == b@[j],
        decreases a@.len() - i,
    {
        if a[i] != b[i] {
            return false;
        }
        i = i + 1;
    }
    assert(a@ == b@);
    true
}

proof fn lemma_piece_scan(s: Seq<char>)
    ensures
        piece_scan(s).0.flatten() + piece_scan(s).1 == s,
    decreases s.len(),
{
    if s.len() > 0 {
        lemma_piece_scan(s.drop_last());
        let (ps, cur) = piece_scan(s.drop_last());
        assert(s == s.drop_last().push(s.last()));
        if s.last() == '\n' {
            ps.lemma_flatten_push(cur.push('\n'));
            assert(ps.flatten() + cur.push('\n') == (ps.flatten() + cur).push('\n'));
        } else {
            assert(ps.flatten() + cur.push(s.last()) == (ps.flatten() + cur).push(s.last()));
        }
    }
}

/// The pieces that `read_line` returns, joined together, give back the text.
pub proof fn lemma_pieces_flatten(s: Seq<char>)
    ensures
        text_pieces(s).flatten() == s,
{
    lemma_piece_scan(s);
    let (ps, cur) = piece_scan(s);
    if cur.len() > 0 {
        ps.lemma_flatten_push(cur);
    } else {
        assert(ps.flatten() + cur == ps.flatten());
    }
}

/// The decimal digit for `d < 10`.
pub open spec fn digit_char(d: nat) -> char {
    ('0' as int + d) as char
}

/// The decimal notation of `n`, as `Display` writes it.
pub open spec fn decimal(n: nat) -> Seq<char>
    decreases n,
{
    if n < 10 {
        seq![digit_char(n)]
    } else {
        decimal(n / 10).push(digit_char(n % 10))
    }
}

/// The decimal notation of `n`.
pub fn decimal_string(n: usize) -> (s: String)
    ensures
        s@ == decimal(n as nat),
    decreases n,
{
    let d = ((n % 10) as u8 + 48u8) as char;
    assert(d == digit_char((n % 10) as nat));
    if n < 10 {
        string_of_char(d)
    } else {
        let mut s = decimal_string(n / 10);
        push_char(&mut s, d);
        s
    }
}

} // verus!
