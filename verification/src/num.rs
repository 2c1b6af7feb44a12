//! Number syntax: `u64::from_str` and the syntax that `f64::from_str` accepts.

use crate::text::{is_ascii_digit, is_digit_char};
use vstd::prelude::*;

verus! {

/// Why a text is not a `u64` (the cases of `std::num::IntErrorKind` that an
/// unsigned parse can give).
#[derive(Debug, PartialEq, Eq, Clone, Copy, Structural)]
pub enum IntErrorKind {
    /// The text is empty.
    Empty,
    /// A character is not a decimal digit.
    InvalidDigit,
    /// The value does not fit in a `u64`.
    PosOverflow,
}

/// Why a text is not a float literal (the cases of `std::num::ParseFloatError`).
#[derive(Debug, PartialEq, Eq, Clone, Copy, Structural)]
pub enum FloatErrorKind {
    /// The text is empty.
    Empty,
    /// The text is not a float literal.
    Invalid,
}

/// The value of a decimal digit.
pub open spec fn digit_value(c: char) -> int {
    c as int - '0' as int
}

/// The decimal digits of `s` read from the left, stopping at the first
/// character that is no digit or at which the value would exceed `u64::MAX`.
pub open spec fn digits_value(s: Seq<char>) -> Result<u64, IntErrorKind>
    decreases s.len(),
{
    if s.len() == 0 {
        Ok(0)
    } else {
        match digits_value(s.drop_last()) {
            Err(e) => Err(e),
            Ok(v) => if !is_ascii_digit(s.last()) {
                Err(IntErrorKind::InvalidDigit)
            } else if v * 10 + digit_value(s.last()) > u64::MAX {
                Err(IntErrorKind::PosOverflow)
            } else {
                Ok((v * 10 + digit_value(s.last())) as u64)
            },
        }
    }
}

/// `u64::from_str`: an optional `+` followed by decimal digits.
pub open spec fn parse_u64_spec(s: Seq<char>) -> Result<u64, IntErrorKind> {
    if s.len() == 0 {
        Err(IntErrorKind::Empty)
    } else if s.len() == 1 && (s[0] == '+' || s[0] == '-') {
        Err(IntErrorKind::InvalidDigit)
    } else if s[0] == '+' {
        digits_value(s.drop_first())
    } else {
        digits_value(s)
    }
}

/// `u64::from_str` on the characters `v[from..to]`.
pub fn parse_u64(v: &Vec<char>, from: usize, to: usize) -> (r: Result<u64, IntErrorKind>)
    requires
        from <= to <= v@.len(),
    ensures
        r == parse_u64_spec(v@.subrange(from as int, to as int)),
{
    let ghost s = v@.subrange(from as int, to as int);
    if from == to {
        return Err(IntErrorKind::Empty);
    }
    let mut i = from;
    if v[from] == '+' || v[from] == '-' {
        if to - from == 1 {
            return Err(IntErrorKind::InvalidDigit);
        }
        if v[from] == '+' {
            i = from + 1;
        }
    }
    let ghost t = v@.subrange(i as int, to as int);
    assert(t == (if s[0] == '+' { s.drop_first() } else { s }));
    assert(parse_u64_spec(s) == digits_value(t));
    let start = i;
    let mut acc: u64 = 0;
    while i < to
        invariant
            from <= start <= i <= to <= v@.len(),
            t == v@.subrange(start as int, to as int),
            parse_u64_spec(s) == digits_value(t),
            s == v@.subrange(from as int, to as int),
            digits_value(t.take(i - start)) == Ok::<u64, IntErrorKind>(acc),
        decreases to - i,
    {
        let c = v[i];
        assert(t.take(i - start + 1).drop_last() == t.take(i - start));
        assert(t.take(i - start + 1).last() == c);
        if !is_digit_char(c) {
            proof { lemma_digits_error_extends(t, (i - start + 1) as int); }
            return Err(IntErrorKind::InvalidDigit);
        }
        let d = (c as u32 - '0' as u32) as u64;
        if acc > (u64::MAX - d) / 10 {
            proof { lemma_digits_error_extends(t, (i - start + 1) as int); }
            return Err(IntErrorKind::PosOverflow);
        }
        acc = acc * 10 + d;
        i = i + 1;
    }
    assert(t.take(t.len() as int) == t);
    Ok(acc)
}

/// Once a prefix of `s` fails to read as digits, `s` fails the same way.
pub proof fn lemma_digits_error_extends(s: Seq<char>, k: int)
    requires
        0 <= k <= s.len(),
        digits_value(s.take(k)) is Err,
    ensures
        digits_value(s) == digits_value(s.take(k)),
    decreases s.len() - k,
{
    if k < s.len() {
        assert(s.take(k + 1).drop_last() == s.take(k));
        lemma_digits_error_extends(s, k + 1);
    } else {
        assert(s.take(k) == s);
    }
}

/// Ten to the power `n`.
pub open spec fn pow10(n: nat) -> nat
    decreases n,
{
    if n == 0 { 1 } else { 10 * pow10((n - 1) as nat) }
}

/// `10u64.checked_pow(e)`.
pub open spec fn checked_pow10_spec(e: nat) -> Option<u64> {
    if pow10(e) <= u64::MAX { Some(pow10(e) as u64) } else { None }
}

proof fn lemma_pow10_monotonic(a: nat, b: nat)
    requires
        a <= b,
    ensures
        pow10(a) <= pow10(b),
    decreases b,
{
    if a < b {
        lemma_pow10_monotonic(a, (b - 1) as nat);
    }
}

proof fn lemma_pow10_bounds()
    ensures
        pow10(19) <= u64::MAX,
        pow10(20) > u64::MAX,
{
    reveal_with_fuel(pow10, 21);
}

/// `10u64.checked_pow(e)`.
pub fn checked_pow10(e: u32) -> (r: Option<u64>)
    ensures
        r == checked_pow10_spec(e as nat),
{
    proof { lemma_pow10_bounds(); }
    if e > 19 {
        proof { lemma_pow10_monotonic(20, e as nat); }
        return None;
    }
    let mut r: u64 = 1;
    let mut k: u32 = 0;
    while k < e
        invariant
            k <= e <= 19,
            r as nat == pow10(k as nat),
            pow10(19) <= u64::MAX,
        decreases e - k,
    {
        proof { lemma_pow10_monotonic((k + 1) as nat, 19); }
        r = r * 10;
        k = k + 1;
    }
    Some(r)
}

/// `s` without one leading `+` or `-`.
pub open spec fn strip_sign(s: Seq<char>) -> Seq<char> {
    if s.len() > 0 && (s[0] == '+' || s[0] == '-') { s.drop_first() } else { s }
}

/// ASCII lower case of a character.
pub open spec fn ascii_lower(c: char) -> char {
    if 'A' <= c && c <= 'Z' { ((c as u32) + 32) as char } else { c }
}

/// Equal to `w` ignoring ASCII case (`w` is lower case).
pub open spec fn eq_ignore_case(t: Seq<char>, w: Seq<char>) -> bool {
    t.len() == w.len() && forall|i: int| 0 <= i < t.len() ==> #[trigger] ascii_lower(t[i]) == w[i]
}

/// `inf`, `infinity` or `nan`, in any ASCII case.
pub open spec fn is_special_float(t: Seq<char>) -> bool {
    ||| eq_ignore_case(t, seq!['i', 'n', 'f'])
    ||| eq_ignore_case(t, seq!['i', 'n', 'f', 'i', 'n', 'i', 't', 'y'])
    ||| eq_ignore_case(t, seq!['n', 'a', 'n'])
}

/// Where the exponent marker `e` or `E` first stands in `t`, or `t.len()`.
pub open spec fn exponent_start(t: Seq<char>) -> int
    decreases t.len(),
{
    if t.len() == 0 {
        0
    } else if t[0] == 'e' || t[0] == 'E' {
        0
    } else {
        1 + exponent_start(t.drop_first())
    }
}

/// Digits with at most one `.`, and at least one digit.
pub open spec fn is_mantissa(m: Seq<char>) -> bool {
    &&& forall|i: int| 0 <= i < m.len() ==> is_ascii_digit(#[trigger] m[i]) || m[i] == '.'
    &&& forall|i: int, j: int| 0 <= i < m.len() && 0 <= j < m.len() && #[trigger] m[i] == '.' && #[trigger] m[j] == '.' ==> i == j
    &&& exists|i: int| 0 <= i < m.len() && is_ascii_digit(#[trigger] m[i])
}

/// An optional sign, then at least one digit.
pub open spec fn is_exponent(x: Seq<char>) -> bool {
    let y = strip_sign(x);
    &&& y.len() > 0
    &&& forall|i: int| 0 <= i < y.len() ==> is_ascii_digit(#[trigger] y[i])
}

/// The grammar that `f64::from_str` accepts:
/// `Sign? ('inf' | 'infinity' | 'nan' | Mantissa ('e' Exponent)?)`, where
/// `Mantissa` is digits with at most one `.` and at least one digit.
pub open spec fn is_float_literal(s: Seq<char>) -> bool {
    let t = strip_sign(s);
    let k = exponent_start(t);
    ||| is_special_float(t)
    ||| is_mantissa(t.take(k)) && (k == t.len() || is_exponent(t.skip(k + 1)))
}

/// Whether `f64::from_str` accepts `s`, and if not, why.
pub open spec fn float_check_spec(s: Seq<char>) -> Result<(), FloatErrorKind> {
    if s.len() == 0 {
        Err(FloatErrorKind::Empty)
    } else if is_float_literal(s) {
        Ok(())
    } else {
        Err(FloatErrorKind::Invalid)
    }
}

/// Whether `v[from..to]` is a mantissa: digits with at most one `.`, and at
/// least one digit.
fn check_mantissa(v: &Vec<char>, from: usize, to: usize) -> (b: bool)
    requires
        from <= to <= v@.len(),
    ensures
        b == is_mantissa(v@.subrange(from as int, to as int)),
{
    let ghost m = v@.subrange(from as int, to as int);
    let mut i = from;
    let mut dot_at: Option<usize> = None;
    let mut digit_seen = false;
    while i < to
        invariant
            from <= i <= to <= v@.len(),
            m == v@.subrange(from as int, to as int),
            forall|j: int| 0 <= j < i - from ==> is_ascii_digit(#[trigger] m[j]) || m[j] == '.',
            match dot_at {
                None => forall|j: int| 0 <= j < i - from ==> #[trigger] m[j] != '.',
                Some(d) => from <= d < i && m[d - from] == '.' && forall|j: int|
                    0 <= j < i - from && #[trigger] m[j] == '.' ==> j == d - from,
            },
            digit_seen == exists|j: int| 0 <= j < i - from && is_ascii_digit(#[trigger] m[j]),
        decreases to - i,
    {
        let c = v[i];
        assert(m[i - from] == c);
        if c == '.' {
            if dot_at.is_some() {
                let d = dot_at.unwrap();
                assert(m[d - from] == '.' && m[i - from] == '.' && d != i);
                return false;
            }
            dot_at = Some(i);
        } else if is_digit_char(c) {
            digit_seen = true;
        } else {
            return false;
        }
        i = i + 1;
    }
    digit_seen
}

/// Whether `v[from..to]` is an exponent: an optional sign, then at least one digit.
fn check_exponent(v: &Vec<char>, from: usize, to: usize) -> (b: bool)
    requires
        from <= to <= v@.len(),
    ensures
        b == is_exponent(v@.subrange(from as int, to as int)),
{
    let ghost x = v@.subrange(from as int, to as int);
    let mut i = from;
    if i < to && (v[i] == '+' || v[i] == '-') {
        i = i + 1;
    }
    let ghost y = v@.subrange(i as int, to as int);
    assert(y == strip_sign(x));
    if i == to {
        return false;
    }
    let start = i;
    while i < to
        invariant
            start <= i <= to <= v@.len(),
            y == v@.subrange(start as int, to as int),
            y == strip_sign(v@.subrange(from as int, to as int)),
            y.len() > 0,
            forall|j: int| 0 <= j < i - start ==> is_ascii_digit(#[trigger] y[j]),
        decreases to - i,
    {
        assert(y[i - start] == v@[i as int]);
        if !is_digit_char(v[i]) {
            return false;
        }
        i = i + 1;
    }
    true
}

/// Whether `v[from..]` equals the lower-case `w` ignoring ASCII case.
fn matches_ignore_case(v: &Vec<char>, from: usize, w: &Vec<char>) -> (b: bool)
    requires
        from <= v@.len(),
    ensures
        b == eq_ignore_case(v@.skip(from as int), w@),
{
    let ghost t = v@.skip(from as int);
    let n = v.len();
    if n - from != w.len() {
        return false;
    }
    let mut i: usize = 0;
    while i < w.len()
        invariant
            from <= v@.len(),
            t == v@.skip(from as int),
            t.len() == w@.len(),
            from + w@.len() == v@.len(),
            n == v@.len(),
            i <= w@.len(),
            forall|j: int| 0 <= j < i ==> #[trigger] ascii_lower(t[j]) == w@[j],
        decreases w@.len() - i,
    {
        let c = v[from + i];
        let lc = if 'A' <= c && c <= 'Z' { ((c as u8) + 32) as char } else { c };
        assert(lc == ascii_lower(t[i as int]));
        if lc != w[i] {
            return false;
        }
        i = i + 1;
    }
    true
}

proof fn lemma_exponent_start(t: Seq<char>, m: int)
    requires
        0 <= m <= t.len(),
        forall|j: int| 0 <= j < m ==> #[trigger] t[j] != 'e' && t[j] != 'E',
        m == t.len() || t[m] == 'e' || t[m] == 'E',
    ensures
        exponent_start(t) == m,
    decreases m,
{
    if m > 0 {
        assert(t[0] != 'e' && t[0] != 'E');
        let u = t.drop_first();
        assert forall|j: int| 0 <= j < m - 1 implies #[trigger] u[j] != 'e' && u[j] != 'E' by {
            assert(u[j] == t[j + 1]);
        }
        lemma_exponent_start(u, m - 1);
    }
}

/// Whether `f64::from_str` accepts the characters `v`, and if not, why.
pub fn float_check(v: &Vec<char>) -> (r: Result<(), FloatErrorKind>)
    ensures
        r == float_check_spec(v@),
{
    let n = v.len();
    if n == 0 {
        return Err(FloatErrorKind::Empty);
    }
    let start: usize = if v[0] == '+' || v[0] == '-' { 1 } else { 0 };
    let ghost t = strip_sign(v@);
    assert(t == v@.skip(start as int));
    let inf = vec!['i', 'n', 'f'];
    let infinity = vec!['i', 'n', 'f', 'i', 'n', 'i', 't', 'y'];
    let nan = vec!['n', 'a', 'n'];
    if matches_ignore_case(v, start, &inf) || matches_ignore_case(v, start, &infinity)
        || matches_ignore_case(v, start, &nan) {
        return Ok(());
    }
    let mut k = start;
    while k < n && v[k] != 'e' && v[k] != 'E'
        invariant
            start <= k <= n == v@.len(),
            t == v@.skip(start as int),
            forall|j: int| 0 <= j < k - start ==> #[trigger] t[j] != 'e' && t[j] != 'E',
        decreases n - k,
    {
        assert(t[k - start] == v@[k as int]);
        k = k + 1;
    }
    proof {
        if k < n {
            assert(t[k - start] == v@[k as int]);
        }
        lemma_exponent_start(t, k - start);
        assert(t.take(k - start) == v@.subrange(start as int, k as int));
    }
    if !check_mantissa(v, start, k) {
        return Err(FloatErrorKind::Invalid);
    }
    if k == n {
        return Ok(());
    }
    assert(t.skip(k - start + 1) == v@.subrange(k + 1, n as int));
    if check_exponent(v, k + 1, n) {
        Ok(())
    } else {
        Err(FloatErrorKind::Invalid)
    }
}

/// What `Display` writes for a `std::num::ParseIntError` of this kind.
pub open spec fn int_error_message(e: IntErrorKind) -> Seq<char> {
    match e {
        IntErrorKind::Empty => "cannot parse integer from empty string"@,
        IntErrorKind::InvalidDigit => "invalid digit found in string"@,
        IntErrorKind::PosOverflow => "number too large to fit in target type"@,
    }
}

/// What `Display` writes for a `std::num::ParseFloatError` of this kind.
pub open spec fn float_error_message(e: FloatErrorKind) -> Seq<char> {
    match e {
        FloatErrorKind::Empty => "cannot parse float from empty string"@,
        FloatErrorKind::Invalid => "invalid float literal"@,
    }
}

impl IntErrorKind {
    /// The message for this error.
    pub fn message(&self) -> (m: &'static str)
        ensures
            m@ == int_error_message(*self),
    {
        match self {
            IntErrorKind::Empty => "cannot parse integer from empty string",
            IntErrorKind::InvalidDigit => "invalid digit found in string",
            IntErrorKind::PosOverflow => "number too large to fit in target type",
        }
    }
}

impl FloatErrorKind {
    /// The message for this error.
    pub fn message(&self) -> (m: &'static str)
        ensures
            m@ == float_error_message(*self),
    {
        match self {
            FloatErrorKind::Empty => "cannot parse float from empty string",
            FloatErrorKind::Invalid => "invalid float literal",
        }
    }
}

} // verus!
