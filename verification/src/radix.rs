//! Reading integers out of text: `String#hex`, `String#oct` and
//! `Kernel#Integer` on a string. Whitespace is trimmed as `str::trim` does
//! and the digits are read by the rules of `i64::from_str_radix`, both
//! stated here as spec functions and proved of the functions below.

use vstd::prelude::*;
use crate::error::{Error, is_argument_error, string_from_chars};
use crate::text::push_all;

verus! {

/// `char::is_whitespace`: the Unicode White_Space property, which holds of
/// tab through carriage return, space, U+0085, U+00A0, U+1680, U+2000
/// through U+200A, U+2028, U+2029, U+202F, U+205F and U+3000.
pub open spec fn char_is_space(c: char) -> bool {
    let u = c as u32;
    ||| 0x09 <= u <= 0x0d
    ||| u == 0x20
    ||| u == 0x85
    ||| u == 0xa0
    ||| u == 0x1680
    ||| 0x2000 <= u <= 0x200a
    ||| u == 0x2028
    ||| u == 0x2029
    ||| u == 0x202f
    ||| u == 0x205f
    ||| u == 0x3000
}

fn is_space(c: char) -> (r: bool)
    ensures
        r == char_is_space(c),
{
    let u = c as u32;
    (0x09 <= u && u <= 0x0d) || u == 0x20 || u == 0x85 || u == 0xa0 || u == 0x1680 || (0x2000 <= u
        && u <= 0x200a) || u == 0x2028 || u == 0x2029 || u == 0x202f || u == 0x205f || u == 0x3000
}

/// `s` without its leading whitespace.
pub open spec fn trim_start(s: Seq<char>) -> Seq<char>
    decreases s.len(),
{
    if s.len() > 0 && char_is_space(s[0]) {
        trim_start(s.drop_first())
    } else {
        s
    }
}

/// `s` without its trailing whitespace.
pub open spec fn trim_end(s: Seq<char>) -> Seq<char>
    decreases s.len(),
{
    if s.len() > 0 && char_is_space(s.last()) {
        trim_end(s.drop_last())
    } else {
        s
    }
}

/// `str::trim`: whitespace removed from both ends.
pub open spec fn spec_trim(s: Seq<char>) -> Seq<char> {
    trim_end(trim_start(s))
}

/// `s` with whitespace removed from both ends.
pub fn trim(s: &[char]) -> (r: Vec<char>)
    ensures
        r@ == spec_trim(s@),
{
    let n = s.len();
    let mut lo: usize = 0;
    assert(s@.subrange(0, n as int) =~= s@);
    while lo < n && is_space(s[lo])
        invariant
            lo <= n,
            n == s@.len(),
            trim_start(s@) == trim_start(s@.subrange(lo as int, n as int)),
        decreases n - lo,
    {
        assert(s@.subrange(lo as int, n as int).drop_first() =~= s@.subrange(lo + 1, n as int));
        lo += 1;
    }
    assert(trim_start(s@) == s@.subrange(lo as int, n as int));
    let mut hi: usize = n;
    while hi > lo && is_space(s[hi - 1])
        invariant
            lo <= hi <= n,
            n == s@.len(),
            spec_trim(s@) == trim_end(s@.subrange(lo as int, hi as int)),
        decreases hi,
    {
        assert(s@.subrange(lo as int, hi as int).drop_last() =~= s@.subrange(lo as int, hi - 1));
        hi -= 1;
    }
    assert(spec_trim(s@) == s@.subrange(lo as int, hi as int));
    let mut r: Vec<char> = Vec::new();
    let mut i: usize = lo;
    while i < hi
        invariant
            lo <= i <= hi <= n,
            n == s@.len(),
            r@ == s@.subrange(lo as int, i as int),
        decreases hi - i,
    {
        r.push(s[i]);
        i += 1;
        assert(r@ =~= s@.subrange(lo as int, i as int));
    }
    r
}

/// The value of `c` as a digit, as `char::to_digit` reads it: `0`-`9` are
/// 0 to 9 and letters of either case are 10 to 35; anything else gets 99,
/// a digit in no radix.
pub open spec fn digit_value(c: char) -> int {
    let u = c as int;
    if 48 <= u <= 57 {
        u - 48
    } else if 97 <= u <= 122 {
        u - 87
    } else if 65 <= u <= 90 {
        u - 55
    } else {
        99
    }
}

/// Every character of `ds` is a digit below `radix`.
pub open spec fn all_digits(ds: Seq<char>, radix: int) -> bool {
    forall|i: int| 0 <= i < ds.len() ==> #[trigger] digit_value(ds[i]) < radix
}

/// The number the digits `ds` spell in base `radix`, most significant first.
pub open spec fn digits_value(ds: Seq<char>, radix: int) -> int
    decreases ds.len(),
{
    if ds.len() == 0 {
        0
    } else {
        digits_value(ds.drop_last(), radix) * radix + digit_value(ds.last())
    }
}

/// `i64::from_str_radix(s, radix)`: an optional `+` or `-`, then one or
/// more digits of the radix whose signed value fits in `i64`; `None`
/// otherwise.
pub open spec fn parse_radix(s: Seq<char>, radix: int) -> Option<i64> {
    let signed = s.len() > 0 && (s[0] == '+' || s[0] == '-');
    let ds = if signed {
        s.drop_first()
    } else {
        s
    };
    let v = if s.len() > 0 && s[0] == '-' {
        -digits_value(ds, radix)
    } else {
        digits_value(ds, radix)
    };
    if ds.len() == 0 || !all_digits(ds, radix) || v < i64::MIN || v > i64::MAX {
        None
    } else {
        Some(v as i64)
    }
}

proof fn lemma_digits_nonneg(ds: Seq<char>, radix: int)
    requires
        radix >= 1,
    ensures
        digits_value(ds, radix) >= 0,
    decreases ds.len(),
{
    if ds.len() > 0 {
        lemma_digits_nonneg(ds.drop_last(), radix);
        let x = digits_value(ds.drop_last(), radix);
        assert(x * radix >= 0) by (nonlinear_arith)
            requires
                x >= 0,
                radix >= 1,
        ;
    }
}

/// Appending digits never makes the value smaller.
proof fn lemma_digits_grow(s: Seq<char>, a: int, b: int, radix: int)
    requires
        radix >= 1,
        0 <= a <= b <= s.len(),
    ensures
        digits_value(s.subrange(0, b), radix) >= digits_value(s.subrange(0, a), radix),
    decreases b - a,
{
    if b > a {
        lemma_digits_grow(s, a, b - 1, radix);
        let p = s.subrange(0, b);
        assert(p.drop_last() =~= s.subrange(0, b - 1));
        lemma_digits_nonneg(s.subrange(0, b - 1), radix);
        let x = digits_value(s.subrange(0, b - 1), radix);
        assert(x * radix >= x) by (nonlinear_arith)
            requires
                x >= 0,
                radix >= 1,
        ;
    }
}

fn digit_of(c: char) -> (d: u32)
    ensures
        d == digit_value(c),
{
    let u = c as u32;
    if 48 <= u && u <= 57 {
        u - 48
    } else if 97 <= u && u <= 122 {
        u - 87
    } else if 65 <= u && u <= 90 {
        u - 55
    } else {
        99
    }
}

/// Reads `s` by the rules of `i64::from_str_radix`.
pub fn from_str_radix(s: &[char], radix: u32) -> (r: Option<i64>)
    requires
        2 <= radix <= 36,
    ensures
        r == parse_radix(s@, radix as int),
{
    let n = s.len();
    let mut start: usize = 0;
    let mut neg = false;
    if n > 0 && (s[0] == '+' || s[0] == '-') {
        neg = s[0] == '-';
        start = 1;
    }
    let ghost ds = s@.subrange(start as int, n as int);
    proof {
        if start == 1 {
            assert(ds =~= s@.drop_first());
        } else {
            assert(ds =~= s@);
        }
    }
    if start == n {
        return None;
    }
    let mut acc: u128 = 0;
    let mut i: usize = start;
    while i < n
        invariant
            start <= i <= n,
            n == s@.len(),
            ds == s@.subrange(start as int, n as int),
            acc == digits_value(ds.subrange(0, i - start), radix as int),
            acc <= 0x8000_0000_0000_0000u128,
            all_digits(ds.subrange(0, i - start), radix as int),
            2 <= radix <= 36,
            start <= 1,
            (start == 1) == (s@.len() > 0 && (s@[0] == '+' || s@[0] == '-')),
            ds == (if start == 1 { s@.drop_first() } else { s@ }),
        decreases n - i,
    {
        let d = digit_of(s[i]);
        let ghost k = i - start;
        if d >= radix {
            proof {
                assert(ds[k] == s@[i as int]);
                assert(!(digit_value(ds[k]) < radix));
            }
            return None;
        }
        proof {
            let p = ds.subrange(0, k + 1);
            assert(p.drop_last() =~= ds.subrange(0, k));
            assert(p.last() == s@[i as int]);
        }
        assert(acc * (radix as u128) + (d as u128) <= 0x8000_0000_0000_0000u128 * 36 + 36)
            by (nonlinear_arith)
            requires
                acc <= 0x8000_0000_0000_0000u128,
                radix <= 36,
                d < radix,
        ;
        acc = acc * (radix as u128) + (d as u128);
        i += 1;
        proof {
            assert forall|j: int| 0 <= j < ds.subrange(0, i - start).len() implies #[trigger] digit_value(
                ds.subrange(0, i - start)[j],
            ) < radix by {
                if j < k {
                    assert(ds.subrange(0, i - start)[j] == ds.subrange(0, k)[j]);
                }
            }
        }
        if acc > 0x8000_0000_0000_0000u128 {
            proof {
                if all_digits(ds, radix as int) {
                    lemma_digits_grow(ds, i - start, ds.len() as int, radix as int);
                    assert(ds.subrange(0, ds.len() as int) =~= ds);
                }
            }
            return None;
        }
    }
    assert(ds.subrange(0, n - start) =~= ds);
    if neg {
        let v: i128 = -(acc as i128);
        Some(v as i64)
    } else if acc <= 0x7fff_ffff_ffff_ffffu128 {
        Some(acc as i64)
    } else {
        None
    }
}

/// `s` with a leading `0` followed by `lower` or `upper` removed.
pub open spec fn drop_radix_prefix(s: Seq<char>, lower: char, upper: char) -> Seq<char> {
    if s.len() >= 2 && s[0] == '0' && (s[1] == lower || s[1] == upper) {
        s.subrange(2, s.len() as int)
    } else {
        s
    }
}

/// `s` without its leading `+` signs.
pub open spec fn drop_plus(s: Seq<char>) -> Seq<char>
    decreases s.len(),
{
    if s.len() > 0 && s[0] == '+' {
        drop_plus(s.drop_first())
    } else {
        s
    }
}

/// What `String#hex` gives: the text trimmed, a `0x`/`0X` prefix dropped,
/// then every leading `+`, read in base 16; 0 when that fails.
pub open spec fn spec_hex(s: Seq<char>) -> i64 {
    match parse_radix(drop_plus(drop_radix_prefix(spec_trim(s), 'x', 'X')), 16) {
        Some(v) => v,
        None => 0,
    }
}

/// The radix and the digits `String#oct` reads from trimmed text `t`:
/// `0x`, `0b` and `0o` (either case) choose 16, 2 and 8 and are dropped;
/// anything else is read in base 8 as it stands.
pub open spec fn oct_body(t: Seq<char>) -> (int, Seq<char>) {
    if t.len() >= 2 && t[0] == '0' && (t[1] == 'x' || t[1] == 'X') {
        (16, t.subrange(2, t.len() as int))
    } else if t.len() >= 2 && t[0] == '0' && (t[1] == 'b' || t[1] == 'B') {
        (2, t.subrange(2, t.len() as int))
    } else if t.len() >= 2 && t[0] == '0' && (t[1] == 'o' || t[1] == 'O') {
        (8, t.subrange(2, t.len() as int))
    } else {
        (8, t)
    }
}

/// What `String#oct` gives: the digits after the prefix read in the radix
/// it names; 0 when that fails.
pub open spec fn spec_oct(s: Seq<char>) -> i64 {
    let (radix, body) = oct_body(spec_trim(s));
    match parse_radix(body, radix) {
        Some(v) => v,
        None => 0,
    }
}

fn has_radix_prefix(t: &[char], lower: char, upper: char) -> (r: bool)
    ensures
        r == (t@.len() >= 2 && t@[0] == '0' && (t@[1] == lower || t@[1] == upper)),
{
    t.len() >= 2 && t[0] == '0' && (t[1] == lower || t[1] == upper)
}

fn tail_from(t: &[char], from: usize) -> (r: Vec<char>)
    requires
        from <= t.len(),
    ensures
        r@ == t@.subrange(from as int, t@.len() as int),
{
    let mut r: Vec<char> = Vec::new();
    let mut i: usize = from;
    while i < t.len()
        invariant
            from <= i <= t.len(),
            r@ == t@.subrange(from as int, i as int),
        decreases t.len() - i,
    {
        r.push(t[i]);
        i += 1;
        assert(r@ =~= t@.subrange(from as int, i as int));
    }
    r
}

/// `String#hex` of the text `s`.
pub fn string_hex(s: &[char]) -> (r: i64)
    ensures
        r == spec_hex(s@),
{
    let t = trim(s);
    let body = if has_radix_prefix(t.as_slice(), 'x', 'X') {
        tail_from(t.as_slice(), 2)
    } else {
        t
    };
    let mut k: usize = 0;
    assert(body@.subrange(0, body@.len() as int) =~= body@);
    while k < body.len() && body[k] == '+'
        invariant
            k <= body@.len(),
            drop_plus(body@) == drop_plus(body@.subrange(k as int, body@.len() as int)),
        decreases body.len() - k,
    {
        assert(body@.subrange(k as int, body@.len() as int).drop_first() =~= body@.subrange(
            k + 1,
            body@.len() as int,
        ));
        k += 1;
    }
    let digits = tail_from(body.as_slice(), k);
    match from_str_radix(digits.as_slice(), 16) {
        Some(v) => v,
        None => 0,
    }
}

/// `String#oct` of the text `s`.
pub fn string_oct(s: &[char]) -> (r: i64)
    ensures
        r == spec_oct(s@),
{
    let t = trim(s);
    let (radix, body): (u32, Vec<char>) = if has_radix_prefix(t.as_slice(), 'x', 'X') {
        (16, tail_from(t.as_slice(), 2))
    } else if has_radix_prefix(t.as_slice(), 'b', 'B') {
        (2, tail_from(t.as_slice(), 2))
    } else if has_radix_prefix(t.as_slice(), 'o', 'O') {
        (8, tail_from(t.as_slice(), 2))
    } else {
        (8, t)
    };
    match from_str_radix(body.as_slice(), radix) {
        Some(v) => v,
        None => 0,
    }
}

/// `Kernel#Integer` of a String argument: the text trimmed and read in base
/// 10, or an `ArgumentError` that shows the trimmed text.
pub fn integer_of_text(s: &[char]) -> (r: Result<i64, Error>)
    ensures
        parse_radix(spec_trim(s@), 10) matches Some(v) ==> r == Ok::<i64, Error>(v),
        parse_radix(spec_trim(s@), 10) is None ==> is_argument_error(
            r,
            "invalid value for Integer(): "@ + spec_trim(s@),
        ),
{
    let t = trim(s);
    match from_str_radix(t.as_slice(), 10) {
        Some(v) => Ok(v),
        None => {
            let head = [
                'i', 'n', 'v', 'a', 'l', 'i', 'd', ' ', 'v', 'a', 'l', 'u', 'e', ' ', 'f', 'o', 'r',
                ' ', 'I', 'n', 't', 'e', 'g', 'e', 'r', '(', ')', ':', ' ',
            ];
            let mut msg: Vec<char> = Vec::new();
            push_all(&mut msg, &head);
            push_all(&mut msg, t.as_slice());
            proof {
                reveal_strlit("invalid value for Integer(): ");
                assert(head@ =~= "invalid value for Integer(): "@);
            }
            Err(Error::ArgumentError(string_from_chars(msg.as_slice())))
        }
    }
}

} // verus!
