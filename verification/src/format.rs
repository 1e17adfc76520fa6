//! The printf-style formatter behind `format`, `sprintf` and `String#%`:
//! d/i/u/f/e/E/g/G/x/X/o/b/c/s/% with the `-`, `0`, `+` and space flags,
//! width and precision (both capped at 1,000,000).
//!
//! A template is first parsed into literal characters and fields. Each
//! argument then reaches the engine already in the form its field needs:
//! an integer, the display text of a string, or the text of a float rendered
//! with the field's precision (floating point stays with the caller).

use vstd::prelude::*;

use crate::text::{
    decorate_sign, expand_exponent, split_sign, spec_decorate_sign, spec_expand_exponent,
    spec_split_sign,
};

verus! {

/// Upper bound on field width and precision.
pub const MAX_FORMAT_WIDTH: usize = 1_000_000;

/// One `%` field of a template.
#[derive(Debug, Clone, Copy, PartialEq, Eq, Structural)]
pub struct Directive {
    /// `-`: pad on the right.
    pub left: bool,
    /// `0`: pad numbers with zeros after the sign.
    pub zero: bool,
    /// `+`: show a plus sign on non-negative numbers.
    pub plus: bool,
    /// space: show a space on non-negative numbers.
    pub space: bool,
    /// Minimum width in characters.
    pub width: usize,
    /// Precision, when a `.` was given.
    pub prec: Option<usize>,
    /// The conversion character.
    pub conv: char,
}

/// A piece of a parsed template.
#[derive(Debug, Clone, Copy, PartialEq, Eq, Structural)]
pub enum Piece {
    /// A character copied to the output (`%%` gives `%`).
    Lit(char),
    /// A field that consumes one argument.
    Field(Directive),
}

/// Why a template could not be formatted.
#[derive(Debug, Clone, Copy, PartialEq, Eq, Structural)]
pub enum FormatError {
    /// The template ends with a lone `%`.
    TrailingPercent,
    /// The template ends inside a field.
    Malformed,
    /// A field has no argument left.
    TooFewArguments,
    /// Arguments remain after the last field.
    TooManyArguments,
    /// An integer field got something else.
    ExpectedInteger,
    /// A float field got something else.
    ExpectedFloat,
    /// `%c` got an integer that is no Unicode scalar value.
    InvalidCodepoint,
    /// `%c` got an empty string.
    InvalidCharacter,
    /// `%c` got neither an integer nor a string.
    CharNeedsIntegerOrString,
    /// A `%s` field got no display text.
    ExpectedText,
    /// The conversion character is not supported.
    Unsupported(char),
}

/// The message of the ArgumentError that `format` raises for `e`.
pub open spec fn error_message(e: FormatError) -> Seq<char> {
    match e {
        FormatError::TrailingPercent => "trailing '%' in format"@,
        FormatError::Malformed => "malformed format string"@,
        FormatError::TooFewArguments => "too few arguments for format"@,
        FormatError::TooManyArguments => "too many arguments for format"@,
        FormatError::ExpectedInteger => "expected Integer"@,
        FormatError::ExpectedFloat => "expected Float"@,
        FormatError::InvalidCodepoint => "invalid codepoint"@,
        FormatError::InvalidCharacter => "invalid character"@,
        FormatError::CharNeedsIntegerOrString => "%c needs an Integer or String"@,
        FormatError::ExpectedText => "to_s did not yield a String"@,
        FormatError::Unsupported(c) => "unsupported format specifier %"@.push(c),
    }
}

/// The Ruby error `format` raises for `e`: an ArgumentError with its
/// message.
pub fn format_error(e: FormatError) -> (r: crate::error::Error)
    ensures
        r matches crate::error::Error::ArgumentError(m) && m@ == error_message(e),
{
    let msg: String = match e {
        FormatError::TrailingPercent => "trailing '%' in format".to_owned(),
        FormatError::Malformed => "malformed format string".to_owned(),
        FormatError::TooFewArguments => "too few arguments for format".to_owned(),
        FormatError::TooManyArguments => "too many arguments for format".to_owned(),
        FormatError::ExpectedInteger => "expected Integer".to_owned(),
        FormatError::ExpectedFloat => "expected Float".to_owned(),
        FormatError::InvalidCodepoint => "invalid codepoint".to_owned(),
        FormatError::InvalidCharacter => "invalid character".to_owned(),
        FormatError::CharNeedsIntegerOrString => "%c needs an Integer or String".to_owned(),
        FormatError::ExpectedText => "to_s did not yield a String".to_owned(),
        FormatError::Unsupported(c) => {
            let head = [
                'u', 'n', 's', 'u', 'p', 'p', 'o', 'r', 't', 'e', 'd', ' ', 'f', 'o', 'r', 'm', 'a',
                't', ' ', 's', 'p', 'e', 'c', 'i', 'f', 'i', 'e', 'r', ' ', '%',
            ];
            let mut cs: Vec<char> = Vec::new();
            crate::text::push_all(&mut cs, &head);
            cs.push(c);
            proof {
                reveal_strlit("unsupported format specifier %");
                assert(head@ =~= "unsupported format specifier %"@);
                assert(cs@ =~= "unsupported format specifier %"@.push(c));
            }
            crate::error::string_from_chars(cs.as_slice())
        },
    };
    crate::error::Error::ArgumentError(msg)
}

/// A parsed template: its pieces up to the first syntax error, and that
/// error, which is raised once the pieces before it have been formatted.
#[derive(Debug, Clone)]
pub struct FormatPlan {
    pub pieces: Vec<Piece>,
    pub error: Option<FormatError>,
}

/// An argument as its field needs it.
#[derive(Debug, Clone)]
pub enum FormatArg {
    /// An integer (for `%c`, only an Integer value).
    Int(i64),
    /// The display text of the argument (for `%c`, only a String value).
    Text(Vec<char>),
    /// A float rendered for its field: `{:.p}` for `%f`, `{:.pe}` for
    /// `%e`/`%E`, `{}` for `%g`/`%G`, with `p` the precision or 6.
    Float(Vec<char>),
    /// A value the field cannot use.
    Other,
}

pub open spec fn is_flag(c: char) -> bool {
    c == '-' || c == '0' || c == '+' || c == ' '
}

pub open spec fn is_ascii_digit(c: char) -> bool {
    '0' <= c <= '9'
}

/// First index from `i` on that does not hold a flag character.
pub open spec fn flags_end(f: Seq<char>, i: int) -> int
    decreases f.len() - i,
{
    if 0 <= i < f.len() && is_flag(f[i]) {
        flags_end(f, i + 1)
    } else {
        i
    }
}

/// First index from `i` on that does not hold a decimal digit.
pub open spec fn digits_end(f: Seq<char>, i: int) -> int
    decreases f.len() - i,
{
    if 0 <= i < f.len() && is_ascii_digit(f[i]) {
        digits_end(f, i + 1)
    } else {
        i
    }
}

/// The digits `f[i..e]` read left to right, capped at `MAX_FORMAT_WIDTH`
/// after each digit.
pub open spec fn capped_number(f: Seq<char>, i: int, e: int) -> int
    decreases e - i,
{
    if e <= i {
        0
    } else {
        let v = capped_number(f, i, e - 1) * 10 + (f[e - 1] as int - '0' as int);
        if v < MAX_FORMAT_WIDTH {
            v
        } else {
            MAX_FORMAT_WIDTH as int
        }
    }
}

pub open spec fn has_char_in(f: Seq<char>, i: int, e: int, c: char) -> bool {
    exists|j: int| i <= j < e && f[j] == c
}

/// The field whose flags start at `i`, the index of its conversion
/// character, or `None` when the template ends first.
pub open spec fn spec_field_at(f: Seq<char>, i: int) -> Option<(Directive, int)> {
    let fe = flags_end(f, i);
    let we = digits_end(f, fe);
    let has_prec = we < f.len() && f[we] == '.';
    let pe = if has_prec {
        digits_end(f, we + 1)
    } else {
        we
    };
    if pe >= f.len() {
        None
    } else {
        Some(
            (
                Directive {
                    left: has_char_in(f, i, fe, '-'),
                    zero: has_char_in(f, i, fe, '0'),
                    plus: has_char_in(f, i, fe, '+'),
                    space: has_char_in(f, i, fe, ' '),
                    width: capped_number(f, fe, we) as usize,
                    prec: if has_prec {
                        Some(capped_number(f, we + 1, pe) as usize)
                    } else {
                        None
                    },
                    conv: f[pe],
                },
                pe,
            ),
        )
    }
}

proof fn lemma_scan_ends(f: Seq<char>, i: int)
    requires
        0 <= i <= f.len(),
    ensures
        i <= flags_end(f, i) <= f.len(),
        i <= digits_end(f, i) <= f.len(),
    decreases f.len() - i,
{
    if i < f.len() {
        lemma_scan_ends(f, i + 1);
    }
}

/// The template `f[i..]` parsed into pieces, with the first syntax error.
#[verifier::opaque]
pub open spec fn parse_from(f: Seq<char>, i: int) -> (Seq<Piece>, Option<FormatError>)
    decreases f.len() - i,
{
    if i < 0 || i >= f.len() {
        (Seq::empty(), None)
    } else if f[i] != '%' {
        let rest = parse_from(f, i + 1);
        (seq![Piece::Lit(f[i])] + rest.0, rest.1)
    } else if i + 1 == f.len() {
        (Seq::empty(), Some(FormatError::TrailingPercent))
    } else if f[i + 1] == '%' {
        let rest = parse_from(f, i + 2);
        (seq![Piece::Lit('%')] + rest.0, rest.1)
    } else {
        match spec_field_at(f, i + 1) {
            None => (Seq::empty(), Some(FormatError::Malformed)),
            Some((d, pe)) => if i < pe {
                let rest = parse_from(f, pe + 1);
                (seq![Piece::Field(d)] + rest.0, rest.1)
            } else {
                (Seq::empty(), None)
            },
        }
    }
}


/// One step of `parse_from` at index `i`.
proof fn lemma_parse_step(f: Seq<char>, i: int)
    requires
        0 <= i,
    ensures
        i >= f.len() ==> parse_from(f, i) == (Seq::<Piece>::empty(), None::<FormatError>),
        i < f.len() && f[i] != '%' ==> parse_from(f, i) == (
            seq![Piece::Lit(f[i])] + parse_from(f, i + 1).0,
            parse_from(f, i + 1).1,
        ),
        i < f.len() && f[i] == '%' && i + 1 == f.len() ==> parse_from(f, i) == (
            Seq::<Piece>::empty(),
            Some(FormatError::TrailingPercent),
        ),
        i + 1 < f.len() && f[i] == '%' && f[i + 1] == '%' ==> parse_from(f, i) == (
            seq![Piece::Lit('%')] + parse_from(f, i + 2).0,
            parse_from(f, i + 2).1,
        ),
        i + 1 < f.len() && f[i] == '%' && f[i + 1] != '%' && spec_field_at(f, i + 1) is None
            ==> parse_from(f, i) == (Seq::<Piece>::empty(), Some(FormatError::Malformed)),
        i + 1 < f.len() && f[i] == '%' && f[i + 1] != '%' && spec_field_at(f, i + 1) is Some
            && i < spec_field_at(f, i + 1).unwrap().1 ==> parse_from(f, i) == (
            seq![Piece::Field(spec_field_at(f, i + 1).unwrap().0)] + parse_from(
                f,
                spec_field_at(f, i + 1).unwrap().1 + 1,
            ).0,
            parse_from(f, spec_field_at(f, i + 1).unwrap().1 + 1).1,
        ),
{
    reveal_with_fuel(parse_from, 1);
}


proof fn lemma_push_concat<A>(before: Seq<A>, x: A, rest: Seq<A>)
    ensures
        before.push(x) + rest == before + (seq![x] + rest),
{
    assert(before.push(x) + rest =~= before + (seq![x] + rest));
}

pub open spec fn spec_parse_format(f: Seq<char>) -> (Seq<Piece>, Option<FormatError>) {
    parse_from(f, 0)
}

fn scan_flags(f: &[char], i: usize) -> (r: (usize, bool, bool, bool, bool))
    requires
        i <= f.len(),
    ensures
        r.0 == flags_end(f@, i as int),
        r.1 == has_char_in(f@, i as int, r.0 as int, '-'),
        r.2 == has_char_in(f@, i as int, r.0 as int, '0'),
        r.3 == has_char_in(f@, i as int, r.0 as int, '+'),
        r.4 == has_char_in(f@, i as int, r.0 as int, ' '),
{
    let mut ci = i;
    let mut left = false;
    let mut zero = false;
    let mut plus = false;
    let mut space = false;
    while ci < f.len() && (f[ci] == '-' || f[ci] == '0' || f[ci] == '+' || f[ci] == ' ')
        invariant
            i <= ci <= f.len(),
            flags_end(f@, i as int) == flags_end(f@, ci as int),
            left == has_char_in(f@, i as int, ci as int, '-'),
            zero == has_char_in(f@, i as int, ci as int, '0'),
            plus == has_char_in(f@, i as int, ci as int, '+'),
            space == has_char_in(f@, i as int, ci as int, ' '),
            forall|j: int| i <= j < ci ==> is_flag(f@[j]),
        decreases f.len() - ci,
    {
        let c = f[ci];
        if c == '-' {
            left = true;
        } else if c == '0' {
            zero = true;
        } else if c == '+' {
            plus = true;
        } else {
            space = true;
        }
        ci += 1;
        proof {
            assert(f@[ci - 1] == c);
            assert forall|ch: char| has_char_in(f@, i as int, ci as int, ch) == (has_char_in(
                f@,
                i as int,
                ci - 1,
                ch,
            ) || c == ch) by {
                if has_char_in(f@, i as int, ci as int, ch) {
                    let j = choose|j: int| i <= j < ci && f@[j] == ch;
                    if j < ci - 1 {
                        assert(has_char_in(f@, i as int, ci - 1, ch));
                    }
                }
                if c == ch {
                    assert(f@[ci - 1] == ch);
                }
            }
        }
    }
    (ci, left, zero, plus, space)
}

fn scan_number(f: &[char], i: usize) -> (r: (usize, usize))
    requires
        i <= f.len(),
    ensures
        r.0 == digits_end(f@, i as int),
        r.1 == capped_number(f@, i as int, r.0 as int),
{
    let mut ci = i;
    let mut v: usize = 0;
    while ci < f.len() && '0' <= f[ci] && f[ci] <= '9'
        invariant
            i <= ci <= f.len(),
            digits_end(f@, i as int) == digits_end(f@, ci as int),
            v == capped_number(f@, i as int, ci as int),
            v <= MAX_FORMAT_WIDTH,
        decreases f.len() - ci,
    {
        let d = (f[ci] as u32 - '0' as u32) as usize;
        let w = v * 10 + d;
        v = if w < MAX_FORMAT_WIDTH {
            w
        } else {
            MAX_FORMAT_WIDTH
        };
        ci += 1;
    }
    (ci, v)
}

/// Parses a template into literal characters and fields.
pub fn parse_format(fmt: &[char]) -> (r: FormatPlan)
    ensures
        r.pieces@ == spec_parse_format(fmt@).0,
        r.error == spec_parse_format(fmt@).1,
{
    let f = fmt;
    let mut pieces: Vec<Piece> = Vec::new();
    let mut ci: usize = 0;
    loop
        invariant
            f == fmt,
            ci <= f.len(),
            pieces@ + parse_from(f@, ci as int).0 == spec_parse_format(f@).0,
            parse_from(f@, ci as int).1 == spec_parse_format(f@).1,
        decreases f.len() - ci,
    {
        let ghost before = pieces@;
        proof {
            lemma_parse_step(f@, ci as int);
        }
        if ci >= f.len() {
            assert(parse_from(f@, ci as int).0 == Seq::<Piece>::empty());
            assert(before + Seq::<Piece>::empty() =~= before);
            assert(pieces@ == spec_parse_format(f@).0);
            assert(spec_parse_format(f@).1 is None);
            return FormatPlan { pieces, error: None };
        }
        if f[ci] != '%' {
            assert(f@[ci as int] != '%');
            assert(parse_from(f@, ci as int).0 == seq![Piece::Lit(f@[ci as int])] + parse_from(f@, ci + 1).0);
            pieces.push(Piece::Lit(f[ci]));
            proof {
                lemma_push_concat(before, Piece::Lit(f@[ci as int]), parse_from(f@, ci + 1).0);
            }
            ci += 1;
        } else if ci + 1 == f.len() {
            assert(before + Seq::<Piece>::empty() =~= before);
            return FormatPlan { pieces, error: Some(FormatError::TrailingPercent) };
        } else if f[ci + 1] == '%' {
            pieces.push(Piece::Lit('%'));
            assert(pieces@ + parse_from(f@, ci + 2).0 =~= before + parse_from(f@, ci as int).0);
            ci += 2;
        } else {
            let (fe, left, zero, plus, space) = scan_flags(f, ci + 1);
            proof {
                lemma_scan_ends(f@, ci + 1);
                lemma_scan_ends(f@, fe as int);
            }
            let (we, width) = scan_number(f, fe);
            let mut pe = we;
            let mut prec: Option<usize> = None;
            if we < f.len() && f[we] == '.' {
                proof {
                    lemma_scan_ends(f@, we + 1);
                }
                let (de, p) = scan_number(f, we + 1);
                pe = de;
                prec = Some(p);
            }
            if pe >= f.len() {
                assert(before + Seq::<Piece>::empty() =~= before);
                return FormatPlan { pieces, error: Some(FormatError::Malformed) };
            }
            let d = Directive { left, zero, plus, space, width, prec, conv: f[pe] };
            proof {
                assert(capped_number(f@, fe as int, we as int) == width);
                assert(spec_field_at(f@, ci + 1) == Some((d, pe as int)));
            }
            pieces.push(Piece::Field(d));
            assert(pieces@ + parse_from(f@, pe + 1).0 =~= before + parse_from(f@, ci as int).0);
            ci = pe + 1;
        }
    }
}

/// Digit `d` (below 16) as a character, with letters in upper or lower case.
pub open spec fn digit_char(d: nat, upper: bool) -> char {
    if d < 10 {
        (d + 48) as char
    } else if upper {
        (d - 10 + 65) as char
    } else {
        (d - 10 + 97) as char
    }
}

/// The digits of `m` in `base` (2 to 16), most significant first.
pub open spec fn digits_in_base(m: nat, base: nat, upper: bool) -> Seq<char>
    decreases m,
{
    if base < 2 || m < base {
        seq![digit_char(m, upper)]
    } else {
        proof {
            vstd::arithmetic::div_mod::lemma_div_decreases(m as int, base as int);
        }
        digits_in_base(m / base, base, upper) + seq![digit_char(m % base, upper)]
    }
}

/// `-` for a negative number, else `+` or a space as the flags ask.
pub open spec fn sign_text(neg: bool, plus: bool, space: bool) -> Seq<char> {
    if neg {
        seq!['-']
    } else if plus {
        seq!['+']
    } else if space {
        seq![' ']
    } else {
        Seq::empty()
    }
}

pub open spec fn abs_int(n: int) -> nat {
    if n < 0 {
        (-n) as nat
    } else {
        n as nat
    }
}

/// An integer as sign and magnitude digits.
pub open spec fn int_text(n: i64, base: nat, upper: bool, plus: bool, space: bool) -> Seq<char> {
    sign_text(n < 0, plus, space) + digits_in_base(abs_int(n as int), base, upper)
}

/// `s` upper-cased character by character, as `str::to_uppercase` does.
pub open spec fn upcase(s: Seq<char>) -> Seq<char> {
    crate::text::map_join(s, |c: char| crate::text::char_upper(c))
}

pub open spec fn is_scalar(v: u32) -> bool {
    v < 0xD800 || (0xE000 <= v && v <= 0x10FFFF)
}

pub open spec fn is_numeric_conv(c: char) -> bool {
    c == 'd' || c == 'i' || c == 'u' || c == 'f' || c == 'e' || c == 'E' || c == 'g' || c == 'G'
        || c == 'x' || c == 'X' || c == 'o' || c == 'b'
}

pub open spec fn int_field(arg: FormatArg, base: nat, upper: bool, d: Directive) -> Result<
    Seq<char>,
    FormatError,
> {
    match arg {
        FormatArg::Int(n) => Ok(int_text(n, base, upper, d.plus, d.space)),
        _ => Err(FormatError::ExpectedInteger),
    }
}

/// The text of a field before padding.
pub open spec fn spec_render_body(d: Directive, arg: FormatArg) -> Result<Seq<char>, FormatError> {
    let c = d.conv;
    if c == 'd' || c == 'i' || c == 'u' {
        int_field(arg, 10, false, d)
    } else if c == 'x' {
        int_field(arg, 16, false, d)
    } else if c == 'X' {
        int_field(arg, 16, true, d)
    } else if c == 'o' {
        int_field(arg, 8, false, d)
    } else if c == 'b' {
        int_field(arg, 2, false, d)
    } else if c == 'f' || c == 'g' || c == 'G' || c == 'e' || c == 'E' {
        match arg {
            FormatArg::Float(t) => Ok(
                if c == 'e' {
                    spec_expand_exponent(t@)
                } else if c == 'E' {
                    upcase(spec_expand_exponent(t@))
                } else {
                    spec_decorate_sign(t@, d.plus, d.space)
                },
            ),
            _ => Err(FormatError::ExpectedFloat),
        }
    } else if c == 'c' {
        match arg {
            FormatArg::Int(n) => if is_scalar(n as u32) {
                Ok(seq![(n as u32) as char])
            } else {
                Err(FormatError::InvalidCodepoint)
            },
            FormatArg::Text(t) => if t@.len() > 0 {
                Ok(seq![t@[0]])
            } else {
                Err(FormatError::InvalidCharacter)
            },
            _ => Err(FormatError::CharNeedsIntegerOrString),
        }
    } else if c == 's' {
        match arg {
            FormatArg::Text(t) => Ok(
                match d.prec {
                    Some(p) => if p < t@.len() {
                        t@.take(p as int)
                    } else {
                        t@
                    },
                    None => t@,
                },
            ),
            _ => Err(FormatError::ExpectedText),
        }
    } else {
        Err(FormatError::Unsupported(c))
    }
}

pub open spec fn fill(n: nat, c: char) -> Seq<char> {
    Seq::new(n, |_j: int| c)
}

/// `body` padded to the field width: spaces on the right for `-`, zeros
/// after the sign for `0` on numbers, spaces on the left otherwise.
pub open spec fn spec_pad_field(body: Seq<char>, d: Directive) -> Seq<char> {
    if body.len() < d.width {
        let pad = (d.width - body.len()) as nat;
        if d.left {
            body + fill(pad, ' ')
        } else if d.zero && is_numeric_conv(d.conv) {
            spec_split_sign(body).0 + fill(pad, '0') + spec_split_sign(body).1
        } else {
            fill(pad, ' ') + body
        }
    } else {
        body
    }
}

/// The text of a field: rendered, then padded.
pub open spec fn spec_render_field(d: Directive, arg: FormatArg) -> Result<Seq<char>, FormatError> {
    match spec_render_body(d, arg) {
        Ok(b) => Ok(spec_pad_field(b, d)),
        Err(e) => Err(e),
    }
}

/// `char::from_u32`: as std documents, `Some` of the character with code
/// point `v` when `v` is a Unicode scalar value (below 0xD800, or 0xE000 to
/// 0x10FFFF), `None` otherwise.
#[verifier::external_body]
pub(crate) fn char_from_u32(v: u32) -> (r: Option<char>)
    ensures
        match r {
            Some(c) => is_scalar(v) && c == v as char,
            None => !is_scalar(v),
        },
{
    char::from_u32(v)
}

fn digit(d: u64, upper: bool) -> (c: char)
    requires
        d < 16,
    ensures
        c == digit_char(d as nat, upper),
{
    let b = d as u8;
    if b < 10 {
        (b + 48) as char
    } else if upper {
        (b - 10 + 65) as char
    } else {
        (b - 10 + 97) as char
    }
}

/// The digits of `m` in `base`.
fn base_digits(m: u64, base: u64, upper: bool) -> (r: Vec<char>)
    requires
        2 <= base <= 16,
    ensures
        r@ == digits_in_base(m as nat, base as nat, upper),
{
    let mut rev: Vec<char> = Vec::new();
    let mut v = m;
    while v >= base
        invariant
            2 <= base <= 16,
            digits_in_base(m as nat, base as nat, upper) == digits_in_base(v as nat, base as nat, upper)
                + rev@.reverse(),
        decreases v,
    {
        let ghost before = rev@;
        rev.push(digit(v % base, upper));
        proof {
            assert(rev@.reverse() =~= seq![digit_char((v % base) as nat, upper)] + before.reverse());
            vstd::arithmetic::div_mod::lemma_div_decreases(v as int, base as int);
            assert(digits_in_base(v as nat, base as nat, upper) == digits_in_base(
                (v / base) as nat,
                base as nat,
                upper,
            ) + seq![digit_char((v % base) as nat, upper)]);
            assert((digits_in_base((v / base) as nat, base as nat, upper) + seq![
                digit_char((v % base) as nat, upper),
            ]) + before.reverse() =~= digits_in_base((v / base) as nat, base as nat, upper) + rev@.reverse());
        }
        v = v / base;
    }
    let ghost before = rev@;
    rev.push(digit(v, upper));
    let mut out: Vec<char> = Vec::new();
    let mut i = rev.len();
    while i > 0
        invariant
            i <= rev.len(),
            out@ == rev@.skip(i as int).reverse(),
        decreases i,
    {
        i -= 1;
        out.push(rev[i]);
        assert(rev@.skip(i as int).reverse() =~= rev@.skip(i + 1).reverse().push(rev@[i as int]));
    }
    proof {
        assert(rev@.skip(0) =~= rev@);
        assert(rev@.reverse() =~= seq![digit_char(v as nat, upper)] + before.reverse());
        assert(out@ =~= digits_in_base(m as nat, base as nat, upper));
    }
    out
}

/// Sign and digits of `n` in `base`.
pub(crate) fn int_render(n: i64, base: u64, upper: bool, plus: bool, space: bool) -> (r: Vec<char>)
    requires
        2 <= base <= 16,
    ensures
        r@ == int_text(n, base as nat, upper, plus, space),
{
    let mag: u64 = if n >= 0 {
        n as u64
    } else {
        (-(n as i128)) as u64
    };
    let mut out: Vec<char> = Vec::new();
    if n < 0 {
        out.push('-');
    } else if plus {
        out.push('+');
    } else if space {
        out.push(' ');
    }
    let digits = base_digits(mag, base, upper);
    let ghost head = out@;
    let mut i: usize = 0;
    while i < digits.len()
        invariant
            i <= digits.len(),
            out@ == head + digits@.take(i as int),
        decreases digits.len() - i,
    {
        out.push(digits[i]);
        i += 1;
        assert(digits@.take(i as int) =~= digits@.take(i - 1).push(digits@[i - 1]));
    }
    assert(digits@.take(digits.len() as int) =~= digits@);
    assert(head =~= sign_text(n < 0, plus, space));
    out
}

fn upcase_chars(s: &[char]) -> (r: Vec<char>)
    ensures
        r@ == upcase(s@),
{
    let mut out: Vec<char> = Vec::new();
    let mut i: usize = 0;
    while i < s.len()
        invariant
            i <= s.len(),
            out@ == upcase(s@.take(i as int)),
        decreases s.len() - i,
    {
        let u = crate::text::upper_of(s[i]);
        crate::text::push_all(&mut out, u.as_slice());
        proof {
            assert(s@.take(i + 1).drop_last() =~= s@.take(i as int));
            assert(s@.take(i + 1).last() == s@[i as int]);
        }
        i += 1;
    }
    assert(s@.take(s.len() as int) =~= s@);
    out
}

fn int_arg(arg: &FormatArg, base: u64, upper: bool, d: &Directive) -> (r: Result<Vec<char>, FormatError>)
    requires
        2 <= base <= 16,
    ensures
        match r {
            Ok(v) => int_field(*arg, base as nat, upper, *d) == Ok::<Seq<char>, FormatError>(v@),
            Err(e) => int_field(*arg, base as nat, upper, *d) == Err::<Seq<char>, FormatError>(e),
        },
{
    match arg {
        FormatArg::Int(n) => Ok(int_render(*n, base, upper, d.plus, d.space)),
        _ => Err(FormatError::ExpectedInteger),
    }
}

/// Renders one field's text before padding.
fn render_body(d: &Directive, arg: &FormatArg) -> (r: Result<Vec<char>, FormatError>)
    ensures
        match r {
            Ok(v) => spec_render_body(*d, *arg) == Ok::<Seq<char>, FormatError>(v@),
            Err(e) => spec_render_body(*d, *arg) == Err::<Seq<char>, FormatError>(e),
        },
{
    let c = d.conv;
    if c == 'd' || c == 'i' || c == 'u' {
        int_arg(arg, 10, false, d)
    } else if c == 'x' {
        int_arg(arg, 16, false, d)
    } else if c == 'X' {
        int_arg(arg, 16, true, d)
    } else if c == 'o' {
        int_arg(arg, 8, false, d)
    } else if c == 'b' {
        int_arg(arg, 2, false, d)
    } else if c == 'f' || c == 'g' || c == 'G' || c == 'e' || c == 'E' {
        match arg {
            FormatArg::Float(t) => {
                if c == 'e' {
                    Ok(expand_exponent(t.as_slice()))
                } else if c == 'E' {
                    let e = expand_exponent(t.as_slice());
                    Ok(upcase_chars(e.as_slice()))
                } else {
                    Ok(decorate_sign(t.as_slice(), d.plus, d.space))
                }
            },
            _ => Err(FormatError::ExpectedFloat),
        }
    } else if c == 'c' {
        match arg {
            FormatArg::Int(n) => match char_from_u32(*n as u32) {
                Some(ch) => {
                    let mut v: Vec<char> = Vec::new();
                    v.push(ch);
                    Ok(v)
                },
                None => Err(FormatError::InvalidCodepoint),
            },
            FormatArg::Text(t) => if t.len() > 0 {
                let mut v: Vec<char> = Vec::new();
                v.push(t[0]);
                Ok(v)
            } else {
                Err(FormatError::InvalidCharacter)
            },
            _ => Err(FormatError::CharNeedsIntegerOrString),
        }
    } else if c == 's' {
        match arg {
            FormatArg::Text(t) => {
                let n = match d.prec {
                    Some(p) => if p < t.len() {
                        p
                    } else {
                        t.len()
                    },
                    None => t.len(),
                };
                let mut v: Vec<char> = Vec::new();
                let mut i: usize = 0;
                while i < n
                    invariant
                        n <= t.len(),
                        i <= n,
                        v@ == t@.take(i as int),
                    decreases n - i,
                {
                    v.push(t[i]);
                    i += 1;
                    assert(t@.take(i as int) =~= t@.take(i - 1).push(t@[i - 1]));
                }
                assert(t@.take(t.len() as int) =~= t@);
                Ok(v)
            },
            _ => Err(FormatError::ExpectedText),
        }
    } else {
        Err(FormatError::Unsupported(c))
    }
}

fn push_fill(out: &mut Vec<char>, n: usize, c: char)
    ensures
        final(out)@ == old(out)@ + fill(n as nat, c),
{
    let mut i: usize = 0;
    while i < n
        invariant
            i <= n,
            out@ == old(out)@ + fill(i as nat, c),
        decreases n - i,
    {
        out.push(c);
        i += 1;
        assert(fill(i as nat, c) =~= fill((i - 1) as nat, c).push(c));
    }
}

fn push_chars(out: &mut Vec<char>, s: &[char])
    ensures
        final(out)@ == old(out)@ + s@,
{
    let mut i: usize = 0;
    while i < s.len()
        invariant
            i <= s.len(),
            out@ == old(out)@ + s@.take(i as int),
        decreases s.len() - i,
    {
        out.push(s[i]);
        i += 1;
        assert(s@.take(i as int) =~= s@.take(i - 1).push(s@[i - 1]));
    }
    assert(s@.take(s.len() as int) =~= s@);
}

/// Renders and pads one field for its argument.
pub fn render_field(d: &Directive, arg: &FormatArg) -> (r: Result<Vec<char>, FormatError>)
    ensures
        match r {
            Ok(v) => spec_render_field(*d, *arg) == Ok::<Seq<char>, FormatError>(v@),
            Err(e) => spec_render_field(*d, *arg) == Err::<Seq<char>, FormatError>(e),
        },
{
    let body = match render_body(d, arg) {
        Ok(b) => b,
        Err(e) => return Err(e),
    };
    if body.len() >= d.width {
        return Ok(body);
    }
    let pad = d.width - body.len();
    let c = d.conv;
    let numeric = c == 'd' || c == 'i' || c == 'u' || c == 'f' || c == 'e' || c == 'E' || c == 'g'
        || c == 'G' || c == 'x' || c == 'X' || c == 'o' || c == 'b';
    let mut out: Vec<char> = Vec::new();
    if d.left {
        push_chars(&mut out, body.as_slice());
        push_fill(&mut out, pad, ' ');
    } else if d.zero && numeric {
        let (head, rest) = split_sign(body.as_slice());
        push_chars(&mut out, head.as_slice());
        push_fill(&mut out, pad, '0');
        push_chars(&mut out, rest.as_slice());
    } else {
        push_fill(&mut out, pad, ' ');
        push_chars(&mut out, body.as_slice());
    }
    Ok(out)
}

/// `text` in front of a successful result.
pub open spec fn prepend(text: Seq<char>, r: Result<Seq<char>, FormatError>) -> Result<
    Seq<char>,
    FormatError,
> {
    match r {
        Ok(t) => Ok(text + t),
        Err(e) => Err(e),
    }
}

/// Formats pieces `k..` with arguments `ai..`: a field without an argument
/// fails, a field's error stops the run, and at the end the template's syntax
/// error, else any unused argument, is reported.
pub open spec fn format_from(
    pieces: Seq<Piece>,
    error: Option<FormatError>,
    args: Seq<FormatArg>,
    k: int,
    ai: int,
) -> Result<Seq<char>, FormatError>
    decreases pieces.len() - k,
{
    if k < 0 || k >= pieces.len() {
        match error {
            Some(e) => Err(e),
            None => if 0 <= ai < args.len() {
                Err(FormatError::TooManyArguments)
            } else {
                Ok(Seq::empty())
            },
        }
    } else {
        match pieces[k] {
            Piece::Lit(c) => prepend(seq![c], format_from(pieces, error, args, k + 1, ai)),
            Piece::Field(d) => if ai < 0 || ai >= args.len() {
                Err(FormatError::TooFewArguments)
            } else {
                match spec_render_field(d, args[ai]) {
                    Ok(b) => prepend(b, format_from(pieces, error, args, k + 1, ai + 1)),
                    Err(e) => Err(e),
                }
            },
        }
    }
}

/// The output of formatting `args` into the template `fmt`.
pub open spec fn spec_ruby_format(fmt: Seq<char>, args: Seq<FormatArg>) -> Result<
    Seq<char>,
    FormatError,
> {
    format_from(spec_parse_format(fmt).0, spec_parse_format(fmt).1, args, 0, 0)
}

proof fn lemma_prepend_assoc(a: Seq<char>, b: Seq<char>, r: Result<Seq<char>, FormatError>)
    ensures
        prepend(a, prepend(b, r)) == prepend(a + b, r),
{
    match r {
        Ok(t) => {
            assert(a + (b + t) =~= (a + b) + t);
        },
        Err(_) => {},
    }
}

/// Formats prepared arguments into a parsed template.
pub fn format_plan(plan: &FormatPlan, args: &[FormatArg]) -> (r: Result<Vec<char>, FormatError>)
    ensures
        match r {
            Ok(v) => format_from(plan.pieces@, plan.error, args@, 0, 0) == Ok::<
                Seq<char>,
                FormatError,
            >(v@),
            Err(e) => format_from(plan.pieces@, plan.error, args@, 0, 0) == Err::<
                Seq<char>,
                FormatError,
            >(e),
        },
{
    let mut out: Vec<char> = Vec::new();
    let mut k: usize = 0;
    let mut ai: usize = 0;
    while k < plan.pieces.len()
        invariant
            k <= plan.pieces.len(),
            ai <= args.len(),
            format_from(plan.pieces@, plan.error, args@, 0, 0) == prepend(
                out@,
                format_from(plan.pieces@, plan.error, args@, k as int, ai as int),
            ),
        decreases plan.pieces.len() - k,
    {
        let ghost before = out@;
        match &plan.pieces[k] {
            Piece::Lit(c) => {
                out.push(*c);
                proof {
                    lemma_prepend_assoc(before, seq![*c], format_from(plan.pieces@, plan.error, args@, k + 1, ai as int));
                    assert(before + seq![*c] =~= out@);
                }
            },
            Piece::Field(d) => {
                if ai >= args.len() {
                    return Err(FormatError::TooFewArguments);
                }
                match render_field(d, &args[ai]) {
                    Ok(b) => {
                        push_chars(&mut out, b.as_slice());
                        proof {
                            lemma_prepend_assoc(before, b@, format_from(plan.pieces@, plan.error, args@, k + 1, ai + 1));
                        }
                        ai += 1;
                    },
                    Err(e) => {
                        return Err(e);
                    },
                }
            },
        }
        k += 1;
    }
    match plan.error {
        Some(e) => Err(e),
        None => if ai < args.len() {
            Err(FormatError::TooManyArguments)
        } else {
            proof {
                assert(out@ + Seq::<char>::empty() =~= out@);
            }
            Ok(out)
        },
    }
}

/// `fmt` with `args` formatted into its fields (Kernel#format,
/// Kernel#sprintf, String#%).
pub fn ruby_format(fmt: &[char], args: &[FormatArg]) -> (r: Result<Vec<char>, FormatError>)
    ensures
        match r {
            Ok(v) => spec_ruby_format(fmt@, args@) == Ok::<Seq<char>, FormatError>(v@),
            Err(e) => spec_ruby_format(fmt@, args@) == Err::<Seq<char>, FormatError>(e),
        },
{
    let plan = parse_format(fmt);
    format_plan(&plan, args)
}

/// Width and precision never exceed `MAX_FORMAT_WIDTH`, however many digits
/// a template gives.
pub proof fn law_number_capped(f: Seq<char>, i: int, e: int)
    ensures
        0 <= capped_number(f, i, e) <= MAX_FORMAT_WIDTH || (exists|j: int|
            i <= j < e && !is_ascii_digit(#[trigger] f[j])),
    decreases e - i,
{
    if e > i {
        law_number_capped(f, i, e - 1);
    }
}

/// A padded field is exactly as wide as its width asks, or as its text when
/// that is wider.
pub proof fn law_field_width(body: Seq<char>, d: Directive)
    ensures
        spec_pad_field(body, d).len() == if body.len() < d.width {
            d.width as int
        } else {
            body.len() as int
        },
{
}

/// The pieces copying `s` literally.
pub open spec fn lit_pieces(s: Seq<char>) -> Seq<Piece> {
    Seq::new(s.len(), |i: int| lit_at(s, i))
}

pub open spec fn lit_at(s: Seq<char>, i: int) -> Piece {
    Piece::Lit(s[i])
}

/// A template without `%` formats, with no arguments, to itself.
#[verifier::spinoff_prover]
pub proof fn law_plain_template(fmt: Seq<char>)
    requires
        forall|i: int| 0 <= i < fmt.len() ==> fmt[i] != '%',
    ensures
        spec_ruby_format(fmt, Seq::empty()) == Ok::<Seq<char>, FormatError>(fmt),
{
    lemma_plain_from(fmt, 0);
    assert(fmt.subrange(0, fmt.len() as int) =~= fmt);
    lemma_plain_format(fmt, 0);
}

#[verifier::spinoff_prover]
proof fn lemma_plain_from(fmt: Seq<char>, i: int)
    requires
        0 <= i <= fmt.len(),
        forall|j: int| 0 <= j < fmt.len() ==> fmt[j] != '%',
    ensures
        parse_from(fmt, i).1 is None,
        parse_from(fmt, i).0 == lit_pieces(fmt.subrange(i, fmt.len() as int)),
    decreases fmt.len() - i,
{
    lemma_parse_step(fmt, i);
    if i < fmt.len() {
        lemma_plain_from(fmt, i + 1);
        let a = seq![Piece::Lit(fmt[i])] + lit_pieces(fmt.subrange(i + 1, fmt.len() as int));
        let b = lit_pieces(fmt.subrange(i, fmt.len() as int));
        assert(a.len() == b.len());
        assert forall|j: int| 0 <= j < a.len() implies a[j] == b[j] by {
            if j > 0 {
                assert(a[j] == lit_at(fmt.subrange(i + 1, fmt.len() as int), j - 1));
            } else {
                assert(b[0] == lit_at(fmt.subrange(i, fmt.len() as int), 0));
            }
        }
        assert(seq![Piece::Lit(fmt[i])] + lit_pieces(fmt.subrange(i + 1, fmt.len() as int))
            =~= lit_pieces(fmt.subrange(i, fmt.len() as int)));
    } else {
        assert(lit_pieces(fmt.subrange(i, fmt.len() as int)) =~= Seq::<Piece>::empty());
    }
}

#[verifier::spinoff_prover]
proof fn lemma_plain_format(fmt: Seq<char>, k: int)
    requires
        0 <= k <= fmt.len(),
    ensures
        format_from(lit_pieces(fmt), None, Seq::empty(), k, 0) == Ok::<Seq<char>, FormatError>(
            fmt.subrange(k, fmt.len() as int),
        ),
    decreases fmt.len() - k,
{
    if k < fmt.len() {
        lemma_plain_format(fmt, k + 1);
        assert(lit_pieces(fmt)[k] == Piece::Lit(fmt[k]));
        assert(seq![fmt[k]] + fmt.subrange(k + 1, fmt.len() as int) =~= fmt.subrange(
            k,
            fmt.len() as int,
        ));
    } else {
        assert(fmt.subrange(k, fmt.len() as int) =~= Seq::<char>::empty());
    }
}

} // verus!
