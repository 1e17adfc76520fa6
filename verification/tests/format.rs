use mrubyedge::format::{
    parse_format, render_field, ruby_format, Directive, FormatArg, FormatError, Piece,
};

fn cs(s: &str) -> Vec<char> {
    s.chars().collect()
}

fn fmt(template: &str, args: &[FormatArg]) -> Result<String, FormatError> {
    ruby_format(&cs(template), args).map(|v| v.into_iter().collect())
}

fn text(s: &str) -> FormatArg {
    FormatArg::Text(cs(s))
}

fn float(s: &str) -> FormatArg {
    FormatArg::Float(cs(s))
}

#[test]
fn integer_conversions_and_flags() {
    assert_eq!(fmt("%d", &[FormatArg::Int(42)]).unwrap(), "42");
    assert_eq!(fmt("%5d|", &[FormatArg::Int(42)]).unwrap(), "   42|");
    assert_eq!(fmt("%-5d|", &[FormatArg::Int(42)]).unwrap(), "42   |");
    assert_eq!(fmt("%05d", &[FormatArg::Int(-42)]).unwrap(), "-0042");
    assert_eq!(fmt("%+d % d", &[FormatArg::Int(7), FormatArg::Int(7)]).unwrap(), "+7  7");
    assert_eq!(fmt("%x %X %o %b", &[FormatArg::Int(255), FormatArg::Int(255), FormatArg::Int(8), FormatArg::Int(5)]).unwrap(), "ff FF 10 101");
    assert_eq!(fmt("%x", &[FormatArg::Int(-255)]).unwrap(), "-ff");
    assert_eq!(fmt("%d", &[FormatArg::Int(i64::MIN)]).unwrap(), "-9223372036854775808");
}

#[test]
fn float_fields_use_the_rendered_text() {
    // The caller renders floats: `{:.2}` of 3.14159 is "3.14", `{:e}` forms
    // are rewritten Ruby-style.
    assert_eq!(fmt("%.2f", &[float("3.14")]).unwrap(), "3.14");
    assert_eq!(fmt("%+.2f", &[float("3.14")]).unwrap(), "+3.14");
    assert_eq!(fmt("%08.2f", &[float("-3.14")]).unwrap(), "-0003.14");
    assert_eq!(fmt("%e", &[float("1.500000e2")]).unwrap(), "1.500000e+02");
    assert_eq!(fmt("%E", &[float("1.500000e-7")]).unwrap(), "1.500000E-07");
    assert_eq!(fmt("%g", &[float("0.5")]).unwrap(), "0.5");
}

#[test]
fn strings_chars_and_percent() {
    assert_eq!(fmt("%s and %s", &[text("a"), text("b")]).unwrap(), "a and b");
    assert_eq!(fmt("%.2s", &[text("hello")]).unwrap(), "he");
    assert_eq!(fmt("%-4s|", &[text("ab")]).unwrap(), "ab  |");
    assert_eq!(fmt("%04s", &[text("ab")]).unwrap(), "  ab");
    assert_eq!(fmt("%c%c", &[FormatArg::Int(72), text("iya")]).unwrap(), "Hi");
    assert_eq!(fmt("100%%", &[]).unwrap(), "100%");
}

#[test]
fn errors_follow_the_template_order() {
    assert_eq!(fmt("abc%", &[]), Err(FormatError::TrailingPercent));
    assert_eq!(fmt("%5", &[FormatArg::Int(1)]), Err(FormatError::Malformed));
    assert_eq!(fmt("%d %d", &[FormatArg::Int(1)]), Err(FormatError::TooFewArguments));
    assert_eq!(fmt("%d", &[FormatArg::Int(1), FormatArg::Int(2)]), Err(FormatError::TooManyArguments));
    assert_eq!(fmt("%d", &[text("x")]), Err(FormatError::ExpectedInteger));
    assert_eq!(fmt("%f", &[FormatArg::Int(1)]), Err(FormatError::ExpectedFloat));
    assert_eq!(fmt("%c", &[FormatArg::Int(0xD800)]), Err(FormatError::InvalidCodepoint));
    assert_eq!(fmt("%c", &[text("")]), Err(FormatError::InvalidCharacter));
    assert_eq!(fmt("%c", &[FormatArg::Other]), Err(FormatError::CharNeedsIntegerOrString));
    assert_eq!(fmt("%q", &[FormatArg::Int(1)]), Err(FormatError::Unsupported('q')));
    // An argument error in an earlier field wins over a later syntax error.
    assert_eq!(fmt("%d%", &[text("x")]), Err(FormatError::ExpectedInteger));
    // A missing argument is reported before the conversion is looked at.
    assert_eq!(fmt("%q", &[]), Err(FormatError::TooFewArguments));
}

#[test]
fn width_saturates_instead_of_overflowing() {
    let s = fmt("%99999999999999999999d", &[FormatArg::Int(1)]).unwrap();
    assert_eq!(s.chars().count(), 1_000_000);
}

#[test]
fn parse_splits_literals_and_fields() {
    let plan = parse_format(&cs("a%-+05.3xb"));
    assert!(plan.error.is_none());
    assert_eq!(plan.pieces.len(), 3);
    assert_eq!(plan.pieces[0], Piece::Lit('a'));
    assert_eq!(
        plan.pieces[1],
        Piece::Field(Directive {
            left: true,
            zero: true,
            plus: true,
            space: false,
            width: 5,
            prec: Some(3),
            conv: 'x'
        })
    );
    assert_eq!(plan.pieces[2], Piece::Lit('b'));
    let d = Directive { left: false, zero: true, plus: false, space: false, width: 4, prec: None, conv: 'd' };
    let r: String = render_field(&d, &FormatArg::Int(-5)).unwrap().into_iter().collect();
    assert_eq!(r, "-005");
}
