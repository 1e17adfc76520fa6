use mrubyedge::error::Error;
use mrubyedge::format::{ruby_format, FormatArg, FormatError};
use mrubyedge::radix::{from_str_radix, integer_of_text, string_hex, string_oct, trim};
use mrubyedge::text::{
    capitalize, casecmp, chop, compare_bytes, count_set, delete_set, occurrences, pad_to,
    partition, replace_occurrences, reverse_chars, splice_matches, split_lines, squeeze, succ,
    swapcase, tr,
};

fn cs(s: &str) -> Vec<char> {
    s.chars().collect()
}

fn st(v: &[char]) -> String {
    v.iter().collect()
}

fn bs(v: Vec<u8>) -> String {
    String::from_utf8(v).unwrap()
}

fn fmt(template: &str, args: &[FormatArg]) -> Result<String, FormatError> {
    ruby_format(&cs(template), args).map(|v| v.into_iter().collect())
}

fn text(s: &str) -> FormatArg {
    FormatArg::Text(cs(s))
}

fn gsub(s: &str, pat: &str, rep: &str) -> String {
    st(&replace_occurrences(&cs(s), &cs(pat), &cs(rep), true).unwrap())
}

fn sub(s: &str, pat: &str, rep: &str) -> String {
    st(&replace_occurrences(&cs(s), &cs(pat), &cs(rep), false).unwrap())
}

#[test]
fn tr_maps_ranges_and_delete_squeeze_count_sets() {
    assert_eq!(bs(tr(b"hello", b"el", b"ip")), "hippo");
    assert_eq!(bs(tr(b"a-b-c", b"a-c", b"xyz")), "x-y-z");
    assert_eq!(bs(delete_set(b"hello", b"l")), "heo");
    assert_eq!(bs(squeeze(b"bookkeeper", None)), "bokeper");
    assert_eq!(bs(squeeze(b"aaabbc", Some(&b"a"[..]))), "abbc");
    assert_eq!(count_set(b"mississippi", b"is"), 8);
}

#[test]
fn gsub_and_sub_replace_literal_patterns() {
    assert_eq!(gsub("hello world", "o", "0"), "hell0 w0rld");
    assert_eq!(gsub("banana", "na", "NA"), "baNANA");
    assert_eq!(sub("hello", "l", "L"), "heLlo");
    assert_eq!(gsub("same", "zz", "q"), "same");
}

#[test]
fn alignment_and_case_helpers() {
    assert_eq!(st(&pad_to(&cs("ab"), 7, false, false, &cs(" "))), "  ab   ");
    assert_eq!(st(&pad_to(&cs("ab"), 6, false, false, &cs("*"))), "**ab**");
    assert_eq!(st(&pad_to(&cs("hi"), 4, true, false, &cs("."))), "hi..");
    assert_eq!(st(&pad_to(&cs("hi"), 4, false, true, &cs("."))), "..hi");
    assert_eq!(st(&swapcase(&cs("Hello"))), "hELLO");
    assert_eq!(casecmp(&cs("abc"), &cs("ABC")), 0);
    assert!(!(casecmp(&cs("abc"), &cs("ABD")) == 0));
    assert_eq!(st(&reverse_chars(&cs("hello"))), "olleh");
}

#[test]
fn destructive_edits_and_partition() {
    let (head, sep, tail) = partition(&cs("key=value"), &cs("="));
    assert_eq!(st(&head), "key");
    assert_eq!(st(&sep), "=");
    assert_eq!(st(&tail), "value");
    assert_eq!(st(&chop(&cs("hi!"))), "hi");
}

#[test]
fn iteration_hex_oct_and_succ() {
    assert_eq!(string_hex(&cs("0xFF")), 255);
    assert_eq!(string_oct(&cs("10")), 8);
    assert_eq!(st(&succ(&cs("az"))), "ba");
    assert_eq!(st(&succ(&cs("z"))), "aa");
    assert_eq!(st(&succ(&cs("9"))), "10");
    let lines = split_lines(&cs("x\ny"), &cs("\n"));
    assert_eq!(lines.len(), 2);
    assert_eq!(st(&lines[1]), "y");
}

#[test]
fn gsub_block_receives_each_match() {
    // The block's value for each match: `m.upcase`, a constant, and none.
    let s = cs("aaa");
    let pos = occurrences(&s, &cs("a"), true);
    let reps: Vec<Vec<char>> = pos.iter().map(|_| cs("A")).collect();
    assert_eq!(st(&splice_matches(&s, 1, &pos, &reps)), "AAA");
    let s = cs("a b");
    let pos = occurrences(&s, &cs(" "), true);
    let reps: Vec<Vec<char>> = pos.iter().map(|_| cs("-")).collect();
    assert_eq!(st(&splice_matches(&s, 1, &pos, &reps)), "a-b");
    let s = cs("xy");
    let pos = occurrences(&s, &cs("z"), true);
    assert!(pos.is_empty());
    assert_eq!(st(&splice_matches(&s, 1, &pos, &[])), "xy");
}

#[test]
fn percent_formats_integers_and_strings() {
    assert_eq!(fmt("%d!", &[FormatArg::Int(42)]).unwrap(), "42!");
    assert_eq!(fmt("%s x %d", &[text("a"), FormatArg::Int(3)]).unwrap(), "a x 3");
    assert_eq!(fmt("%-5s|", &[text("ab")]).unwrap(), "ab   |");
    assert_eq!(fmt("%5s|", &[text("ab")]).unwrap(), "   ab|");
}

#[test]
fn float_precision_zero_pad_and_bases() {
    let f = FormatArg::Float(cs(&format!("{:.2}", 3.14159f64)));
    assert_eq!(fmt("%.2f", &[f]).unwrap(), "3.14");
    assert_eq!(fmt("%05d", &[FormatArg::Int(42)]).unwrap(), "00042");
    let bases = [FormatArg::Int(255), FormatArg::Int(8), FormatArg::Int(5)];
    assert_eq!(fmt("%x %o %b", &bases).unwrap(), "ff 10 101");
    assert_eq!(fmt("%+d", &[FormatArg::Int(5)]).unwrap(), "+5");
    assert_eq!(fmt("%c", &[FormatArg::Int(65)]).unwrap(), "A");
}

#[test]
fn kernel_sprintf_and_format_match() {
    let f = FormatArg::Float(cs(&format!("{:.3}", 3.14159f64)));
    assert_eq!(fmt("%08.3f", &[f]).unwrap(), "0003.142");
    let e = FormatArg::Float(cs(&format!("{:.6e}", 150.0f64)));
    assert_eq!(fmt("%e", &[e]).unwrap(), "1.500000e+02");
    assert_eq!(fmt("%X", &[FormatArg::Int(255)]).unwrap(), "FF");
}

#[test]
fn format_negative_zero_pad_keeps_full_width() {
    let f = FormatArg::Float(cs(&format!("{:.3}", -3.14159f64)));
    assert_eq!(fmt("%08.3f", &[f]).unwrap(), "-003.142");
    assert_eq!(fmt("%06d", &[FormatArg::Int(-42)]).unwrap(), "-00042");
}

#[test]
fn format_precision_truncates_by_character() {
    assert_eq!(fmt("%.1s", &[text("é")]).unwrap(), "é");
    assert_eq!(fmt("%.2s", &[text("héllo")]).unwrap(), "hé");
}

#[test]
fn format_c_string_takes_first_char() {
    assert_eq!(fmt("%c", &[text("abc")]).unwrap(), "a");
    assert_eq!(fmt("%c", &[text("")]), Err(FormatError::InvalidCharacter));
}

#[test]
fn format_huge_width_is_clamped() {
    let s = fmt("%99999999999999999999d", &[FormatArg::Int(1)]).unwrap();
    assert_eq!(s.len(), 1_000_000, "width saturates instead of overflowing");
}

#[test]
fn reverse_is_utf8_safe() {
    assert_eq!(st(&reverse_chars(&cs("héllo"))), "olléh");
}

#[test]
fn case_transformations_round_trip() {
    assert_eq!(st(&capitalize(&cs("hello"))), "Hello");
    assert_eq!(st(&succ(&cs("a"))), "b");
}

#[test]
fn ordering_and_casecmp() {
    assert_eq!(compare_bytes(b"abc", b"abd"), -1);
    assert_eq!(compare_bytes(b"zz", b"aa"), 1);
    assert_eq!(casecmp(&cs("abc"), &cs("ABC")), 0);
}

#[test]
fn kernel_conversions() {
    assert_eq!(integer_of_text(&cs("42")), Ok(42));
    let e = integer_of_text(&cs("zz")).unwrap_err();
    assert!(matches!(e, Error::ArgumentError(_)), "{e:?}");
}

#[test]
fn hex_and_oct_prefixes_and_failures() {
    assert_eq!(string_hex(&cs("  ff  ")), 255);
    assert_eq!(string_hex(&cs("0X1a")), 26);
    assert_eq!(string_hex(&cs("++10")), 16);
    assert_eq!(string_hex(&cs("-ff")), -255);
    assert_eq!(string_hex(&cs("zz")), 0);
    assert_eq!(string_hex(&cs("")), 0);
    assert_eq!(string_oct(&cs("0b101")), 5);
    assert_eq!(string_oct(&cs("0o17")), 15);
    assert_eq!(string_oct(&cs("0x1F")), 31);
    assert_eq!(string_oct(&cs("+17")), 15);
    assert_eq!(string_oct(&cs("9")), 0);
}

#[test]
fn radix_reading_bounds_and_signs() {
    assert_eq!(from_str_radix(&cs("9223372036854775807"), 10), Some(i64::MAX));
    assert_eq!(from_str_radix(&cs("-9223372036854775808"), 10), Some(i64::MIN));
    assert_eq!(from_str_radix(&cs("9223372036854775808"), 10), None);
    assert_eq!(from_str_radix(&cs("99999999999999999999999"), 10), None);
    assert_eq!(from_str_radix(&cs("+"), 10), None);
    assert_eq!(from_str_radix(&cs("-"), 10), None);
    assert_eq!(from_str_radix(&cs(""), 10), None);
    assert_eq!(from_str_radix(&cs("+-1"), 10), None);
    assert_eq!(from_str_radix(&cs("zZ"), 36), Some(35 * 36 + 35));
    for s in ["0", "17", "-5", "+8", "12a", "1 2", "７"] {
        assert_eq!(from_str_radix(&cs(s), 10), i64::from_str_radix(s, 10).ok(), "{s}");
    }
}

#[test]
fn trim_removes_unicode_whitespace_at_both_ends() {
    assert_eq!(st(&trim(&cs(" \t a b \n"))), "a b");
    assert_eq!(st(&trim(&cs("\u{3000}x\u{a0}"))), "x");
    assert_eq!(st(&trim(&cs("   "))), "");
    let e = integer_of_text(&cs(" 4x ")).unwrap_err();
    assert_eq!(e, Error::ArgumentError("invalid value for Integer(): 4x".to_string()));
    assert_eq!(integer_of_text(&cs(" -7\n")), Ok(-7));
}

#[test]
fn trim_agrees_with_std_whitespace_everywhere() {
    for u in 0u32..=0x10FFFF {
        if let Some(c) = char::from_u32(u) {
            let t = trim(&[c]);
            assert_eq!(t.is_empty(), c.is_whitespace(), "U+{u:04X}");
        }
    }
}
