use mrubyedge::text::{capitalize, casecmp, swapcase};
use mrubyedge::error::Error;
use mrubyedge::text::{
    chop, compare_bytes, count_set, decorate_sign, delete_set, expand_exponent, expand_set,
    ivar_name, occurrences, pad_to, partition, replace_occurrences, reverse_chars, split_lines,
    split_sign, splice_matches, squeeze, succ, tr, width_arg,
};

fn cs(s: &str) -> Vec<char> {
    s.chars().collect()
}

fn st(v: &[char]) -> String {
    v.iter().collect()
}

#[test]
fn negative_width_raises() {
    let e = width_arg(-1).unwrap_err();
    assert!(matches!(e, Error::ArgumentError(_)), "{e:?}");
    assert_eq!(e, Error::ArgumentError("negative width (-1)".to_string()));
    assert_eq!(width_arg(3).unwrap(), 3);
}

#[test]
fn ljust_rjust_center() {
    assert_eq!(st(&pad_to(&cs("ab"), 5, true, false, &cs(" "))), "ab   ");
    assert_eq!(st(&pad_to(&cs("ab"), 5, false, true, &cs("*"))), "***ab");
    assert_eq!(st(&pad_to(&cs("ab"), 7, false, false, &cs("xy"))), "xyabxyx");
    assert_eq!(st(&pad_to(&cs("abc"), 2, true, false, &cs(" "))), "abc");
    assert_eq!(st(&pad_to(&cs("abc"), 9, true, false, &cs(""))), "abc");
    assert_eq!(st(&pad_to(&cs("é"), 3, false, true, &cs("ü"))), "üüé");
}

#[test]
fn sign_helpers() {
    let (h, r) = split_sign(&cs("-12"));
    assert_eq!((st(&h), st(&r)), ("-".to_string(), "12".to_string()));
    let (h, r) = split_sign(&cs("12"));
    assert_eq!((st(&h), st(&r)), (String::new(), "12".to_string()));
    let (h, r) = split_sign(&cs(" 3"));
    assert_eq!((st(&h), st(&r)), (" ".to_string(), "3".to_string()));
    assert_eq!(st(&decorate_sign(&cs("1.5"), true, false)), "+1.5");
    assert_eq!(st(&decorate_sign(&cs("1.5"), false, true)), " 1.5");
    assert_eq!(st(&decorate_sign(&cs("-1.5"), true, true)), "-1.5");
    assert_eq!(st(&decorate_sign(&cs("1.5"), false, false)), "1.5");
}

#[test]
fn exponent_is_ruby_style() {
    assert_eq!(st(&expand_exponent(&cs("1.5e2"))), "1.5e+02");
    assert_eq!(st(&expand_exponent(&cs("1.500000e-7"))), "1.500000e-07");
    assert_eq!(st(&expand_exponent(&cs("2e123"))), "2e+123");
    assert_eq!(st(&expand_exponent(&cs("inf"))), "inf");
}

#[test]
fn ivar_names_gain_one_at_sign() {
    assert_eq!(st(&ivar_name(&cs("score"))), "@score");
    assert_eq!(st(&ivar_name(&cs("@score"))), "@score");
    assert_eq!(st(&ivar_name(&cs(""))), "@");
}

#[test]
fn character_sets_and_tr_family() {
    assert_eq!(expand_set(b"a-e"), b"abcde".to_vec());
    assert_eq!(expand_set(b"e-a"), b"abcde".to_vec());
    assert_eq!(expand_set(b"a-"), b"a-".to_vec());
    assert_eq!(expand_set(b"x-zA"), b"xyzA".to_vec());
    assert_eq!(tr(b"hello", b"el", b"ip"), b"hippo".to_vec());
    assert_eq!(tr(b"hello", b"a-y", b"b-z"), b"ifmmp".to_vec());
    assert_eq!(tr(b"hello", b"a-z", b"*"), b"*****".to_vec());
    assert_eq!(tr(b"hello", b"l", b""), b"heo".to_vec());
    assert_eq!(delete_set(b"hello", b"l-o"), b"he".to_vec());
    assert_eq!(count_set(b"hello world", b"lo"), 5);
    assert_eq!(squeeze(b"aaabbbcc", None), b"abc".to_vec());
    assert_eq!(squeeze(b"aaabbbcc", Some(b"a")), b"abbbcc".to_vec());
}

#[test]
fn lines_keep_their_separator() {
    let ls: Vec<String> = split_lines(&cs("a\nb\nc"), &cs("\n")).iter().map(|l| st(l)).collect();
    assert_eq!(ls, vec!["a\n", "b\n", "c"]);
    let ls: Vec<String> = split_lines(&cs("a\n\n"), &cs("\n")).iter().map(|l| st(l)).collect();
    assert_eq!(ls, vec!["a\n", "\n"]);
    let ls: Vec<String> = split_lines(&cs("x--y"), &cs("--")).iter().map(|l| st(l)).collect();
    assert_eq!(ls, vec!["x--", "y"]);
    let ls: Vec<String> = split_lines(&cs("abc"), &cs("")).iter().map(|l| st(l)).collect();
    assert_eq!(ls, vec!["abc"]);
    assert!(split_lines(&cs(""), &cs("\n")).is_empty());
    // Joining the lines gives the text back.
    let text = "one\ntwo\n\nthree";
    let joined: String = split_lines(&cs(text), &cs("\n")).iter().map(|l| st(l)).collect();
    assert_eq!(joined, text);
}

#[test]
fn sub_and_gsub_on_literal_patterns() {
    assert_eq!(st(&replace_occurrences(&cs("banana"), &cs("an"), &cs("AN"), true).unwrap()), "bANANa");
    assert_eq!(st(&replace_occurrences(&cs("banana"), &cs("an"), &cs("AN"), false).unwrap()), "bANana");
    assert_eq!(st(&replace_occurrences(&cs("aaa"), &cs("aa"), &cs("b"), true).unwrap()), "ba");
    assert_eq!(st(&replace_occurrences(&cs("abc"), &cs("x"), &cs("y"), true).unwrap()), "abc");
    assert_eq!(
        replace_occurrences(&cs("abc"), &cs(""), &cs("y"), true),
        Err(Error::ArgumentError("empty pattern is not supported".to_string()))
    );
    let pos = occurrences(&cs("abcabc"), &cs("bc"), true);
    assert_eq!(pos, vec![1, 4]);
    let reps = vec![cs("<1>"), cs("<2>")];
    assert_eq!(st(&splice_matches(&cs("abcabc"), 2, &pos, &reps)), "a<1>a<2>");
    assert_eq!(occurrences(&cs("abcabc"), &cs("bc"), false), vec![1]);
}

#[test]
fn partition_chop_reverse() {
    let (a, b, c) = partition(&cs("key=value=x"), &cs("="));
    assert_eq!((st(&a), st(&b), st(&c)), ("key".into(), "=".into(), "value=x".into()));
    let (a, b, c) = partition(&cs("plain"), &cs("="));
    assert_eq!((st(&a), st(&b), st(&c)), ("plain".into(), String::new(), String::new()));
    assert_eq!(st(&chop(&cs("line\r\n"))), "line");
    assert_eq!(st(&chop(&cs("line\n"))), "line");
    assert_eq!(st(&chop(&cs("x"))), "");
    assert_eq!(st(&chop(&cs(""))), "");
    assert_eq!(st(&reverse_chars(&cs("héllo"))), "olléh");
}

#[test]
fn succ_carries_within_character_classes() {
    assert_eq!(st(&succ(&cs("az"))), "ba");
    assert_eq!(st(&succ(&cs("zz"))), "aaa");
    assert_eq!(st(&succ(&cs("a9"))), "b0");
    assert_eq!(st(&succ(&cs("9"))), "10");
    assert_eq!(st(&succ(&cs("Zz"))), "AAa");
    assert_eq!(st(&succ(&cs("a!"))), "a!");
    assert_eq!(st(&succ(&cs(""))), "");
}

#[test]
fn byte_order_of_strings() {
    assert_eq!(compare_bytes(b"apple", b"banana"), -1);
    assert_eq!(compare_bytes(b"b", b"a"), 1);
    assert_eq!(compare_bytes(b"same", b"same"), 0);
    assert_eq!(compare_bytes(b"ab", b"abc"), -1);
    assert_eq!(compare_bytes(b"abc", b"ab"), 1);
}

#[test]
fn case_mappings() {
    assert_eq!(st(&capitalize(&cs("hELLO wORLD"))), "Hello world");
    assert_eq!(st(&capitalize(&cs(""))), "");
    assert_eq!(st(&capitalize(&cs("ßa"))), "SSa");
    assert_eq!(st(&swapcase(&cs("Hello World"))), "hELLO wORLD");
    assert_eq!(casecmp(&cs("aBc"), &cs("AbC")), 0);
    assert_eq!(casecmp(&cs("abc"), &cs("ABD")), -1);
    assert_eq!(casecmp(&cs("b"), &cs("A")), 1);
}
