use mrubyedge::value::{fast_int_op, FastOp, FastOutcome};
use mrubyedge::numeric::{integer_bitref, integer_chr, integer_mod_arg, integer_shl, integer_shr};
use mrubyedge::compare::{between, clamp_pick, comparable_holds, integer_clamp, ClampPick, Relation};
use mrubyedge::error::Error;
use mrubyedge::numeric::{
    gcd_mag, integer_bit_length, integer_digits, integer_div, integer_divmod, integer_even,
    integer_gcd, integer_lcm, integer_mod, integer_odd, integer_pow, integer_pow_mod, integer_pred,
    integer_sign, integer_succ, Sign,
};
use mrubyedge::text::compare_bytes;
use mrubyedge::value::rubylike_mod_i64;

fn int_cmp(a: i64, b: i64) -> Option<i64> {
    Some((a > b) as i64 - (a < b) as i64)
}

fn str_cmp(a: &str, b: &str) -> Option<i64> {
    Some(compare_bytes(a.as_bytes(), b.as_bytes()))
}

#[test]
fn parity_sign_succ_pred() {
    assert!(integer_even(4));
    assert!(!integer_odd(4));
    assert!(integer_sign(0, Sign::Zero));
    assert!(integer_sign(5, Sign::Positive));
    assert!(integer_sign(-5, Sign::Negative));
    assert_eq!(integer_succ(5).unwrap(), 6);
    assert_eq!(integer_pred(5).unwrap(), 4);
}

#[test]
fn division_family() {
    let (q, m) = integer_divmod(-7, 2).unwrap();
    // Integer#fdiv divides as floats.
    assert_eq!(-7i64 as f64 / 2i64 as f64, -3.5);
    assert_eq!(q, -4);
    assert_eq!(m, 1);
    assert_eq!(integer_div(-7, 2).unwrap(), -4);
    assert_eq!(integer_pow(2, 10).unwrap(), 1024);
}

#[test]
fn digits_gcd_lcm_bit_length() {
    let d = integer_digits(255, 16).unwrap();
    assert_eq!(d[0], 15);
    assert_eq!(d[1], 15);
    assert_eq!(integer_gcd(12, 18).unwrap(), 6);
    assert_eq!(integer_lcm(4, 6).unwrap(), 12);
    assert_eq!(integer_bit_length(8), 4);
}

#[test]
fn integer_modulo_is_floored() {
    assert_eq!(integer_mod(-7, 2).unwrap(), 1);
    assert_eq!(integer_mod(7, -3).unwrap(), -2);
    assert_eq!(integer_mod(-7, 2).unwrap(), 1);
    assert_eq!(integer_mod(7, -3).unwrap(), -2);
    // Mixed Integer/Float modulo is taken on floats, floored.
    let fmod = |a: f64, b: f64| a - b * (a / b).floor();
    assert_eq!(fmod(7.0, 2.5), 2.0);
    assert_eq!(fmod(4.5, 2.0), 0.5);
}

#[test]
fn modulo_by_zero_raises() {
    assert_eq!(integer_mod(7, 0), Err(Error::ZeroDivisionError));
    assert_eq!(integer_divmod(7, 0), Err(Error::ZeroDivisionError));
    assert_eq!(integer_div(7, 0), Err(Error::ZeroDivisionError));
}

#[test]
fn modulo_assignment_wraps_positions() {
    let fmod = |a: f64, b: f64| a - b * (a / b).floor();
    assert_eq!(fmod(17.0, 10.0), 7.0);
    assert_eq!(integer_mod(17, 10).unwrap(), 7);
}

#[test]
fn integer_mod_and_gcd_handle_i64_min() {
    let m = i64::MIN;
    assert_eq!(integer_mod(m, -1).unwrap(), 0, "i64::MIN % -1 must not overflow");
    assert_eq!(integer_gcd(m, 1).unwrap(), 1, "gcd must not panic on i64::MIN");
    assert!(integer_even(m));
}

#[test]
fn integer_overflow_raises_instead_of_panicking() {
    assert!(matches!(integer_pred(i64::MIN), Err(Error::RangeError(_))));
    assert!(matches!(integer_succ(i64::MAX), Err(Error::RangeError(_))));
    assert!(matches!(integer_divmod(i64::MIN, -1), Err(Error::RangeError(_))));
}

#[test]
fn integer_divmod_does_not_overflow() {
    let a = i64::MIN;
    let b = i64::MAX;
    let d1 = integer_divmod(a, b).unwrap();
    let d2 = integer_divmod(1, a).unwrap();
    assert_eq!(d1.0, -2);
    assert_eq!(d1.1, 9223372036854775806);
    assert_eq!(d2.0, -1);
    assert_eq!(d2.1, -9223372036854775807);
}

#[test]
fn between_and_clamp() {
    assert!(between(int_cmp(5, 1), int_cmp(5, 10)));
    assert!(!between(int_cmp(0, 1), int_cmp(0, 10)));
    assert_eq!(integer_clamp(7, 1, 5).unwrap(), 5);
    assert_eq!(integer_clamp(-3, 1, 5).unwrap(), 1);
    assert!(between(str_cmp("m", "a"), str_cmp("m", "z")));
}

#[test]
fn string_ordering_operators() {
    assert!(comparable_holds(Relation::Lt, str_cmp("apple", "banana")));
    assert!(!comparable_holds(Relation::Ge, str_cmp("b", "c")));
    assert!(comparable_holds(Relation::Eq, str_cmp("same", "same")));
}

#[test]
fn user_class_derives_operators_from_spaceship() {
    // Levels 1 and 2 compared through their values.
    assert!(comparable_holds(Relation::Lt, int_cmp(1, 2)));
    assert!(comparable_holds(Relation::Le, int_cmp(1, 1)));
    assert!(comparable_holds(Relation::Gt, int_cmp(2, 1)));
    assert!(!comparable_holds(Relation::Ge, int_cmp(1, 2)));
    assert!(comparable_holds(Relation::Eq, int_cmp(1, 1)));
}

#[test]
fn incomparable_values_satisfy_no_relation() {
    for rel in [Relation::Lt, Relation::Le, Relation::Gt, Relation::Ge, Relation::Eq] {
        assert!(!comparable_holds(rel, None));
    }
}

#[test]
fn clamp_picks_bound_or_receiver() {
    assert_eq!(clamp_pick(int_cmp(5, 1), int_cmp(7, 1), int_cmp(7, 5)).unwrap(), ClampPick::High);
    assert_eq!(clamp_pick(int_cmp(5, 1), int_cmp(-3, 1), int_cmp(-3, 5)).unwrap(), ClampPick::Low);
    assert_eq!(clamp_pick(int_cmp(5, 1), int_cmp(3, 1), int_cmp(3, 5)).unwrap(), ClampPick::Receiver);
    assert_eq!(
        clamp_pick(int_cmp(1, 5), int_cmp(3, 5), int_cmp(3, 1)),
        Err(Error::ArgumentError("min argument must be smaller than max".to_string()))
    );
    assert_eq!(
        integer_clamp(1, 5, 1),
        Err(Error::ArgumentError("min argument must be smaller than max argument".to_string()))
    );
}

#[test]
fn floored_mod_laws_on_values() {
    for (a, b) in [(-7i64, 2i64), (7, -3), (-7, -3), (7, 3), (0, 5), (i64::MIN, 3)] {
        let r = rubylike_mod_i64(a, b);
        assert!(r == 0 || (r < 0) == (b < 0), "sign of {a} mod {b}");
        assert!(r.unsigned_abs() < b.unsigned_abs());
        let (q, m) = integer_divmod(a, b).unwrap();
        assert_eq!(m, r);
        assert_eq!(q as i128 * b as i128 + m as i128, a as i128);
    }
}

#[test]
fn pow_and_pow_mod() {
    assert_eq!(integer_pow(3, 4).unwrap(), 81);
    assert_eq!(integer_pow(2, 70).unwrap(), i64::MAX, "saturates");
    assert!(matches!(integer_pow(2, -1), Err(Error::ArgumentError(_))));
    assert_eq!(integer_pow_mod(3, 4, 5).unwrap(), 1);
    assert_eq!(integer_pow_mod(-3, 3, 5).unwrap(), -2);
    assert_eq!(integer_pow_mod(3, 0, 5).unwrap(), 1);
    assert_eq!(integer_pow_mod(3, 2, 0), Err(Error::ZeroDivisionError));
}

#[test]
fn digits_errors_and_base_ten() {
    assert_eq!(integer_digits(1203, 10).unwrap(), vec![3, 0, 2, 1]);
    assert_eq!(integer_digits(0, 10).unwrap(), vec![0]);
    assert!(matches!(integer_digits(-1, 10), Err(Error::ArgumentError(_))));
    assert!(matches!(integer_digits(5, 1), Err(Error::ArgumentError(_))));
}

#[test]
fn gcd_lcm_edges() {
    assert_eq!(gcd_mag(0, 0), 0);
    assert_eq!(gcd_mag(48, 18), 6);
    assert_eq!(integer_gcd(-12, 18).unwrap(), 6);
    assert!(matches!(integer_gcd(i64::MIN, 0), Err(Error::RangeError(_))));
    assert_eq!(integer_lcm(0, 5).unwrap(), 0);
    assert!(matches!(integer_lcm(i64::MAX, i64::MAX - 1), Err(Error::RangeError(_))));
    assert_eq!(integer_bit_length(-1), 0);
    assert_eq!(integer_bit_length(-256), 8);
    assert_eq!(integer_div(7, -2).unwrap(), -3);
}

#[test]
fn bits_shifts_and_chr() {
    assert_eq!(integer_bitref(5, 0), 1);
    assert_eq!(integer_bitref(5, 1), 0);
    assert_eq!(integer_bitref(-1, 63), 1);
    assert_eq!(integer_bitref(5, -1), 0);
    assert_eq!(integer_shl(3, 4).unwrap(), 48);
    assert_eq!(integer_shr(-16, 2).unwrap(), -4);
    assert_eq!(integer_shl(1, -1), Err(Error::ArgumentError("negative shift count".to_string())));
    assert_eq!(integer_chr(65).unwrap(), 'A');
    assert_eq!(integer_chr(-1), Err(Error::RangeError("-1 out of char range".to_string())));
    assert_eq!(integer_chr(0xD800), Err(Error::RangeError("invalid codepoint: 55296".to_string())));
}

#[test]
fn send_fast_path_for_integers() {
    assert_eq!(fast_int_op(FastOp::IntModTrunc, -7, Some(2)), FastOutcome::Int(-1));
    assert_eq!(fast_int_op(FastOp::IntModTrunc, 7, Some(0)), FastOutcome::Fallback);
    assert_eq!(fast_int_op(FastOp::IntModFloored, -7, Some(2)), FastOutcome::Int(1));
    assert_eq!(fast_int_op(FastOp::IntModFloored, 7, Some(0)), FastOutcome::ZeroDivision);
    assert_eq!(fast_int_op(FastOp::IntPow, 3, Some(4)), FastOutcome::Int(81));
    assert_eq!(fast_int_op(FastOp::IntPow, 3, Some(-1)), FastOutcome::FloatPower);
    assert_eq!(fast_int_op(FastOp::NumSpaceship, 3, Some(4)), FastOutcome::Int(-1));
    assert_eq!(fast_int_op(FastOp::NumNe, 3, Some(3)), FastOutcome::Bool(false));
    assert_eq!(fast_int_op(FastOp::NumNe, 3, None), FastOutcome::Fallback);
    assert_eq!(fast_int_op(FastOp::FloatModFloored, 3, Some(2)), FastOutcome::Fallback);
}

#[test]
fn modulo_without_argument_raises() {
    let e = integer_mod_arg(5, None).unwrap_err();
    assert!(matches!(e, Error::ArgumentError(_)), "{e:?}");
    assert_eq!(e, Error::ArgumentError("missing argument at arg 0".to_string()));
    assert_eq!(integer_mod_arg(5, Some(3)), Ok(2));
}

#[test]
fn floored_modulo_fast_path_by_minus_one_is_zero() {
    assert_eq!(fast_int_op(FastOp::IntModFloored, i64::MIN, Some(-1)), FastOutcome::Int(0));
    assert_eq!(fast_int_op(FastOp::IntModFloored, 7, Some(-1)), FastOutcome::Int(0));
    assert_eq!(fast_int_op(FastOp::IntModFloored, -7, Some(3)), FastOutcome::Int(2));
}

#[test]
fn power_fast_path_matches_checked_pow() {
    for base in [-9i64, -3, -2, -1, 0, 1, 2, 3, 10, i64::MAX, i64::MIN] {
        for e in 0i64..70 {
            let expected = match base.checked_pow(e as u32) {
                Some(v) => FastOutcome::Int(v),
                None => FastOutcome::Fallback,
            };
            assert_eq!(fast_int_op(FastOp::IntPow, base, Some(e)), expected, "{base} ** {e}");
        }
    }
    assert_eq!(fast_int_op(FastOp::IntPow, -1, Some(4_000_000_001)), FastOutcome::Int(-1));
    assert_eq!(fast_int_op(FastOp::IntPow, 2, Some(-1)), FastOutcome::FloatPower);
}
