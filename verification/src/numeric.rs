//! Integer kernels of the Integer methods (succ, pred, divmod, %, div, pow,
//! digits, gcd, lcm, bit_length). Each takes the receiver and arguments as
//! plain integers and raises the Ruby error the method raises.

use vstd::prelude::*;

use crate::error::{Error, is_range_error, is_argument_error, range_error, argument_error};
use crate::value::{floored_mod, rubylike_mod_i64};
use vstd::arithmetic::power::pow;
use vstd::arithmetic::power2::pow2;

verus! {

/// Which sign Integer#zero?, #positive? and #negative? ask about.
#[derive(Debug, Clone, Copy, PartialEq, Eq, Structural)]
pub enum Sign {
    Zero,
    Positive,
    Negative,
}

/// Integer#zero?, #positive? and #negative?.
pub fn integer_sign(n: i64, want: Sign) -> (r: bool)
    ensures
        r == match want {
            Sign::Zero => n == 0,
            Sign::Positive => n > 0,
            Sign::Negative => n < 0,
        },
{
    match want {
        Sign::Zero => n == 0,
        Sign::Positive => n > 0,
        Sign::Negative => n < 0,
    }
}

/// Integer#succ: `n + 1`; `RangeError` when it does not fit.
pub fn integer_succ(n: i64) -> (r: Result<i64, Error>)
    ensures
        n < i64::MAX ==> r == Ok::<i64, Error>((n + 1) as i64),
        n == i64::MAX ==> is_range_error(r, "integer overflow"@),
{
    match n.checked_add(1) {
        Some(v) => Ok(v),
        None => Err(range_error("integer overflow")),
    }
}

/// Integer#pred: `n - 1`; `RangeError` when it does not fit.
pub fn integer_pred(n: i64) -> (r: Result<i64, Error>)
    ensures
        n > i64::MIN ==> r == Ok::<i64, Error>((n - 1) as i64),
        n == i64::MIN ==> is_range_error(r, "integer overflow"@),
{
    match n.checked_sub(1) {
        Some(v) => Ok(v),
        None => Err(range_error("integer overflow")),
    }
}

/// Integer#even?.
pub fn integer_even(n: i64) -> (r: bool)
    ensures
        r <==> (n as int) % 2 == 0,
{
    let r = n % 2 == 0;
    proof {
        if n < 0 {
            crate::value::lemma_neg_mod(n as int, 2);
        }
    }
    r
}

/// Integer#odd?.
pub fn integer_odd(n: i64) -> (r: bool)
    ensures
        r <==> (n as int) % 2 == 1,
{
    let r = n % 2 != 0;
    proof {
        if n < 0 {
            crate::value::lemma_neg_mod(n as int, 2);
        }
    }
    r
}

/// Integer#divmod: `[q, r]` with Ruby's floored division, `a == q * b + r`.
/// `i64::MIN.divmod(-1)` has no representable quotient.
pub fn integer_divmod(a: i64, b: i64) -> (r: Result<(i64, i64), Error>)
    ensures
        b == 0 ==> r == Err::<(i64, i64), Error>(Error::ZeroDivisionError),
        b == -1 && a == i64::MIN ==> is_range_error(r, "integer overflow"@),
        b != 0 && !(b == -1 && a == i64::MIN) ==> (r matches Ok((q, m)) && m as int
            == floored_mod(a as int, b as int) && q as int * b as int + m as int == a as int),
{
    if b == 0 {
        return Err(Error::ZeroDivisionError);
    }
    if b == -1 {
        return match checked_neg_i64(a) {
            Some(q) => {
                assert(q as int * -1 + 0 == a as int);
                Ok((q, 0))
            },
            None => Err(range_error("integer overflow")),
        };
    }
    let m = rubylike_mod_i64(a, b);
    let diff: i128 = a as i128 - m as i128;
    proof {
        lemma_floored_mod_facts(a as int, b as int);
    }
    let q128 = match diff.checked_div(b as i128) {
        Some(v) => v,
        None => {
            assert(false);
            0
        },
    };
    proof {
        lemma_exact_quotient(diff as int, b as int, q128 as int);
        lemma_floored_quotient_fits(a as int, b as int, q128 as int);
    }
    let q = q128 as i64;
    Ok((q, m))
}

/// Negation of an `i64`, `None` for `i64::MIN`.
fn checked_neg_i64(n: i64) -> (r: Option<i64>)
    ensures
        n == i64::MIN ==> r is None,
        n != i64::MIN ==> r == Some((-n) as i64),
{
    if n == i64::MIN {
        None
    } else {
        Some(-n)
    }
}

/// Facts on the floored remainder: its range and that `a - r` is a
/// multiple of `b`.
pub proof fn lemma_floored_mod_facts(a: int, b: int)
    requires
        b != 0,
    ensures
        b > 0 ==> 0 <= floored_mod(a, b) < b,
        b < 0 ==> b < floored_mod(a, b) <= 0,
        (a - floored_mod(a, b)) % b == 0,
{
    vstd::arithmetic::div_mod::lemma_fundamental_div_mod(a, b);
    let q = a / b;
    let e = a % b;
    let r = floored_mod(a, b);
    let k = if b > 0 || e == 0 { q } else { q - 1 };
    assert(a - r == b * k) by (nonlinear_arith)
        requires
            a == b * q + e,
            r == (if b > 0 || e == 0 { e } else { e + b }),
            k == (if b > 0 || e == 0 { q } else { q - 1 }),
    ;
    let m = if b > 0 { b } else { -b };
    let km = if b > 0 { k } else { -k };
    assert(b * k == km * m) by (nonlinear_arith)
        requires
            m == (if b > 0 { b } else { -b }),
            km == (if b > 0 { k } else { -k }),
    ;
    vstd::arithmetic::div_mod::lemma_mod_multiples_basic(km, m);
    crate::value::lemma_neg_mod(a - r, b);
}

/// Dividing an exact multiple gives the exact quotient.
proof fn lemma_exact_quotient(x: int, d: int, q: int)
    requires
        d != 0,
        x % d == 0,
        q == (if x == 0 {
            0
        } else if x > 0 && d > 0 {
            x / d
        } else if x < 0 && d < 0 {
            (x * -1) / (d * -1)
        } else if x < 0 {
            ((x * -1) / d) * -1
        } else {
            (x / (d * -1)) * -1
        }),
    ensures
        q * d == x,
{
    crate::value::lemma_neg_mod(x, d);
    crate::value::lemma_neg_mod(-x, d);
    vstd::arithmetic::div_mod::lemma_fundamental_div_mod(x, d);
    vstd::arithmetic::div_mod::lemma_fundamental_div_mod(-x, d);
    vstd::arithmetic::div_mod::lemma_fundamental_div_mod(-x, -d);
    vstd::arithmetic::div_mod::lemma_fundamental_div_mod(x, -d);
    assert(x * -1 == -x) by (nonlinear_arith);
    assert(d * -1 == -d) by (nonlinear_arith);
    if x == 0 {
    } else if x > 0 && d > 0 {
        assert(q * d == d * (x / d)) by (nonlinear_arith)
            requires
                q == x / d,
        ;
    } else if x < 0 && d < 0 {
        assert(q * d == x) by (nonlinear_arith)
            requires
                q == (-x) / (-d),
                -x == (-d) * ((-x) / (-d)) + 0,
        ;
    } else if x < 0 {
        assert(q * d == x) by (nonlinear_arith)
            requires
                q == ((-x) / d) * -1,
                -x == d * ((-x) / d) + 0,
        ;
    } else {
        assert(q * d == x) by (nonlinear_arith)
            requires
                q == (x / (-d)) * -1,
                x == (-d) * (x / (-d)) + 0,
        ;
    }
}

/// The floored quotient of an `i64` by a divisor other than -1 and 0 is
/// an `i64`.
proof fn lemma_floored_quotient_fits(a: int, b: int, q: int)
    requires
        i64::MIN <= a <= i64::MAX,
        i64::MIN <= b <= i64::MAX,
        b != 0,
        b != -1,
        q * b + floored_mod(a, b) == a,
    ensures
        i64::MIN <= q <= i64::MAX,
{
    lemma_floored_mod_facts(a, b);
    let r = floored_mod(a, b);
    if b > 0 {
        assert(i64::MIN <= q <= i64::MAX) by (nonlinear_arith)
            requires
                q * b + r == a,
                0 <= r < b,
                b >= 1,
                i64::MIN <= a <= i64::MAX,
        ;
    } else {
        assert(i64::MIN <= q <= i64::MAX) by (nonlinear_arith)
            requires
                q * b + r == a,
                b < r <= 0,
                b <= -2,
                i64::MIN <= a <= i64::MAX,
        ;
    }
}

/// Integer#% / #modulo with an Integer divisor: Ruby's floored modulo.
/// `i64::MIN % -1` is 0.
pub fn integer_mod(a: i64, b: i64) -> (r: Result<i64, Error>)
    ensures
        b == 0 ==> r == Err::<i64, Error>(Error::ZeroDivisionError),
        b != 0 ==> r == Ok::<i64, Error>(floored_mod(a as int, b as int) as i64),
{
    if b == 0 {
        return Err(Error::ZeroDivisionError);
    }
    if b == -1 {
        proof {
            vstd::arithmetic::div_mod::lemma_fundamental_div_mod(a as int, -1);
            crate::value::lemma_neg_mod(a as int, -1);
            vstd::arithmetic::div_mod::lemma_mod_multiples_basic(a as int, 1);
            assert((a as int) * 1 == a as int);
        }
        return Ok(0);
    }
    Ok(rubylike_mod_i64(a, b))
}

/// Integer#% / #modulo as called: without an argument it raises an
/// ArgumentError; with an Integer divisor it is `integer_mod`.
pub fn integer_mod_arg(a: i64, b: Option<i64>) -> (r: Result<i64, Error>)
    ensures
        b is None ==> is_argument_error(r, "missing argument at arg 0"@),
        b matches Some(d) ==> (d == 0 ==> r == Err::<i64, Error>(Error::ZeroDivisionError)) && (d != 0
            ==> r == Ok::<i64, Error>(floored_mod(a as int, d as int) as i64)),
{
    match b {
        None => Err(crate::error::argument_error("missing argument at arg 0")),
        Some(d) => integer_mod(a, d),
    }
}

/// Euclidean quotient: `a == b * q + r` with `0 <= r < |b|`.
pub open spec fn euclid_div(a: int, b: int) -> int {
    a / b
}

/// Integer#div: the Euclidean quotient (the remainder is never negative).
pub fn integer_div(a: i64, b: i64) -> (r: Result<i64, Error>)
    requires
        !(a == i64::MIN && b == -1),
    ensures
        b == 0 ==> r == Err::<i64, Error>(Error::ZeroDivisionError),
        b != 0 ==> r == Ok::<i64, Error>(euclid_div(a as int, b as int) as i64),
{
    if b == 0 {
        return Err(Error::ZeroDivisionError);
    }
    proof {
        lemma_euclid_div_fits(a as int, b as int);
    }
    match a.checked_div_euclid(b) {
        Some(q) => Ok(q),
        None => {
            assert(false);
            Err(Error::ZeroDivisionError)
        },
    }
}

proof fn lemma_euclid_div_fits(a: int, b: int)
    requires
        i64::MIN <= a <= i64::MAX,
        i64::MIN <= b <= i64::MAX,
        b != 0,
        !(a == i64::MIN && b == -1),
    ensures
        i64::MIN <= a / b <= i64::MAX,
{
    vstd::arithmetic::div_mod::lemma_fundamental_div_mod(a, b);
    let q = a / b;
    let r = a % b;
    if b == 1 {
        assert(q == a - r) by (nonlinear_arith)
            requires
                a == b * q + r,
                b == 1,
        ;
    } else if b == -1 {
        assert(q == r - a) by (nonlinear_arith)
            requires
                a == b * q + r,
                b == -1,
        ;
    } else if b > 0 {
        assert(i64::MIN <= q <= i64::MAX) by (nonlinear_arith)
            requires
                a == b * q + r,
                0 <= r < b,
                b >= 2,
                i64::MIN <= a <= i64::MAX,
        ;
    } else {
        assert(i64::MIN <= q <= i64::MAX) by (nonlinear_arith)
            requires
                a == b * q + r,
                0 <= r < -b,
                b <= -2,
                i64::MIN <= a <= i64::MAX,
        ;
    }
}

/// `x` clamped to the `i64` range.
pub open spec fn saturate(x: int) -> int {
    if x > i64::MAX {
        i64::MAX as int
    } else if x < i64::MIN {
        i64::MIN as int
    } else {
        x
    }
}

/// `base` multiplied into 1, `e` times, each product clamped to `i64`.
pub open spec fn saturating_pow(base: int, e: nat) -> int
    decreases e,
{
    if e == 0 {
        1
    } else {
        saturate(saturating_pow(base, (e - 1) as nat) * base)
    }
}

/// `x` reduced modulo `m` toward zero: the sign of `x` and the remainder of
/// its magnitude (Rust's `%`).
pub open spec fn trunc_rem(x: int, m: int) -> int {
    if x >= 0 {
        x % m
    } else {
        -((-x) % m)
    }
}

fn sat_mul(x: i64, y: i64) -> (r: i64)
    ensures
        r as int == saturate(x as int * y as int),
{
    proof {
        assert(-0x8000_0000_0000_0000 * 0x8000_0000_0000_0000 <= x as int * y as int <= 0x8000_0000_0000_0000 * 0x8000_0000_0000_0000) by (nonlinear_arith)
            requires
                -0x8000_0000_0000_0000 <= x <= 0x7fff_ffff_ffff_ffff,
                -0x8000_0000_0000_0000 <= y <= 0x7fff_ffff_ffff_ffff,
        ;
    }
    let p: i128 = x as i128 * y as i128;
    if p > i64::MAX as i128 {
        i64::MAX
    } else if p < i64::MIN as i128 {
        i64::MIN
    } else {
        p as i64
    }
}

/// Integer#pow without modulus: repeated saturating multiplication.
pub fn integer_pow(base: i64, e: i64) -> (r: Result<i64, Error>)
    ensures
        e < 0 ==> is_argument_error(r, "negative exponent"@),
        e >= 0 ==> r == Ok::<i64, Error>(saturating_pow(base as int, e as nat) as i64),
{
    if e < 0 {
        return Err(argument_error("negative exponent"));
    }
    let mut acc: i64 = 1;
    let mut i: i64 = 0;
    while i < e
        invariant
            0 <= i <= e,
            acc as int == saturating_pow(base as int, i as nat),
        decreases e - i,
    {
        acc = sat_mul(acc, base);
        i += 1;
    }
    Ok(acc)
}

/// Integer#pow(e, m): square-and-multiply with Rust's remainder after each
/// product, so the result is the power's remainder toward zero (1 for a
/// zero exponent).
pub fn integer_pow_mod(base: i64, e: i64, m: i64) -> (r: Result<i64, Error>)
    ensures
        e < 0 ==> is_argument_error(r, "negative exponent"@),
        e >= 0 && m == 0 ==> r == Err::<i64, Error>(Error::ZeroDivisionError),
        e == 0 && m != 0 ==> r == Ok::<i64, Error>(1),
        e > 0 && m != 0 ==> r == Ok::<i64, Error>(trunc_rem(pow(base as int, e as nat), m as int) as i64),
{
    if e < 0 {
        return Err(argument_error("negative exponent"));
    }
    if m == 0 {
        return Err(Error::ZeroDivisionError);
    }
    let modulus = m as i128;
    let mut result: i128 = 1;
    let mut b: i128 = base as i128;
    let mut exp = e;
    let ghost mm = abs(m as int);
    let ghost target = trunc_rem(pow(base as int, e as nat), m as int);
    proof {
        vstd::arithmetic::power::lemma_pow1(1);
        assert(1 * pow(base as int, e as nat) == pow(base as int, e as nat));
    }
    while exp > 0
        invariant
            m != 0,
            modulus == m as i128,
            mm == abs(m as int),
            0 <= exp <= e,
            result == 1 || -mm < result < mm,
            -0x8000_0000_0000_0000 <= b <= 0x8000_0000_0000_0000,
            trunc_rem(result * pow(b as int, exp as nat), m as int) == target,
            exp == 0 ==> (e == 0 || result == trunc_rem(result as int, m as int)),
            e == 0 ==> result == 1,
        decreases exp,
    {
        let ghost r0 = result as int;
        let ghost b0 = b as int;
        let ghost x0 = exp as nat;
        let odd = exp % 2 == 1;
        proof {
            assert(-0x8000_0000_0000_0000 <= r0 <= 0x8000_0000_0000_0000);
            lemma_mul_bound(r0, b0);
            lemma_mul_bound(b0, b0);
        }
        if odd {
            result = result * b % modulus;
            proof {
                lemma_rem_exec(r0 * b0, m as int, result as int);
                lemma_trunc_rem_range(r0 * b0, m as int);
                lemma_trunc_rem_idem(r0 * b0, m as int);
            }
        }
        let bb = b * b;
        b = bb % modulus;
        proof {
            lemma_rem_exec(b0 * b0, m as int, b as int);
            lemma_trunc_rem_range(b0 * b0, m as int);
            let x1 = (x0 / 2) as nat;
            lemma_powmod_step(r0, b0, x0, m as int, odd);
            assert(result == (if odd { trunc_rem(r0 * b0, m as int) } else { r0 }));
        }
        exp = exp / 2;
    }
    proof {
        vstd::arithmetic::power::lemma_pow0(b as int);
        assert(result * 1 == result);
    }
    Ok(result as i64)
}

pub open spec fn abs(x: int) -> int {
    if x >= 0 {
        x
    } else {
        -x
    }
}

proof fn lemma_mul_bound(x: int, y: int)
    requires
        -0x8000_0000_0000_0000 <= x <= 0x8000_0000_0000_0000,
        -0x8000_0000_0000_0000 <= y <= 0x8000_0000_0000_0000,
    ensures
        -0x4000_0000_0000_0000_0000_0000_0000_0000 <= x * y <= 0x4000_0000_0000_0000_0000_0000_0000_0000,
{
    assert(-0x4000_0000_0000_0000_0000_0000_0000_0000 <= x * y <= 0x4000_0000_0000_0000_0000_0000_0000_0000) by (nonlinear_arith)
        requires
            -0x8000_0000_0000_0000 <= x <= 0x8000_0000_0000_0000,
            -0x8000_0000_0000_0000 <= y <= 0x8000_0000_0000_0000,
    ;
}

/// Rust's `%` on `i128` is `trunc_rem`.
proof fn lemma_rem_exec(x: int, m: int, r: int)
    requires
        m != 0,
        r == (if x >= 0 { x % m } else { -((-x) % m) }),
    ensures
        r == trunc_rem(x, m),
{
}

proof fn lemma_trunc_rem_range(x: int, m: int)
    requires
        m != 0,
    ensures
        -abs(m) < trunc_rem(x, m) < abs(m),
        x >= 0 ==> trunc_rem(x, m) >= 0,
        x <= 0 ==> trunc_rem(x, m) <= 0,
        trunc_rem(x, m) == (if x >= 0 { x % abs(m) } else { -((-x) % abs(m)) }),
{
    crate::value::lemma_neg_mod(x, m);
    crate::value::lemma_neg_mod(-x, m);
    if x == 0 {
        vstd::arithmetic::div_mod::lemma_small_mod(0, abs(m) as nat);
    }
}

proof fn lemma_trunc_rem_idem(x: int, m: int)
    requires
        m != 0,
    ensures
        trunc_rem(trunc_rem(x, m), m) == trunc_rem(x, m),
{
    lemma_trunc_rem_range(x, m);
    let t = trunc_rem(x, m);
    lemma_trunc_rem_range(t, m);
    let mm = abs(m);
    if t >= 0 {
        vstd::arithmetic::div_mod::lemma_small_mod(t as nat, mm as nat);
    } else {
        vstd::arithmetic::div_mod::lemma_small_mod((-t) as nat, mm as nat);
    }
}

/// Reducing both factors first does not change the remainder of a product.
proof fn lemma_trunc_rem_mul(x: int, y: int, m: int)
    requires
        m != 0,
    ensures
        trunc_rem(trunc_rem(x, m) * trunc_rem(y, m), m) == trunc_rem(x * y, m),
{
    let mm = abs(m);
    lemma_trunc_rem_range(x, m);
    lemma_trunc_rem_range(y, m);
    let a = abs(x);
    let c = abs(y);
    let u = a % mm;
    let w = c % mm;
    vstd::arithmetic::div_mod::lemma_mul_mod_noop_general(a, c, mm);
    vstd::arithmetic::div_mod::lemma_mod_pos_bound(a, mm);
    vstd::arithmetic::div_mod::lemma_mod_pos_bound(c, mm);
    assert(trunc_rem(x, m) == (if x >= 0 { u } else { -u }));
    assert(trunc_rem(y, m) == (if y >= 0 { w } else { -w }));
    assert(u * w >= 0) by (nonlinear_arith)
        requires
            u >= 0,
            w >= 0,
    ;
    assert(a * c == abs(x * y)) by (nonlinear_arith)
        requires
            a == abs(x),
            c == abs(y),
    ;
    let p = trunc_rem(x, m) * trunc_rem(y, m);
    assert(p == (if (x >= 0) == (y >= 0) { u * w } else { -(u * w) })) by (nonlinear_arith)
        requires
            p == trunc_rem(x, m) * trunc_rem(y, m),
            trunc_rem(x, m) == (if x >= 0 { u } else { -u }),
            trunc_rem(y, m) == (if y >= 0 { w } else { -w }),
    ;
    lemma_trunc_rem_range(p, m);
    lemma_trunc_rem_range(x * y, m);
    assert((x * y >= 0) == ((x >= 0) == (y >= 0)) || x * y == 0) by (nonlinear_arith);
    if x * y == 0 {
        assert(x == 0 || y == 0) by (nonlinear_arith)
            requires
                x * y == 0,
        ;
        assert(u * w == 0) by (nonlinear_arith)
            requires
                x == 0 || y == 0,
                u == abs(x) % abs(m),
                w == abs(y) % abs(m),
                abs(m) > 0,
        ;
    }
    if u * w == 0 {
        assert((u * w) % mm == 0);
    }
}

/// Remainders of powers can be taken on the reduced base.
proof fn lemma_trunc_rem_pow(v: int, k: nat, m: int)
    requires
        m != 0,
    ensures
        trunc_rem(pow(trunc_rem(v, m), k), m) == trunc_rem(pow(v, k), m),
    decreases k,
{
    let t = trunc_rem(v, m);
    if k == 0 {
        vstd::arithmetic::power::lemma_pow0(t);
        vstd::arithmetic::power::lemma_pow0(v);
    } else {
        lemma_trunc_rem_pow(v, (k - 1) as nat, m);
        vstd::arithmetic::power::lemma_pow_adds(t, 1, (k - 1) as nat);
        vstd::arithmetic::power::lemma_pow_adds(v, 1, (k - 1) as nat);
        vstd::arithmetic::power::lemma_pow1(t);
        vstd::arithmetic::power::lemma_pow1(v);
        let pt = pow(t, (k - 1) as nat);
        let pv = pow(v, (k - 1) as nat);
        // tr(t * pt) == tr(tr(t) * tr(pt)) == tr(t * tr(pv)) == tr(tr(v) * tr(pv)) == tr(v * pv)
        lemma_trunc_rem_mul(t, pt, m);
        lemma_trunc_rem_idem(v, m);
        lemma_trunc_rem_mul(v, pv, m);
    }
}

/// One round of square-and-multiply keeps the remainder of
/// `result * b^exp`.
proof fn lemma_powmod_step(r: int, b: int, x: nat, m: int, odd: bool)
    requires
        m != 0,
        x > 0,
        odd == (x % 2 == 1),
    ensures
        trunc_rem(
            (if odd { trunc_rem(r * b, m) } else { r }) * pow(trunc_rem(b * b, m), (x / 2) as nat),
            m,
        ) == trunc_rem(r * pow(b, x), m),
{
    let x1 = (x / 2) as nat;
    let bb = b * b;
    let tbb = trunc_rem(bb, m);
    vstd::arithmetic::power::lemma_square_is_pow2(b);
    vstd::arithmetic::power::lemma_pow_multiplies(b, 2, x1);
    assert(pow(bb, x1) == pow(b, 2 * x1));
    lemma_trunc_rem_pow(bb, x1, m);
    let rr = if odd { trunc_rem(r * b, m) } else { r };
    // tr(rr * pow(tbb, x1)) == tr(tr(rr) * tr(pow(tbb, x1))) == tr(tr(rr) * tr(pow(bb, x1)))
    lemma_trunc_rem_mul(rr, pow(tbb, x1), m);
    lemma_trunc_rem_mul(rr, pow(bb, x1), m);
    if odd {
        assert(x == 2 * x1 + 1);
        lemma_trunc_rem_idem(r * b, m);
        // tr(tr(rb) * pow(bb, x1)) == tr(rb * pow(b, 2x1))
        lemma_trunc_rem_mul(r * b, pow(bb, x1), m);
        vstd::arithmetic::power::lemma_pow_adds(b, 2 * x1, 1);
        vstd::arithmetic::power::lemma_pow1(b);
        assert(r * b * pow(b, 2 * x1) == r * pow(b, x)) by (nonlinear_arith)
            requires
                pow(b, x) == pow(b, 2 * x1) * b,
        ;
    } else {
        assert(x == 2 * x1);
    }
}

/// Digits of `n` in `base`, least significant first (`[0]` for zero).
pub open spec fn digits_of(n: nat, base: nat) -> Seq<int>
    recommends
        base >= 2,
    decreases n,
{
    if base < 2 || n < base {
        seq![n as int]
    } else {
        proof {
            assert(n / base < n) by (nonlinear_arith)
                requires
                    n >= base,
                    base >= 2,
            ;
        }
        seq![(n % base) as int] + digits_of(n / base, base)
    }
}

/// Integer#digits(base): the digits of a non-negative receiver, least
/// significant first.
pub fn integer_digits(n: i64, base: i64) -> (r: Result<Vec<i64>, Error>)
    ensures
        n < 0 ==> is_argument_error(r, "negative number"@),
        n >= 0 && base <= 1 ==> is_argument_error(r, "invalid radix"@),
        n >= 0 && base > 1 ==> (r matches Ok(v) && v@.map_values(|d: i64| d as int) == digits_of(
            n as nat,
            base as nat,
        )),
{
    if n < 0 {
        return Err(argument_error("negative number"));
    }
    if base <= 1 {
        return Err(argument_error("invalid radix"));
    }
    let mut out: Vec<i64> = Vec::new();
    let mut cur = n;
    loop
        invariant_except_break
            base > 1,
            n >= 0,
            cur >= 0,
            digits_of(n as nat, base as nat) == out@.map_values(|d: i64| d as int) + digits_of(
                cur as nat,
                base as nat,
            ),
        ensures
            digits_of(n as nat, base as nat) == out@.map_values(|d: i64| d as int),
        decreases cur,
    {
        let ghost before = out@.map_values(|d: i64| d as int);
        let d = cur % base;
        out.push(d);
        let next = cur / base;
        proof {
            assert(out@.map_values(|d: i64| d as int) =~= before.push(d as int));
            if cur < base {
                vstd::arithmetic::div_mod::lemma_small_mod(cur as nat, base as nat);
                assert(next == 0) by (nonlinear_arith)
                    requires
                        0 <= cur < base,
                        next == cur / base,
                ;
            } else {
                assert(0 < next < cur) by (nonlinear_arith)
                    requires
                        cur >= base,
                        base >= 2,
                        next == cur / base,
                ;
                assert(before + digits_of(cur as nat, base as nat) =~= before.push(d as int)
                    + digits_of(next as nat, base as nat));
            }
        }
        if next == 0 {
            proof {
                assert(digits_of(cur as nat, base as nat) == seq![d as int]);
                assert(before + digits_of(cur as nat, base as nat) =~= before.push(d as int));
            }
            break;
        }
        cur = next;
    }
    Ok(out)
}

/// Greatest common divisor (Euclid's recurrence; `gcd(0, 0) == 0`).
pub open spec fn gcd(a: nat, b: nat) -> nat
    decreases b,
{
    if b == 0 {
        a
    } else {
        gcd(b, a % b)
    }
}

/// Greatest common divisor over magnitudes (`i64::MIN.abs()` would overflow).
pub fn gcd_mag(a: u64, b: u64) -> (r: u64)
    ensures
        r as nat == gcd(a as nat, b as nat),
{
    let mut a = a;
    let mut b = b;
    let ghost a0 = a;
    let ghost b0 = b;
    while b != 0
        invariant
            gcd(a as nat, b as nat) == gcd(a0 as nat, b0 as nat),
        decreases b,
    {
        let r = a % b;
        a = b;
        b = r;
    }
    a
}

/// `|n|` as an unsigned magnitude.
fn unsigned_abs(n: i64) -> (r: u64)
    ensures
        r as int == abs(n as int),
{
    if n < 0 {
        (-(n as i128)) as u64
    } else {
        n as u64
    }
}

/// Integer#gcd.
pub fn integer_gcd(a: i64, b: i64) -> (r: Result<i64, Error>)
    ensures
        gcd(abs(a as int) as nat, abs(b as int) as nat) <= i64::MAX ==> r == Ok::<i64, Error>(
            gcd(abs(a as int) as nat, abs(b as int) as nat) as i64,
        ),
        gcd(abs(a as int) as nat, abs(b as int) as nat) > i64::MAX ==> is_range_error(
            r,
            "gcd overflow"@,
        ),
{
    let g = gcd_mag(unsigned_abs(a), unsigned_abs(b));
    if g > i64::MAX as u64 {
        return Err(range_error("gcd overflow"));
    }
    Ok(g as i64)
}

/// Integer#lcm: `|a| / gcd * |b|`, 0 when both are 0.
pub fn integer_lcm(a: i64, b: i64) -> (r: Result<i64, Error>)
    ensures
        ({
            let g = gcd(abs(a as int) as nat, abs(b as int) as nat);
            let l = if g == 0 { 0 } else { abs(a as int) / (g as int) * abs(b as int) };
            &&& l <= i64::MAX ==> r == Ok::<i64, Error>(l as i64)
            &&& l > i64::MAX ==> is_range_error(r, "lcm overflow"@)
        }),
{
    let a = unsigned_abs(a);
    let b = unsigned_abs(b);
    let g = gcd_mag(a, b);
    if g == 0 {
        return Ok(0);
    }
    let q = a / g;
    proof {
        assert(q <= a) by (nonlinear_arith)
            requires
                g >= 1,
                q == a / g,
        ;
        assert(q as int * b as int <= 0x8000_0000_0000_0000 * 0x8000_0000_0000_0000) by (nonlinear_arith)
            requires
                q <= 0x8000_0000_0000_0000,
                b <= 0x8000_0000_0000_0000,
        ;
    }
    let l = q as i128 * b as i128;
    if l > i64::MAX as i128 {
        return Err(range_error("lcm overflow"));
    }
    Ok(l as i64)
}

/// Number of bits of `m`: the least `k` with `m < 2^k`.
pub open spec fn bit_count(m: nat) -> nat
    decreases m,
{
    if m == 0 {
        0
    } else {
        1 + bit_count(m / 2)
    }
}

/// Integer#bit_length: bits needed for the magnitude, `-(n + 1)` for a
/// negative receiver.
pub fn integer_bit_length(n: i64) -> (r: i64)
    ensures
        r as int == bit_count((if n < 0 { -(n as int + 1) } else { n as int }) as nat),
{
    let magnitude = if n < 0 { -(n + 1) } else { n };
    let mut m = magnitude as u64;
    let mut bits: i64 = 0;
    proof {
        vstd::arithmetic::power2::lemma2_to64();
    }
    while m > 0
        invariant
            bits + bit_count(m as nat) == bit_count(magnitude as nat),
            bits <= 64,
            m < pow2((64 - bits) as nat),
        decreases m,
    {
        proof {
            vstd::arithmetic::power2::lemma2_to64();
            if bits >= 64 {
                assert(m < 1);
            }
            vstd::arithmetic::power2::lemma_pow2_adds((63 - bits) as nat, 1);
        }
        m = m / 2;
        bits += 1;
    }
    bits
}

/// `k` copies of `d`.
pub open spec fn multiple(k: int, d: int) -> int {
    k * d
}

/// `d` divides `x`.
pub open spec fn divides(d: int, x: int) -> bool {
    exists|k: int| x == #[trigger] multiple(k, d)
}

/// The result of `gcd` divides both arguments.
pub proof fn law_gcd_divides(a: nat, b: nat)
    ensures
        divides(gcd(a, b) as int, a as int),
        divides(gcd(a, b) as int, b as int),
    decreases b,
{
    if b == 0 {
        assert(a as int == multiple(1, a as int));
        assert(0int == multiple(0, a as int));
    } else {
        law_gcd_divides(b, a % b);
        let g = gcd(a, b) as int;
        let k1 = choose|k: int| b as int == #[trigger] multiple(k, g);
        let k2 = choose|k: int| (a % b) as int == #[trigger] multiple(k, g);
        vstd::arithmetic::div_mod::lemma_fundamental_div_mod(a as int, b as int);
        let q = (a / b) as int;
        assert(a as int == multiple(q * k1 + k2, g)) by (nonlinear_arith)
            requires
                a as int == b as int * q + (a % b) as int,
                b as int == k1 * g,
                (a % b) as int == k2 * g,
        ;
    }
}

/// Every common divisor of `a` and `b` divides `gcd(a, b)`.
pub proof fn law_gcd_greatest(a: nat, b: nat, d: int)
    requires
        divides(d, a as int),
        divides(d, b as int),
    ensures
        divides(d, gcd(a, b) as int),
    decreases b,
{
    if b > 0 {
        let ka = choose|k: int| a as int == #[trigger] multiple(k, d);
        let kb = choose|k: int| b as int == #[trigger] multiple(k, d);
        vstd::arithmetic::div_mod::lemma_fundamental_div_mod(a as int, b as int);
        let q = (a / b) as int;
        assert((a % b) as int == multiple(ka - q * kb, d)) by (nonlinear_arith)
            requires
                a as int == b as int * q + (a % b) as int,
                a as int == ka * d,
                b as int == kb * d,
        ;
        law_gcd_greatest(b, a % b, d);
    }
}

/// Integer#[](i): bit `i` of the two's-complement value; 0 for a negative
/// index.
pub fn integer_bitref(this: i64, index: i64) -> (r: i64)
    requires
        index < 64,
    ensures
        index < 0 ==> r == 0,
        index >= 0 ==> r == (this >> index) & 1,
{
    if index < 0 {
        return 0;
    }
    (this >> index) & 1
}

/// Integer#<<(n); a negative count is an error.
pub fn integer_shl(lhs: i64, rhs: i64) -> (r: Result<i64, Error>)
    requires
        rhs < 64,
    ensures
        rhs < 0 ==> is_argument_error(r, "negative shift count"@),
        rhs >= 0 ==> r == Ok::<i64, Error>(lhs << rhs),
{
    if rhs < 0 {
        return Err(argument_error("negative shift count"));
    }
    Ok(lhs << rhs)
}

/// Integer#>>(n); a negative count is an error.
pub fn integer_shr(lhs: i64, rhs: i64) -> (r: Result<i64, Error>)
    requires
        rhs < 64,
    ensures
        rhs < 0 ==> is_argument_error(r, "negative shift count"@),
        rhs >= 0 ==> r == Ok::<i64, Error>(lhs >> rhs),
{
    if rhs < 0 {
        return Err(argument_error("negative shift count"));
    }
    Ok(lhs >> rhs)
}

/// Integer#chr: the character with this code point; `RangeError` outside
/// 0..=0x10FFFF or on a surrogate.
pub fn integer_chr(n: i64) -> (r: Result<char, Error>)
    ensures
        0 <= n <= 0x10FFFF && crate::format::is_scalar(n as u32) ==> r == Ok::<char, Error>(
            (n as u32) as char,
        ),
        !(0 <= n <= 0x10FFFF) ==> is_range_error(
            r,
            crate::format::int_text(n, 10, false, false, false) + " out of char range"@,
        ),
        0 <= n <= 0x10FFFF && !crate::format::is_scalar(n as u32) ==> is_range_error(
            r,
            "invalid codepoint: "@ + crate::format::int_text(n, 10, false, false, false),
        ),
{
    if !(0 <= n && n <= 0x10FFFF) {
        let mut msg = crate::format::int_render(n, 10, false, false, false);
        let tail = [' ', 'o', 'u', 't', ' ', 'o', 'f', ' ', 'c', 'h', 'a', 'r', ' ', 'r', 'a', 'n', 'g', 'e'];
        let mut i: usize = 0;
        let ghost head = msg@;
        while i < tail.len()
            invariant
                i <= tail.len(),
                msg@ == head + tail@.take(i as int),
            decreases tail.len() - i,
        {
            msg.push(tail[i]);
            i += 1;
            assert(tail@.take(i as int) =~= tail@.take(i - 1).push(tail@[i - 1]));
        }
        proof {
            reveal_strlit(" out of char range");
            assert(tail@.take(tail.len() as int) =~= " out of char range"@);
        }
        return Err(Error::RangeError(crate::error::string_from_chars(msg.as_slice())));
    }
    match crate::format::char_from_u32(n as u32) {
        Some(c) => Ok(c),
        None => {
            let digits = crate::format::int_render(n, 10, false, false, false);
            let mut msg: Vec<char> = Vec::new();
            let head = ['i', 'n', 'v', 'a', 'l', 'i', 'd', ' ', 'c', 'o', 'd', 'e', 'p', 'o', 'i', 'n', 't', ':', ' '];
            let mut i: usize = 0;
            while i < head.len()
                invariant
                    i <= head.len(),
                    msg@ == head@.take(i as int),
                decreases head.len() - i,
            {
                msg.push(head[i]);
                i += 1;
                assert(head@.take(i as int) =~= head@.take(i - 1).push(head@[i - 1]));
            }
            assert(head@.take(head.len() as int) =~= head@);
            let mut j: usize = 0;
            while j < digits.len()
                invariant
                    j <= digits.len(),
                    msg@ == head@ + digits@.take(j as int),
                decreases digits.len() - j,
            {
                msg.push(digits[j]);
                j += 1;
                assert(digits@.take(j as int) =~= digits@.take(j - 1).push(digits@[j - 1]));
            }
            proof {
                reveal_strlit("invalid codepoint: ");
                assert(head@.take(head.len() as int) =~= "invalid codepoint: "@);
                assert(digits@.take(digits.len() as int) =~= digits@);
            }
            Err(Error::RangeError(crate::error::string_from_chars(msg.as_slice())))
        },
    }
}

} // verus!
