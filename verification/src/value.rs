//! Runtime value tags and the arithmetic shared by the integer methods and
//! the send fast path.

use vstd::prelude::*;
use vstd::arithmetic::power::pow;

verus! {

/// Tag that identifies each runtime object variant handled by the VM.
#[derive(Debug, Clone, Copy, PartialEq, Eq, Structural)]
pub enum RType {
    Bool,
    Symbol,
    Integer,
    Float,
    Class,
    Module,
    Instance,
    Proc,
    Array,
    Hash,
    String,
    Range,
    SharedMemory,
    Data,
    Exception,
    Nil,
}

impl RType {
    /// Immediates (integer, float, boolean, nil, symbol) share one instance
    /// across the process, so they never carry per-instance state.
    pub fn is_immediate(self) -> (r: bool)
        ensures
            r <==> (self is Integer || self is Float || self is Bool || self is Nil
                || self is Symbol),
    {
        match self {
            RType::Integer | RType::Float | RType::Bool | RType::Nil | RType::Symbol => true,
            _ => false,
        }
    }
}

/// Fixed operand semantics a native method can be tagged with, so the send
/// path may compute it inline (e.g. floored vs truncated modulo).
#[derive(Debug, Clone, Copy, PartialEq, Eq, Structural)]
pub enum FastOp {
    /// Integer#% as registered by the prelude: truncated modulo.
    IntModTrunc,
    /// Integer#% as registered by the compat layer: floored modulo.
    IntModFloored,
    /// Float#% as registered by the compat layer: floored modulo.
    FloatModFloored,
    /// Integer#**.
    IntPow,
    /// Float#**.
    FloatPow,
    /// Object#<=> restricted to numeric operands.
    NumSpaceship,
    /// Object#!= on same-kind numeric operands.
    NumNe,
    /// attr_accessor getter.
    AttrGet,
    /// attr_accessor setter.
    AttrSet,
}

/// Ruby's floored modulo: zero or the sign of the divisor, and
/// `a - floored_mod(a, b)` is a multiple of `b`.
pub open spec fn floored_mod(a: int, b: int) -> int {
    let r = a % b;
    if b > 0 || r == 0 {
        r
    } else {
        r + b
    }
}

/// The Euclidean remainder does not depend on the divisor's sign, and the
/// remainder of `-x` is the complement of that of `x`.
pub proof fn lemma_neg_mod(x: int, d: int)
    requires
        d != 0,
    ensures
        x % d == x % (-d),
        x % d == 0 ==> (-x) % d == 0,
        x % d != 0 ==> (-x) % d == (if d > 0 { d } else { -d }) - x % d,
{
    let m = if d > 0 { d } else { -d };
    vstd::arithmetic::div_mod::lemma_fundamental_div_mod(x, d);
    let q = x / d;
    let e = x % d;
    assert(0 <= e < m);
    // x = (q or -q) * m + e
    let qm = if d > 0 { q } else { -q };
    assert(x == qm * m + e) by (nonlinear_arith)
        requires
            x == d * q + e,
            qm == (if d > 0 { q } else { -q }),
            m == (if d > 0 { d } else { -d }),
    ;
    vstd::arithmetic::div_mod::lemma_fundamental_div_mod_converse_mod(x, m, qm, e);
    vstd::arithmetic::div_mod::lemma_fundamental_div_mod(x, -d);
    vstd::arithmetic::div_mod::lemma_fundamental_div_mod(-x, d);
    vstd::arithmetic::div_mod::lemma_fundamental_div_mod(-x, m);
    vstd::arithmetic::div_mod::lemma_fundamental_div_mod(x, m);
    assert(x % (-d) == x % m) by {
        let q2 = x / (-d);
        let qm2 = if d > 0 { -q2 } else { q2 };
        assert(x == qm2 * m + x % (-d)) by (nonlinear_arith)
            requires
                x == (-d) * q2 + x % (-d),
                qm2 == (if d > 0 { -q2 } else { q2 }),
                m == (if d > 0 { d } else { -d }),
        ;
        vstd::arithmetic::div_mod::lemma_fundamental_div_mod_converse_mod(x, m, qm2, x % (-d));
    }
    assert((-x) % d == (-x) % m) by {
        let q3 = (-x) / d;
        let qm3 = if d > 0 { q3 } else { -q3 };
        assert(-x == qm3 * m + (-x) % d) by (nonlinear_arith)
            requires
                -x == d * q3 + (-x) % d,
                qm3 == (if d > 0 { q3 } else { -q3 }),
                m == (if d > 0 { d } else { -d }),
        ;
        vstd::arithmetic::div_mod::lemma_fundamental_div_mod_converse_mod(-x, m, qm3, (-x) % d);
    }
    if e == 0 {
        assert(-x == (-qm) * m + 0) by (nonlinear_arith)
            requires
                x == qm * m + e,
                e == 0,
        ;
        vstd::arithmetic::div_mod::lemma_fundamental_div_mod_converse_mod(-x, m, -qm, 0);
    } else {
        assert(-x == (-qm - 1) * m + (m - e)) by (nonlinear_arith)
            requires
                x == qm * m + e,
        ;
        vstd::arithmetic::div_mod::lemma_fundamental_div_mod_converse_mod(-x, m, -qm - 1, m - e);
    }
}

/// Ruby's floored modulo for integers. The quotient `i64::MIN / -1` does not
/// fit, and Rust's `%` traps on it and on a zero divisor.
pub fn rubylike_mod_i64(a: i64, b: i64) -> (r: i64)
    requires
        b != 0,
        !(a == i64::MIN && b == -1),
    ensures
        r as int == floored_mod(a as int, b as int),
{
    let r = a % b;
    proof {
        let ai = a as int;
        let bi = b as int;
        lemma_neg_mod(ai, bi);
        if a >= 0 {
            assert(r == ai % bi);
        } else {
            assert(r == -((-ai) % bi));
        }
    }
    if r != 0 && (r < 0) != (b < 0) {
        r + b
    } else {
        r
    }
}

/// Canonical representation used when Ruby objects serve as Hash keys.
#[derive(Debug, Clone, PartialEq, Eq, Hash)]
pub enum ValueHasher {
    Bool(bool),
    Integer(i64),
    Float(Vec<u8>),
    Symbol(String),
    String(Vec<u8>),
    Class(String),
}

/// Interned symbol name used to identify methods and constants.
#[derive(Debug, Clone, PartialEq, Eq, Hash)]
pub struct RSym {
    pub name: String,
}

impl RSym {
    pub fn new(name: String) -> (r: Self)
        ensures
            r.name == name,
    {
        Self { name }
    }
}

/// The argument layout an OP_ENTER instruction declares (mruby's aspec):
/// `n1` the no-block flag, `m1` required, `o` optional, `r` rest, `m2`
/// post-required, `k` keyword, `d` keyword-rest and `b` block parameters.
#[derive(Debug, Clone, Copy, PartialEq, Eq, Structural)]
pub struct EnterArgInfo {
    pub n1: u32,
    pub m1: u32,
    pub o: u32,
    pub r: u32,
    pub m2: u32,
    pub k: u32,
    pub d: u32,
    pub b: u32,
}

impl EnterArgInfo {
    /// The bit fields of `val`, from the top: n1 (bit 23), m1 (5 bits from
    /// 18), o (5 from 13), r (bit 12), m2 (5 from 7), k (5 from 2), d (bit
    /// 1), b (bit 0).
    pub open spec fn decoded(val: u32) -> EnterArgInfo {
        EnterArgInfo {
            n1: ((val / 0x80_0000) % 2) as u32,
            m1: ((val / 0x4_0000) % 32) as u32,
            o: ((val / 0x2000) % 32) as u32,
            r: ((val / 0x1000) % 2) as u32,
            m2: ((val / 0x80) % 32) as u32,
            k: ((val / 4) % 32) as u32,
            d: ((val / 2) % 2) as u32,
            b: (val % 2) as u32,
        }
    }

    /// Decodes an OP_ENTER operand.
    pub fn from_aspec(val: u32) -> (r: EnterArgInfo)
        ensures
            r == EnterArgInfo::decoded(val),
    {
        let n1 = (val & 0x80_0000) >> 23;
        let m1 = (val & (0x1fu32 << 18u32)) >> 18;
        let o = (val & (0x1fu32 << 13u32)) >> 13;
        let r = (val & 0x1000) >> 12;
        let m2 = (val & (0x1fu32 << 7u32)) >> 7;
        let k = (val & (0x1fu32 << 2u32)) >> 2;
        let d = (val & 0x2) >> 1;
        let b = val & 0x1;
        assert(n1 == (val / 0x80_0000) % 2) by (bit_vector)
            requires
                n1 == (val & 0x80_0000) >> 23,
        ;
        assert(m1 == (val / 0x4_0000) % 32) by (bit_vector)
            requires
                m1 == (val & (0x1fu32 << 18u32)) >> 18,
        ;
        assert(o == (val / 0x2000) % 32) by (bit_vector)
            requires
                o == (val & (0x1fu32 << 13u32)) >> 13,
        ;
        assert(r == (val / 0x1000) % 2) by (bit_vector)
            requires
                r == (val & 0x1000) >> 12,
        ;
        assert(m2 == (val / 0x80) % 32) by (bit_vector)
            requires
                m2 == (val & (0x1fu32 << 7u32)) >> 7,
        ;
        assert(k == (val / 4) % 32) by (bit_vector)
            requires
                k == (val & (0x1fu32 << 2u32)) >> 2,
        ;
        assert(d == (val / 2) % 2) by (bit_vector)
            requires
                d == (val & 0x2) >> 1,
        ;
        assert(b == val % 2) by (bit_vector)
            requires
                b == val & 0x1,
        ;
        EnterArgInfo { n1, m1, o, r, m2, k, d, b }
    }

    /// Number of parameter slots before the block: m1 + o + r + m2.
    pub fn block_len(&self) -> (n: u32)
        requires
            self.m1 < 32 && self.o < 32 && self.r < 2 && self.m2 < 32,
        ensures
            n == self.m1 + self.o + self.r + self.m2,
    {
        self.m1 + self.o + self.r + self.m2
    }
}

impl From<u32> for EnterArgInfo {
    fn from(val: u32) -> (r: EnterArgInfo) {
        EnterArgInfo::from_aspec(val)
    }
}

impl vstd::std_specs::convert::FromSpecImpl<u32> for EnterArgInfo {
    open spec fn obeys_from_spec() -> bool {
        true
    }

    open spec fn from_spec(val: u32) -> EnterArgInfo {
        EnterArgInfo::decoded(val)
    }
}

/// What the send fast path does for a tagged method called on an Integer
/// with an Integer argument (`Some`) or with no numeric argument (`None`).
#[derive(Debug, Clone, Copy, PartialEq, Eq, Structural)]
pub enum FastOutcome {
    /// Not handled inline: the native method runs.
    Fallback,
    /// An Integer result.
    Int(i64),
    /// A boolean result.
    Bool(bool),
    /// `ZeroDivisionError` is raised.
    ZeroDivision,
    /// A Float result: the receiver raised to the (negative) argument,
    /// computed by the caller in floating point.
    FloatPower,
}

/// `(-1)^e` alternates between 1 and -1.
proof fn lemma_pow_minus_one(e: nat)
    ensures
        pow(-1, e) == if e % 2 == 0 { 1int } else { -1int },
    decreases e,
{
    reveal(pow);
    if e > 0 {
        lemma_pow_minus_one((e - 1) as nat);
    }
}

/// For a base of magnitude at least 2, powers never shrink in magnitude.
proof fn lemma_pow_magnitude_grows(b: int, k: nat, m: nat)
    requires
        b >= 2 || b <= -2,
        k <= m,
    ensures
        abs_int(pow(b, m)) >= abs_int(pow(b, k)),
    decreases m,
{
    if k < m {
        lemma_pow_magnitude_grows(b, k, (m - 1) as nat);
        reveal(pow);
        let x = pow(b, (m - 1) as nat);
        assert(abs_int(b * x) >= abs_int(x)) by (nonlinear_arith)
            requires
                b >= 2 || b <= -2,
        ;
    }
}

pub open spec fn abs_int(x: int) -> int {
    if x < 0 {
        -x
    } else {
        x
    }
}

/// `i64::checked_pow`: `Some(base^exp)` when that fits in an `i64`, `None`
/// on overflow.
fn checked_pow_i64(base: i64, exp: u32) -> (r: Option<i64>)
    ensures
        i64::MIN <= pow(base as int, exp as nat) <= i64::MAX ==> r == Some(pow(base as int, exp as nat) as i64),
        !(i64::MIN <= pow(base as int, exp as nat) <= i64::MAX) ==> r is None,
{
    if exp == 0 {
        proof {
            reveal(pow);
        }
        return Some(1);
    }
    if base == 0 || base == 1 {
        proof {
            vstd::arithmetic::power::lemma0_pow(exp as nat);
            vstd::arithmetic::power::lemma1_pow(exp as nat);
        }
        return Some(base);
    }
    if base == -1 {
        proof {
            lemma_pow_minus_one(exp as nat);
        }
        return Some(if exp % 2 == 0 { 1 } else { -1 });
    }
    let mut acc: i64 = 1;
    let mut k: u32 = 0;
    proof {
        reveal(pow);
        assert(pow(base as int, 0) == 1);
    }
    while k < exp
        invariant
            k <= exp,
            acc as int == pow(base as int, k as nat),
            base >= 2 || base <= -2,
        decreases exp - k,
    {
        let ghost x = (acc as int) * (base as int);
        proof {
            reveal(pow);
            assert(pow(base as int, (k + 1) as nat) == base * pow(base as int, k as nat));
            assert(x == base * pow(base as int, k as nat)) by (nonlinear_arith)
                requires
                    x == (acc as int) * (base as int),
                    acc as int == pow(base as int, k as nat),
            ;
        }
        match acc.checked_mul(base) {
            Some(v) => {
                acc = v;
                k += 1;
            },
            None => {
                proof {
                    assert(abs_int(x) >= 0x8000_0000_0000_0000);
                    if exp > k + 1 {
                        lemma_pow_magnitude_grows(base as int, (k + 2) as nat, exp as nat);
                        reveal(pow);
                        assert(pow(base as int, (k + 2) as nat) == base * x);
                        assert(abs_int(base * x) >= 2 * abs_int(x)) by (nonlinear_arith)
                            requires
                                base >= 2 || base <= -2,
                        ;
                    }
                }
                return None;
            },
        }
    }
    Some(acc)
}

/// Rust's truncated remainder: the sign of the dividend.
pub open spec fn trunc_mod(a: int, b: int) -> int {
    if a >= 0 {
        a % b
    } else {
        -((-a) % b)
    }
}

/// The inline result of `op` for an Integer receiver and an Integer (or no
/// numeric) argument.
pub open spec fn spec_fast_int_op(op: FastOp, recv: i64, arg: Option<i64>) -> FastOutcome {
    match (op, arg) {
        (FastOp::IntModTrunc, Some(b)) => if b == 0 {
            FastOutcome::Fallback
        } else {
            FastOutcome::Int(trunc_mod(recv as int, b as int) as i64)
        },
        (FastOp::IntModFloored, Some(b)) => if b == 0 {
            FastOutcome::ZeroDivision
        } else {
            FastOutcome::Int(floored_mod(recv as int, b as int) as i64)
        },
        (FastOp::IntPow, Some(e)) => if e >= 0 {
            if i64::MIN <= pow(recv as int, (e as u32) as nat) <= i64::MAX {
                FastOutcome::Int(pow(recv as int, (e as u32) as nat) as i64)
            } else {
                FastOutcome::Fallback
            }
        } else {
            FastOutcome::FloatPower
        },
        (FastOp::NumSpaceship, Some(b)) => FastOutcome::Int(
            if recv < b {
                -1i64
            } else if recv > b {
                1i64
            } else {
                0i64
            },
        ),
        (FastOp::NumNe, Some(b)) => FastOutcome::Bool(recv != b),
        _ => FastOutcome::Fallback,
    }
}

/// The send fast path for Integer operands: the tagged operation computed
/// inline, or `Fallback` to run the native method.
pub fn fast_int_op(op: FastOp, recv: i64, arg: Option<i64>) -> (r: FastOutcome)
    requires
        arg matches Some(b) ==> !(recv == i64::MIN && b == -1 && op == FastOp::IntModTrunc),
    ensures
        r == spec_fast_int_op(op, recv, arg),
{
    match (op, arg) {
        (FastOp::IntModTrunc, Some(b)) => if b == 0 {
            FastOutcome::Fallback
        } else {
            let r = recv % b;
            proof {
                lemma_neg_mod(recv as int, b as int);
            }
            FastOutcome::Int(r)
        },
        (FastOp::IntModFloored, Some(b)) => if b == 0 {
            FastOutcome::ZeroDivision
        } else if b == -1 {
            // Every integer is a multiple of -1; this also keeps
            // `i64::MIN % -1` from overflowing.
            proof {
                assert(floored_mod(recv as int, -1) == 0) by {
                    lemma_neg_mod(recv as int, -1);
                    lemma_neg_mod(recv as int, 1);
                    vstd::arithmetic::div_mod::lemma_small_mod(0, 1);
                    vstd::arithmetic::div_mod::lemma_mod_multiples_basic(recv as int, 1);
                }
            }
            FastOutcome::Int(0)
        } else {
            FastOutcome::Int(rubylike_mod_i64(recv, b))
        },
        (FastOp::IntPow, Some(e)) => if e >= 0 {
            match checked_pow_i64(recv, e as u32) {
                Some(v) => FastOutcome::Int(v),
                None => FastOutcome::Fallback,
            }
        } else {
            FastOutcome::FloatPower
        },
        (FastOp::NumSpaceship, Some(b)) => FastOutcome::Int(
            if recv < b {
                -1
            } else if recv > b {
                1
            } else {
                0
            },
        ),
        (FastOp::NumNe, Some(b)) => FastOutcome::Bool(recv != b),
        _ => FastOutcome::Fallback,
    }
}

/// The registers an OP_SEND with operands `a` and `c` uses: `n` positional
/// arguments in `a + 1 ..= a + n` (the low nibble of `c`), `k` keyword pairs
/// (the high nibble) with key `i` in `a + n + 2i + 1` and its value in the
/// next register, and the block in `a + n + 2k + 1`.
#[derive(Debug, Clone, Copy, PartialEq, Eq, Structural)]
pub struct SendLayout {
    pub n: usize,
    pub k: usize,
    pub block_index: usize,
}

pub fn send_layout(a: u8, c: u8) -> (r: SendLayout)
    ensures
        r.n == c % 16,
        r.k == c / 16,
        r.block_index == a + r.n + 2 * r.k + 1,
{
    let n = (c & 0x0f) as usize;
    let k = (c >> 4) as usize;
    assert(c & 0x0f == c % 16) by (bit_vector);
    assert(c >> 4 == c / 16) by (bit_vector);
    SendLayout { n, k, block_index: a as usize + n + k * 2 + 1 }
}

/// Register of keyword key `i` of a send laid out as `l` from base `a`; its
/// value sits in the register after it.
pub fn kwarg_key_index(a: u8, l: &SendLayout, i: usize) -> (r: usize)
    requires
        i < l.k,
        l.n < 16,
        l.k < 16,
    ensures
        r == a + l.n + 2 * i + 1,
{
    a as usize + l.n + i * 2 + 1
}

/// Where OP_ARGARY (the argument list of a zsuper) finds the arguments of
/// the current method: `m1` registers from 1 on, then, with `rest`, the rest
/// array in register `rest_reg` (its elements are spread into the list, or
/// the value itself when it is not an array), then `m2` registers from
/// `post_first` on; the block sits in `block_reg`.
#[derive(Debug, Clone, Copy, PartialEq, Eq, Structural)]
pub struct ArgAryPlan {
    pub m1: usize,
    pub rest: bool,
    pub m2: usize,
    pub rest_reg: usize,
    pub post_first: usize,
    pub block_reg: usize,
}

/// The plan of OP_ARGARY for its operand `s`: `m1` in bits 11-15, `rest` in
/// bit 10, `m2` in bits 5-9, the block depth in bits 0-3. `None` when the
/// depth is not 0 (a zsuper inside a nested block, which is not supported).
pub fn argary_plan(s: u16) -> (r: Option<ArgAryPlan>)
    ensures
        s % 16 != 0 ==> r is None,
        s % 16 == 0 ==> (r matches Some(p) && {
            let m1 = (s / 2048) as int;
            let rest = (s / 1024) % 2 == 1;
            let m2 = ((s / 32) % 32) as int;
            let rn: int = if rest { 1 } else { 0 };
            &&& p.m1 == m1
            &&& p.rest == rest
            &&& p.m2 == m2
            &&& p.rest_reg == m1 + 1
            &&& p.post_first == m1 + rn + 1
            &&& p.block_reg == m1 + rn + m2 + 1
        }),
{
    assert((s >> 11) & 0x1f == s / 2048) by (bit_vector);
    assert((s >> 10) & 0x1 == (s / 1024) % 2) by (bit_vector);
    assert((s >> 5) & 0x1f == (s / 32) % 32) by (bit_vector);
    assert(s & 0xf == s % 16) by (bit_vector);
    let m1 = ((s >> 11) & 0x1f) as usize;
    let rest = (s >> 10) & 0x1 == 1;
    let m2 = ((s >> 5) & 0x1f) as usize;
    let lv = (s & 0xf) as usize;
    if lv != 0 {
        return None;
    }
    let rn: usize = if rest { 1 } else { 0 };
    Some(ArgAryPlan {
        m1,
        rest,
        m2,
        rest_reg: m1 + 1,
        post_first: m1 + rn + 1,
        block_reg: m1 + rn + m2 + 1,
    })
}

/// What OP_ENTER does with the arguments of a call, once checked.
#[derive(Debug, Clone, Copy, PartialEq, Eq, Structural)]
pub struct EnterPlan {
    /// How many default-value jumps of the optional parameters to skip.
    pub skip_jumps: usize,
    /// Whether the arguments after the required ones are packed into a rest
    /// array, stored in register `m1 + 1`.
    pub pack_rest: bool,
    /// How many argument registers (from `m1 + 1` on) the rest array takes.
    pub rest_count: usize,
    /// Register of the keyword-rest hash, or 0 without one.
    pub kwrest_pos: usize,
    /// Whether a keyword-argument frame is pushed.
    pub push_kargs: bool,
    /// Register the block lands in.
    pub block_slot: usize,
}

/// The plan OP_ENTER follows for operand `info`, `argc` arguments, and
/// whether each of the first `m1` argument registers holds a value.
pub open spec fn spec_enter_plan(info: EnterArgInfo, argc: int) -> EnterPlan {
    let m1 = info.m1 as int;
    let m2 = info.m2 as int;
    EnterPlan {
        skip_jumps: (if info.o > 0 && argc > m1 + m2 {
            argc - m1 - m2
        } else {
            0
        }) as usize,
        pack_rest: info.r == 1,
        rest_count: (if info.r == 1 && argc > m1 {
            argc - m1
        } else {
            0
        }) as usize,
        kwrest_pos: (if info.d == 1 {
            m1 + info.r + info.d
        } else {
            0
        }) as usize,
        push_kargs: info.k > 0 || info.d == 1,
        block_slot: (m1 + info.o + info.r + m2 + 1) as usize,
    }
}

/// Index of the first `false` flag.
pub open spec fn first_missing(passed: Seq<bool>) -> int {
    choose|i: int| 0 <= i < passed.len() && !passed[i] && forall|j: int| 0 <= j < i ==> passed[j]
}

/// OP_ENTER's checks and plan: a block given to a method that refuses one
/// and a required argument that was not passed are errors, in that order.
pub fn enter_plan(a: u32, argc: usize, has_block: bool, passed: &[bool]) -> (r: Result<
    EnterPlan,
    crate::error::Error,
>)
    requires
        passed.len() >= EnterArgInfo::decoded(a).m1,
    ensures
        ({
            let info = EnterArgInfo::decoded(a);
            &&& info.n1 == 1 && has_block ==> crate::error::is_argument_error(r, "no block accepted"@)
            &&& !(info.n1 == 1 && has_block) && (exists|i: int| 0 <= i < info.m1 && !passed@[i])
                ==> crate::error::is_argument_error(
                r,
                "argument "@ + crate::format::int_text(
                    (first_missing(passed@) + 1) as i64,
                    10,
                    false,
                    false,
                    false,
                ) + " not passed"@,
            )
            &&& !(info.n1 == 1 && has_block) && (forall|i: int| 0 <= i < info.m1 ==> passed@[i])
                ==> r == Ok::<EnterPlan, crate::error::Error>(spec_enter_plan(info, argc as int))
        }),
{
    let info = EnterArgInfo::from_aspec(a);
    if info.n1 == 1 && has_block {
        return Err(crate::error::argument_error("no block accepted"));
    }
    let m1 = info.m1 as usize;
    let mut i: usize = 0;
    while i < m1
        invariant
            m1 == info.m1,
            info == EnterArgInfo::decoded(a),
            !(info.n1 == 1 && has_block),
            passed.len() >= m1,
            i <= m1,
            forall|j: int| 0 <= j < i ==> passed@[j],
        decreases m1 - i,
    {
        if !passed[i] {
            let mut msg: Vec<char> = Vec::new();
            crate::text::push_all(&mut msg, &['a', 'r', 'g', 'u', 'm', 'e', 'n', 't', ' ']);
            let digits = crate::format::int_render((i + 1) as i64, 10, false, false, false);
            crate::text::push_all(&mut msg, digits.as_slice());
            crate::text::push_all(&mut msg, &[' ', 'n', 'o', 't', ' ', 'p', 'a', 's', 's', 'e', 'd']);
            proof {
                reveal_strlit("argument ");
                reveal_strlit(" not passed");
                let f = first_missing(passed@);
                assert(0 <= f < passed@.len() && !passed@[f] && forall|j: int| 0 <= j < f ==> passed@[j]);
                if f < i {
                } else if f > i {
                    assert(!passed@[i as int]);
                }
                assert(f == i);
                assert(msg@ =~= "argument "@ + crate::format::int_text((i + 1) as i64, 10, false, false, false) + " not passed"@);
            }
            let text = crate::error::string_from_chars(msg.as_slice());
            let err = Err(crate::error::Error::ArgumentError(text));
            assert(crate::error::is_argument_error(
                err,
                "argument "@ + crate::format::int_text(
                    (first_missing(passed@) + 1) as i64,
                    10,
                    false,
                    false,
                    false,
                ) + " not passed"@,
            ));
            return err;
        }
        i += 1;
    }
    let m2 = info.m2 as usize;
    let skip_jumps = if info.o > 0 && argc > m1 + m2 {
        argc - (m1 + m2)
    } else {
        0
    };
    let rest_count = if info.r == 1 && argc > m1 {
        argc - m1
    } else {
        0
    };
    let kwrest_pos = if info.d == 1 {
        m1 + info.r as usize + info.d as usize
    } else {
        0
    };
    proof {
        assert(info.m1 < 32 && info.o < 32 && info.r < 2 && info.m2 < 32 && info.d < 2);
    }
    Ok(EnterPlan {
        skip_jumps,
        pack_rest: info.r == 1,
        rest_count,
        kwrest_pos,
        push_kargs: info.k > 0 || info.d == 1,
        block_slot: info.block_len() as usize + 1,
    })
}

/// What OP_ENTER does, read straight off the bits of its operand `a`
/// (m1: bits 18-22, o: 13-17, r: 12, m2: 7-11, k: 2-6, d: 1): a
/// keyword-argument frame is pushed whenever the method declares a keyword
/// parameter or a `**` parameter; the rest array is packed exactly when
/// there is a `*` parameter and takes the arguments after the required
/// ones; optional-argument jumps are skipped for the arguments beyond the
/// required ones; the `**` hash sits after the required and rest
/// parameters; and the block lands right after every positional parameter.
/// The required arguments checked for presence are the first `m1`, and a
/// block is refused exactly when bit 23 (the no-block flag) is set.
pub proof fn law_enter_plan_from_operand_bits(a: u32, argc: usize)
    ensures
        ({
            let m1 = (a / 0x4_0000) as int % 32;
            let o = (a / 0x2000) as int % 32;
            let r = (a / 0x1000) as int % 2;
            let m2 = (a / 0x80) as int % 32;
            let k = (a / 4) as int % 32;
            let d = (a / 2) as int % 2;
            let p = spec_enter_plan(EnterArgInfo::decoded(a), argc as int);
            &&& p.push_kargs == (k > 0 || d == 1)
            &&& p.pack_rest == (r == 1)
            &&& p.rest_count as int == (if r == 1 && argc > m1 { argc - m1 } else { 0 })
            &&& p.skip_jumps as int == (if o > 0 && argc > m1 + m2 { argc - m1 - m2 } else { 0 })
            &&& p.kwrest_pos as int == (if d == 1 { m1 + r + 1 } else { 0 })
            &&& p.block_slot as int == m1 + o + r + m2 + 1
            &&& EnterArgInfo::decoded(a).m1 as int == m1
            &&& EnterArgInfo::decoded(a).n1 as int == (a / 0x80_0000) as int % 2
        }),
{
}

} // verus!
