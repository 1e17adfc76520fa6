//! One instruction of the interpreter over a frame of plain values: loads,
//! moves, jumps and the integer fast paths of arithmetic and comparison.
//! Whatever needs the object heap (floats, strings, method calls) is handed
//! back to the interpreter as `Action::Delegate`, which then runs the
//! general path of the instruction.

use vstd::prelude::*;

use crate::value::{spec_fast_int_op, FastOp, FastOutcome};

verus! {

/// A register value as the fast paths see it: immediates, and a handle for
/// anything kept on the heap (floats, strings, objects).
#[derive(Debug, Clone, Copy, PartialEq, Eq, Structural)]
pub enum RegVal {
    Nil,
    Bool(bool),
    Int(i64),
    Sym(u32),
    Obj(u64),
}

/// Ruby truthiness: everything but `nil` and `false`.
pub open spec fn truthy(v: RegVal) -> bool {
    match v {
        RegVal::Nil => false,
        RegVal::Bool(b) => b,
        _ => true,
    }
}

/// The instructions this step function runs, with their operands.
#[derive(Debug, Clone, Copy, PartialEq, Eq, Structural)]
pub enum Op {
    Nop,
    Move(u8, u8),
    LoadI(u8, u8),
    LoadINeg(u8, u8),
    /// LOADI__1 to LOADI_7: the constant is the second operand.
    LoadIN(u8, i8),
    LoadSym(u8, u8),
    LoadL(u8, u8),
    LoadNil(u8),
    LoadSelf(u8),
    LoadT(u8),
    LoadF(u8),
    Jmp(i16),
    JmpIf(u8, i16),
    JmpNot(u8, i16),
    JmpNil(u8, i16),
    AddI(u8, u8),
    SubI(u8, u8),
    Add(u8),
    Sub(u8),
    Mul(u8),
    Div(u8),
    Eq(u8),
    Lt(u8),
    Le(u8),
    Gt(u8),
    Ge(u8),
}

/// A constant-pool entry as OP_LOADL sees it: an integer, a value that
/// lives on the heap (a string or a float), or binary data.
#[derive(Debug, Clone, Copy, PartialEq, Eq, Structural)]
pub enum PoolEntry {
    Int(i64),
    Heap,
    Data,
}

/// Loaded code: the instructions, the byte offset and length of each, the
/// symbol table and the constant pool.
pub struct Code {
    pub ops: Vec<Op>,
    pub pos: Vec<usize>,
    pub len: Vec<usize>,
    pub syms: Vec<u32>,
    pub pool: Vec<PoolEntry>,
}

/// What the interpreter does after the step.
#[derive(Debug, Clone, Copy, PartialEq, Eq, Structural)]
pub enum Action {
    /// Go on at the new program counter.
    Next,
    /// The fast path does not apply: run the instruction's general path
    /// (a method call, or floating point) with the frame unchanged.
    Delegate,
}

/// Why a step failed (internal errors of the interpreter).
#[derive(Debug, Clone, Copy, PartialEq, Eq, Structural)]
pub enum StepError {
    Unassigned(usize),
    /// OP_LOADL on binary data, which the pool does not support yet.
    DataInPool,
}

/// The index of the first instruction at byte offset `target`.
pub open spec fn op_at(pos: Seq<usize>, target: int, from: int) -> Option<int>
    decreases pos.len() - from,
{
    if from < 0 || from >= pos.len() {
        None
    } else if pos[from] == target {
        Some(from)
    } else {
        op_at(pos, target, from + 1)
    }
}

/// Where a jump of instruction `at` by `off` bytes lands: `off` counts from
/// the end of the instruction.
pub open spec fn jump_target(c: Code, at: int, off: i16) -> Option<int> {
    op_at(c.pos@, c.pos@[at] + c.len@[at] + off, 0)
}

/// Loaded code is consistent: one offset and length per instruction,
/// symbol operands inside the table, and every jump lands on an
/// instruction.
pub open spec fn code_ok(c: Code) -> bool {
    &&& c.pos@.len() == c.ops@.len()
    &&& c.len@.len() == c.ops@.len()
    &&& forall|i: int| 0 <= i < c.ops@.len() ==> c.pos@[i] + c.len@[i] <= usize::MAX
    &&& forall|i: int|
        0 <= i < c.ops@.len() ==> match #[trigger] c.ops@[i] {
            Op::LoadSym(_, b) => b < c.syms@.len(),
            Op::LoadL(_, b) => b < c.pool@.len(),
            Op::Jmp(off) => jump_target(c, i, off) is Some,
            Op::JmpIf(_, off) => jump_target(c, i, off) is Some,
            Op::JmpNot(_, off) => jump_target(c, i, off) is Some,
            Op::JmpNil(_, off) => jump_target(c, i, off) is Some,
            _ => true,
        }
}

/// The outcome of one step: the register it writes (if any), the program
/// counter after it and the action, or the error.
pub enum StepOut {
    Done { write: Option<(u8, RegVal)>, pc: int, action: Action },
    Fail(StepError),
}

/// The integer result of an arithmetic instruction on two integers.
pub open spec fn int_arith(op: Op, x: int, y: int) -> int {
    match op {
        Op::Add(_) => x + y,
        Op::Sub(_) => x - y,
        Op::Mul(_) => x * y,
        // Rust's division, rounding toward zero.
        _ => if x >= 0 {
            x / y
        } else {
            -((-x) / y)
        },
    }
}

/// The answer of a comparison instruction on two integers.
pub open spec fn int_compare(op: Op, x: int, y: int) -> bool {
    match op {
        Op::Eq(_) => x == y,
        Op::Lt(_) => x < y,
        Op::Le(_) => x <= y,
        Op::Gt(_) => x > y,
        _ => x >= y,
    }
}

/// What `Eq` decides inline: same-kind immediates compare by value; any
/// other pair goes to `==`.
pub open spec fn fast_eq(x: RegVal, y: RegVal) -> Option<bool> {
    match (x, y) {
        (RegVal::Int(a), RegVal::Int(b)) => Some(a == b),
        (RegVal::Bool(a), RegVal::Bool(b)) => Some(a == b),
        (RegVal::Nil, RegVal::Nil) => Some(true),
        (RegVal::Sym(a), RegVal::Sym(b)) => Some(a == b),
        _ => None,
    }
}

/// The instruction at `at` run over registers `regs` (the program counter
/// already points past it); `apply_write` gives the registers after it.
pub open spec fn spec_step(c: Code, regs: Seq<Option<RegVal>>, at: int) -> StepOut {
    let next = at + 1;
    let set = |a: u8, v: RegVal| StepOut::Done { write: Some((a, v)), pc: next, action: Action::Next };
    let jump = |off: i16, taken: bool| StepOut::Done {
        write: None,
        pc: if taken {
            jump_target(c, at, off).unwrap()
        } else {
            next
        },
        action: Action::Next,
    };
    let delegate = StepOut::Done { write: None, pc: next, action: Action::Delegate };
    match c.ops@[at] {
        Op::Nop => StepOut::Done { write: None, pc: next, action: Action::Next },
        Op::Move(a, b) => match regs[b as int] {
            Some(v) => set(a, v),
            None => StepOut::Fail(StepError::Unassigned(b as usize)),
        },
        Op::LoadI(a, b) => set(a, RegVal::Int(b as i64)),
        Op::LoadINeg(a, b) => set(a, RegVal::Int((-(b as int)) as i64)),
        Op::LoadIN(a, n) => set(a, RegVal::Int(n as i64)),
        Op::LoadSym(a, b) => set(a, RegVal::Sym(c.syms@[b as int])),
        Op::LoadL(a, b) => match c.pool@[b as int] {
            PoolEntry::Int(i) => set(a, RegVal::Int(i)),
            PoolEntry::Heap => delegate,
            PoolEntry::Data => StepOut::Fail(StepError::DataInPool),
        },
        Op::LoadNil(a) => set(a, RegVal::Nil),
        Op::LoadT(a) => set(a, RegVal::Bool(true)),
        Op::LoadF(a) => set(a, RegVal::Bool(false)),
        Op::LoadSelf(a) => match regs[0] {
            Some(v) => set(a, v),
            None => StepOut::Fail(StepError::Unassigned(0)),
        },
        Op::Jmp(off) => jump(off, true),
        Op::JmpIf(a, off) => match regs[a as int] {
            Some(v) => jump(off, truthy(v)),
            None => StepOut::Fail(StepError::Unassigned(a as usize)),
        },
        Op::JmpNot(a, off) => match regs[a as int] {
            Some(v) => jump(off, !truthy(v)),
            None => StepOut::Fail(StepError::Unassigned(a as usize)),
        },
        Op::JmpNil(a, off) => match regs[a as int] {
            Some(v) => jump(off, v == RegVal::Nil),
            None => StepOut::Fail(StepError::Unassigned(a as usize)),
        },
        Op::AddI(a, b) => match regs[a as int] {
            Some(RegVal::Int(n)) => set(a, RegVal::Int((n + b) as i64)),
            _ => delegate,
        },
        Op::SubI(a, b) => match regs[a as int] {
            Some(RegVal::Int(n)) => set(a, RegVal::Int((n - b) as i64)),
            _ => delegate,
        },
        Op::Add(a) | Op::Sub(a) | Op::Mul(a) | Op::Div(a) => match (regs[a as int], regs[a + 1]) {
            (Some(RegVal::Int(x)), Some(RegVal::Int(y))) => set(
                a,
                RegVal::Int(int_arith(c.ops@[at], x as int, y as int) as i64),
            ),
            _ => delegate,
        },
        Op::Eq(a) => match (regs[a as int], regs[a + 1]) {
            (Some(x), Some(y)) => match fast_eq(x, y) {
                Some(e) => set(a, RegVal::Bool(e)),
                None => delegate,
            },
            _ => delegate,
        },
        Op::Lt(a) | Op::Le(a) | Op::Gt(a) | Op::Ge(a) => match (regs[a as int], regs[a + 1]) {
            (Some(RegVal::Int(x)), Some(RegVal::Int(y))) => set(
                a,
                RegVal::Bool(int_compare(c.ops@[at], x as int, y as int)),
            ),
            _ => delegate,
        },
    }
}

/// The integer fast paths of instruction `at` stay inside `i64`, and an
/// integer division has a divisor other than 0 (the interpreter's integer
/// arithmetic panics otherwise).
pub open spec fn step_in_range(c: Code, regs: Seq<Option<RegVal>>, at: int) -> bool {
    match c.ops@[at] {
        Op::AddI(a, b) => regs[a as int] matches Some(RegVal::Int(n)) ==> n + b <= i64::MAX,
        Op::SubI(a, b) => regs[a as int] matches Some(RegVal::Int(n)) ==> n - b >= i64::MIN,
        Op::Add(a) | Op::Sub(a) | Op::Mul(a) | Op::Div(a) => match (regs[a as int], regs[a + 1]) {
            (Some(RegVal::Int(x)), Some(RegVal::Int(y))) => {
                &&& (c.ops@[at] is Div ==> y != 0)
                &&& (y != 0 || !(c.ops@[at] is Div)) ==> i64::MIN <= int_arith(
                    c.ops@[at],
                    x as int,
                    y as int,
                ) <= i64::MAX
            },
            _ => true,
        },
        _ => true,
    }
}

fn find_op(pos: &Vec<usize>, target: i128) -> (r: Option<usize>)
    ensures
        match r {
            Some(i) => op_at(pos@, target as int, 0) == Some(i as int),
            None => op_at(pos@, target as int, 0) is None,
        },
{
    let mut i: usize = 0;
    while i < pos.len()
        invariant
            i <= pos.len(),
            op_at(pos@, target as int, 0) == op_at(pos@, target as int, i as int),
        decreases pos.len() - i,
    {
        if pos[i] as i128 == target {
            return Some(i);
        }
        i += 1;
    }
    None
}

fn jump_to(c: &Code, at: usize, off: i16) -> (r: usize)
    requires
        code_ok(*c),
        at < c.ops@.len(),
        jump_target(*c, at as int, off) is Some,
    ensures
        r as int == jump_target(*c, at as int, off).unwrap(),
{
    let target: i128 = c.pos[at] as i128 + c.len[at] as i128 + off as i128;
    match find_op(&c.pos, target) {
        Some(i) => i,
        None => 0,
    }
}

/// The registers after a step's write, if it made one.
pub open spec fn apply_write(regs: Seq<Option<RegVal>>, w: Option<(u8, RegVal)>) -> Seq<Option<RegVal>> {
    match w {
        Some((a, v)) => regs.update(a as int, Some(v)),
        None => regs,
    }
}

/// Runs instruction `at` of `c` over the registers `regs`: the new program
/// counter, the action, and the register write the interpreter makes (none
/// on `Delegate`), to be applied as `apply_write` says.
pub fn exec_op(c: &Code, regs: &[Option<RegVal>], at: usize) -> (r: Result<(usize, Action, Option<(u8, RegVal)>), StepError>)
    requires
        code_ok(*c),
        at < c.ops@.len(),
        regs@.len() > 256,
        step_in_range(*c, regs@, at as int),
    ensures
        match spec_step(*c, regs@, at as int) {
            StepOut::Done { write, pc, action } => r matches Ok((p, act, w)) && p == pc && act == action
                && w == write,
            StepOut::Fail(e) => r == Err::<(usize, Action, Option<(u8, RegVal)>), StepError>(e),
        },
{
    let n_ops = c.ops.len();
    let next = at + 1;
    let op = c.ops[at];
    match op {
        Op::Nop => {
            assert(apply_write(regs@, None) == regs@);
            Ok((next, Action::Next, None))
        },
        Op::Move(a, b) => match regs[b as usize] {
            Some(v) => {
                Ok((next, Action::Next, Some((a, v))))
            },
            None => Err(StepError::Unassigned(b as usize)),
        },
        Op::LoadI(a, b) => {
            Ok((next, Action::Next, Some((a, RegVal::Int(b as i64)))))
        },
        Op::LoadINeg(a, b) => {
            Ok((next, Action::Next, Some((a, RegVal::Int(-(b as i64))))))
        },
        Op::LoadIN(a, n) => {
            Ok((next, Action::Next, Some((a, RegVal::Int(n as i64)))))
        },
        Op::LoadSym(a, b) => {
            let s = c.syms[b as usize];
            Ok((next, Action::Next, Some((a, RegVal::Sym(s)))))
        },
        Op::LoadL(a, b) => match c.pool[b as usize] {
            PoolEntry::Int(i) => Ok((next, Action::Next, Some((a, RegVal::Int(i))))),
            PoolEntry::Heap => Ok((next, Action::Delegate, None)),
            PoolEntry::Data => Err(StepError::DataInPool),
        },
        Op::LoadNil(a) => {
            Ok((next, Action::Next, Some((a, RegVal::Nil))))
        },
        Op::LoadT(a) => {
            Ok((next, Action::Next, Some((a, RegVal::Bool(true)))))
        },
        Op::LoadF(a) => {
            Ok((next, Action::Next, Some((a, RegVal::Bool(false)))))
        },
        Op::LoadSelf(a) => match regs[0] {
            Some(v) => {
                Ok((next, Action::Next, Some((a, v))))
            },
            None => Err(StepError::Unassigned(0)),
        },
        Op::Jmp(off) => Ok((jump_to(c, at, off), Action::Next, None)),
        Op::JmpIf(a, off) | Op::JmpNot(a, off) | Op::JmpNil(a, off) => match regs[a as usize] {
            Some(v) => {
                let t = match v {
                    RegVal::Nil => false,
                    RegVal::Bool(b) => b,
                    _ => true,
                };
                let taken = match op {
                    Op::JmpIf(_, _) => t,
                    Op::JmpNot(_, _) => !t,
                    _ => v == RegVal::Nil,
                };
                if taken {
                    Ok((jump_to(c, at, off), Action::Next, None))
                } else {
                    Ok((next, Action::Next, None))
                }
            },
            None => Err(StepError::Unassigned(a as usize)),
        },
        Op::AddI(a, b) => match regs[a as usize] {
            Some(RegVal::Int(n)) => {
                Ok((next, Action::Next, Some((a, RegVal::Int(n + b as i64)))))
            },
            _ => Ok((next, Action::Delegate, None)),
        },
        Op::SubI(a, b) => match regs[a as usize] {
            Some(RegVal::Int(n)) => {
                Ok((next, Action::Next, Some((a, RegVal::Int(n - b as i64)))))
            },
            _ => Ok((next, Action::Delegate, None)),
        },
        Op::Add(a) | Op::Sub(a) | Op::Mul(a) => {
            let ai = a as usize;
            match (regs[ai], regs[ai + 1]) {
                (Some(RegVal::Int(x)), Some(RegVal::Int(y))) => {
                    let v = match op {
                        Op::Add(_) => x + y,
                        Op::Sub(_) => x - y,
                        _ => x * y,
                    };
                    Ok((next, Action::Next, Some((a, RegVal::Int(v)))))
                },
                _ => Ok((next, Action::Delegate, None)),
            }
        },
        Op::Div(a) => {
            let ai = a as usize;
            match (regs[ai], regs[ai + 1]) {
                (Some(RegVal::Int(x)), Some(RegVal::Int(y))) => {
                    proof {
                        if x == i64::MIN && y == -1 {
                            assert(0x8000_0000_0000_0000int / (-1int) == -0x8000_0000_0000_0000int)
                                by (nonlinear_arith);
                            assert(int_arith(Op::Div(a), x as int, y as int) > i64::MAX);
                        }
                    }
                    let v = x / y;
                    Ok((next, Action::Next, Some((a, RegVal::Int(v)))))
                },
                _ => Ok((next, Action::Delegate, None)),
            }
        },
        Op::Eq(a) => {
            let ai = a as usize;
            match (regs[ai], regs[ai + 1]) {
                (Some(x), Some(y)) => {
                    let e = match (x, y) {
                        (RegVal::Int(p), RegVal::Int(q)) => Some(p == q),
                        (RegVal::Bool(p), RegVal::Bool(q)) => Some(p == q),
                        (RegVal::Nil, RegVal::Nil) => Some(true),
                        (RegVal::Sym(p), RegVal::Sym(q)) => Some(p == q),
                        _ => None,
                    };
                    match e {
                        Some(e) => {
                            Ok((next, Action::Next, Some((a, RegVal::Bool(e)))))
                        },
                        None => Ok((next, Action::Delegate, None)),
                    }
                },
                _ => Ok((next, Action::Delegate, None)),
            }
        },
        Op::Lt(a) | Op::Le(a) | Op::Gt(a) | Op::Ge(a) => {
            let ai = a as usize;
            match (regs[ai], regs[ai + 1]) {
                (Some(RegVal::Int(x)), Some(RegVal::Int(y))) => {
                    let v = match op {
                        Op::Lt(_) => x < y,
                        Op::Le(_) => x <= y,
                        Op::Gt(_) => x > y,
                        _ => x >= y,
                    };
                    Ok((next, Action::Next, Some((a, RegVal::Bool(v)))))
                },
                _ => Ok((next, Action::Delegate, None)),
            }
        },
    }
}

/// What the general path of a comparison does with the answer of `<=>`:
/// nil fails the comparison; an integer (or what converts to one) decides
/// it; anything else is refused.
#[derive(Debug, Clone, Copy, PartialEq, Eq, Structural)]
pub enum OrdAnswer {
    Nil,
    Int(i64),
    Other,
}

pub open spec fn spec_compare_verdict(op: Op, r: OrdAnswer) -> Result<bool, Seq<char>> {
    match r {
        OrdAnswer::Nil => Err("comparison failed"@),
        OrdAnswer::Int(o) => Ok(match op {
            Op::Lt(_) => o < 0,
            Op::Le(_) => o <= 0,
            Op::Gt(_) => o > 0,
            _ => o >= 0,
        }),
        OrdAnswer::Other => Err("bad <=> result"@),
    }
}

/// The result of `<`, `<=`, `>` or `>=` (`op`) through `<=>`.
pub fn compare_verdict(op: Op, r: OrdAnswer) -> (v: Result<bool, crate::error::Error>)
    ensures
        match spec_compare_verdict(op, r) {
            Ok(b) => v == Ok::<bool, crate::error::Error>(b),
            Err(m) => crate::error::is_argument_error(v, m),
        },
{
    match r {
        OrdAnswer::Nil => Err(crate::error::argument_error("comparison failed")),
        OrdAnswer::Int(o) => Ok(match op {
            Op::Lt(_) => o < 0,
            Op::Le(_) => o <= 0,
            Op::Gt(_) => o > 0,
            _ => o >= 0,
        }),
        OrdAnswer::Other => Err(crate::error::argument_error("bad <=> result")),
    }
}

/// Truncated division, as Rust's `/` on integers: `x == q * y + r` with the
/// remainder smaller than the divisor and carrying the dividend's sign.
pub open spec fn is_trunc_quotient(x: int, y: int, q: int) -> bool {
    let r = x - q * y;
    &&& (if r < 0 { -r } else { r }) < (if y < 0 { -y } else { y })
    &&& r == 0 || (r < 0) == (x < 0)
}

/// Two integer registers: the comparison instructions write the Ruby
/// answer, and the arithmetic ones the integer result (division rounding
/// toward zero), into the first register; the program counter moves on by
/// one.
pub proof fn law_integer_fast_paths(c: Code, regs: Seq<Option<RegVal>>, at: int, a: u8, x: i64, y: i64)
    requires
        0 <= at < c.ops@.len(),
        regs[a as int] == Some(RegVal::Int(x)),
        regs[a + 1] == Some(RegVal::Int(y)),
    ensures
        c.ops@[at] == Op::Eq(a) ==> spec_step(c, regs, at) == (StepOut::Done {
            write: Some((a, RegVal::Bool(x == y))),
            pc: at + 1,
            action: Action::Next,
        }),
        c.ops@[at] == Op::Lt(a) ==> spec_step(c, regs, at) == (StepOut::Done {
            write: Some((a, RegVal::Bool(x < y))),
            pc: at + 1,
            action: Action::Next,
        }),
        c.ops@[at] == Op::Le(a) ==> spec_step(c, regs, at) == (StepOut::Done {
            write: Some((a, RegVal::Bool(x <= y))),
            pc: at + 1,
            action: Action::Next,
        }),
        c.ops@[at] == Op::Gt(a) ==> spec_step(c, regs, at) == (StepOut::Done {
            write: Some((a, RegVal::Bool(x > y))),
            pc: at + 1,
            action: Action::Next,
        }),
        c.ops@[at] == Op::Ge(a) ==> spec_step(c, regs, at) == (StepOut::Done {
            write: Some((a, RegVal::Bool(x >= y))),
            pc: at + 1,
            action: Action::Next,
        }),
        c.ops@[at] == Op::Add(a) && i64::MIN <= x + y <= i64::MAX ==> spec_step(c, regs, at) == (StepOut::Done {
            write: Some((a, RegVal::Int((x + y) as i64))),
            pc: at + 1,
            action: Action::Next,
        }),
        c.ops@[at] == Op::Sub(a) && i64::MIN <= x - y <= i64::MAX ==> spec_step(c, regs, at) == (StepOut::Done {
            write: Some((a, RegVal::Int((x - y) as i64))),
            pc: at + 1,
            action: Action::Next,
        }),
        c.ops@[at] == Op::Mul(a) && i64::MIN <= x * y <= i64::MAX ==> spec_step(c, regs, at) == (StepOut::Done {
            write: Some((a, RegVal::Int((x * y) as i64))),
            pc: at + 1,
            action: Action::Next,
        }),
        c.ops@[at] == Op::Div(a) && y != 0 && !(x == i64::MIN && y == -1) ==> (spec_step(c, regs, at) matches StepOut::Done {
            write: Some((w, RegVal::Int(q))),
            pc,
            action: Action::Next,
        } && w == a && pc == at + 1 && is_trunc_quotient(x as int, y as int, q as int)),
{
    if c.ops@[at] == Op::Div(a) && y != 0 && !(x == i64::MIN && y == -1) {
        let xi = x as int;
        let yi = y as int;
        let q = int_arith(Op::Div(a), xi, yi);
        lemma_trunc_div(xi, yi);
        assert(i64::MIN <= q <= i64::MAX) by {
            lemma_trunc_div_range(xi, yi);
        }
    }
}

proof fn lemma_trunc_div(x: int, y: int)
    requires
        y != 0,
    ensures
        is_trunc_quotient(x, y, if x >= 0 { x / y } else { -((-x) / y) }),
{
    let ay = if y < 0 { -y } else { y };
    if x >= 0 {
        vstd::arithmetic::div_mod::lemma_fundamental_div_mod(x, y);
        let q = x / y;
        let r0 = x % y;
        assert(0 <= r0 < ay);
        assert(x - q * y == r0) by (nonlinear_arith)
            requires
                x == y * q + r0,
        ;
    } else {
        vstd::arithmetic::div_mod::lemma_fundamental_div_mod(-x, y);
        let q0 = (-x) / y;
        let r0 = (-x) % y;
        assert(0 <= r0 < ay);
        assert(x - (-q0) * y == -r0) by (nonlinear_arith)
            requires
                -x == y * q0 + r0,
        ;
    }
}

proof fn lemma_trunc_div_range(x: int, y: int)
    requires
        y != 0,
        i64::MIN <= x <= i64::MAX,
        i64::MIN <= y <= i64::MAX,
        !(x == i64::MIN && y == -1),
    ensures
        i64::MIN <= (if x >= 0 { x / y } else { -((-x) / y) }) <= i64::MAX,
{
    let a = if x >= 0 { x } else { -x };
    let ay = if y < 0 { -y } else { y };
    vstd::arithmetic::div_mod::lemma_fundamental_div_mod(a, y);
    let q0 = a / y;
    let r = a % y;
    assert(0 <= r < ay);
    assert(a == y * q0 + r);
    assert(-a <= q0 <= a) by (nonlinear_arith)
        requires
            a == y * q0 + r,
            0 <= r < ay,
            ay == (if y < 0 { -y } else { y }),
            ay >= 1,
            a >= 0,
    ;
    if x < 0 && q0 == -a {
        assert(y == -1) by (nonlinear_arith)
            requires
                a == y * q0 + r,
                0 <= r < ay,
                ay == (if y < 0 { -y } else { y }),
                q0 == -a,
                a >= 1,
        ;
    }
}

/// Loads write the value their instruction names, moves copy, jumps go
/// where the offset from the end of the instruction points when their
/// condition holds (truthy, falsy, nil), and the rest go on by one.
pub proof fn law_loads_moves_and_jumps(c: Code, regs: Seq<Option<RegVal>>, at: int)
    requires
        0 <= at < c.ops@.len(),
    ensures
        c.ops@[at] matches Op::LoadI(a, b) ==> spec_step(c, regs, at) == (StepOut::Done { write: Some((a, RegVal::Int(b as i64))), pc: at + 1, action: Action::Next }),
        c.ops@[at] matches Op::LoadINeg(a, b) ==> spec_step(c, regs, at) == (StepOut::Done { write: Some((a, RegVal::Int((0 - b) as i64))), pc: at + 1, action: Action::Next }),
        c.ops@[at] matches Op::LoadIN(a, n) ==> spec_step(c, regs, at) == (StepOut::Done { write: Some((a, RegVal::Int(n as i64))), pc: at + 1, action: Action::Next }),
        c.ops@[at] matches Op::LoadSym(a, b) ==> spec_step(c, regs, at) == (StepOut::Done { write: Some((a, RegVal::Sym(c.syms@[b as int]))), pc: at + 1, action: Action::Next }),
        c.ops@[at] matches Op::LoadNil(a) ==> spec_step(c, regs, at) == (StepOut::Done { write: Some((a, RegVal::Nil)), pc: at + 1, action: Action::Next }),
        c.ops@[at] matches Op::LoadT(a) ==> spec_step(c, regs, at) == (StepOut::Done { write: Some((a, RegVal::Bool(true))), pc: at + 1, action: Action::Next }),
        c.ops@[at] matches Op::LoadF(a) ==> spec_step(c, regs, at) == (StepOut::Done { write: Some((a, RegVal::Bool(false))), pc: at + 1, action: Action::Next }),
        match c.ops@[at] {
            Op::Move(a, b) => regs[b as int] is Some ==> spec_step(c, regs, at) == (StepOut::Done { write: Some((a, regs[b as int].unwrap())), pc: at + 1, action: Action::Next }),
            Op::LoadSelf(a) => regs[0] is Some ==> spec_step(c, regs, at) == (StepOut::Done { write: Some((a, regs[0].unwrap())), pc: at + 1, action: Action::Next }),
            Op::Nop => spec_step(c, regs, at) == (StepOut::Done { write: None, pc: at + 1, action: Action::Next }),
            Op::Jmp(off) => jump_target(c, at, off) is Some ==> spec_step(c, regs, at) == (StepOut::Done { write: None, pc: jump_target(c, at, off).unwrap(), action: Action::Next }),
            Op::JmpIf(a, off) => jump_target(c, at, off) is Some && regs[a as int] is Some ==> spec_step(c, regs, at) == (StepOut::Done { write: None, pc: if regs[a as int].unwrap() != RegVal::Nil && regs[a as int].unwrap() != RegVal::Bool(false) { jump_target(c, at, off).unwrap() } else { at + 1 }, action: Action::Next }),
            Op::JmpNot(a, off) => jump_target(c, at, off) is Some && regs[a as int] is Some ==> spec_step(c, regs, at) == (StepOut::Done { write: None, pc: if regs[a as int].unwrap() == RegVal::Nil || regs[a as int].unwrap() == RegVal::Bool(false) { jump_target(c, at, off).unwrap() } else { at + 1 }, action: Action::Next }),
            Op::JmpNil(a, off) => jump_target(c, at, off) is Some && regs[a as int] is Some ==> spec_step(c, regs, at) == (StepOut::Done { write: None, pc: if regs[a as int].unwrap() == RegVal::Nil { jump_target(c, at, off).unwrap() } else { at + 1 }, action: Action::Next }),
            _ => true,
        },
{
}

/// The immediate-operand instructions add or subtract their operand from
/// an integer register in place (anything else in the register goes to
/// the method call); a pool load of an integer constant writes it; and
/// `Eq` on two immediates of one kind (integers, booleans, `nil`, symbols)
/// writes whether they are the same value, while other pairs go to `==`.
pub proof fn law_immediates_and_pool(c: Code, regs: Seq<Option<RegVal>>, at: int)
    requires
        0 <= at < c.ops@.len(),
    ensures
        match c.ops@[at] {
            Op::AddI(a, b) => match regs[a as int] {
                Some(RegVal::Int(n)) => n + b <= i64::MAX ==> spec_step(c, regs, at) == (StepOut::Done { write: Some((a, RegVal::Int((n + b) as i64))), pc: at + 1, action: Action::Next }),
                _ => spec_step(c, regs, at) == (StepOut::Done { write: None, pc: at + 1, action: Action::Delegate }),
            },
            Op::SubI(a, b) => match regs[a as int] {
                Some(RegVal::Int(n)) => n - b >= i64::MIN ==> spec_step(c, regs, at) == (StepOut::Done { write: Some((a, RegVal::Int((n - b) as i64))), pc: at + 1, action: Action::Next }),
                _ => spec_step(c, regs, at) == (StepOut::Done { write: None, pc: at + 1, action: Action::Delegate }),
            },
            Op::LoadL(a, b) => c.pool@[b as int] matches PoolEntry::Int(i) ==> spec_step(c, regs, at) == (StepOut::Done { write: Some((a, RegVal::Int(i))), pc: at + 1, action: Action::Next }),
            Op::Eq(a) => match (regs[a as int], regs[a + 1]) {
                (Some(x), Some(y)) => if (x is Int && y is Int) || (x is Bool && y is Bool) || (x is Nil && y is Nil) || (x is Sym && y is Sym) {
                    spec_step(c, regs, at) == (StepOut::Done { write: Some((a, RegVal::Bool(x == y))), pc: at + 1, action: Action::Next })
                } else {
                    spec_step(c, regs, at) == (StepOut::Done { write: None, pc: at + 1, action: Action::Delegate })
                },
                _ => spec_step(c, regs, at) == (StepOut::Done { write: None, pc: at + 1, action: Action::Delegate }),
            },
            _ => true,
        },
{
}

/// Comparing two integers through the `<=>` answer that `Integer#<=>`
/// gives agrees with comparing them directly, for each of `<`, `<=`, `>`
/// and `>=`.
pub proof fn law_compare_through_spaceship(a: u8, x: i64, y: i64)
    ensures
        spec_fast_int_op(FastOp::NumSpaceship, x, Some(y)) matches FastOutcome::Int(o) && {
            &&& spec_compare_verdict(Op::Lt(a), OrdAnswer::Int(o)) == Ok::<bool, Seq<char>>(x < y)
            &&& spec_compare_verdict(Op::Le(a), OrdAnswer::Int(o)) == Ok::<bool, Seq<char>>(x <= y)
            &&& spec_compare_verdict(Op::Gt(a), OrdAnswer::Int(o)) == Ok::<bool, Seq<char>>(x > y)
            &&& spec_compare_verdict(Op::Ge(a), OrdAnswer::Int(o)) == Ok::<bool, Seq<char>>(x >= y)
        },
{
}

/// A jump lands on the instruction whose byte offset is the end of the
/// jump instruction plus the offset.
pub proof fn law_jump_target(c: Code, at: int, off: i16)
    requires
        0 <= at < c.pos@.len(),
        at < c.len@.len(),
    ensures
        jump_target(c, at, off) matches Some(t) ==> 0 <= t < c.pos@.len() && c.pos@[t] == c.pos@[at] + c.len@[at] + off,
        (exists|i: int| 0 <= i < c.pos@.len() && c.pos@[i] == c.pos@[at] + c.len@[at] + off) ==> jump_target(c, at, off) is Some,
{
    lemma_op_at(c.pos@, c.pos@[at] + c.len@[at] + off, 0);
}

proof fn lemma_op_at(pos: Seq<usize>, target: int, from: int)
    requires
        0 <= from,
    ensures
        op_at(pos, target, from) matches Some(t) ==> from <= t < pos.len() && pos[t] == target,
        (exists|i: int| from <= i < pos.len() && pos[i] == target) ==> op_at(pos, target, from) is Some,
    decreases pos.len() - from,
{
    if from < pos.len() && pos[from] != target {
        lemma_op_at(pos, target, from + 1);
    }
}

} // verus!
