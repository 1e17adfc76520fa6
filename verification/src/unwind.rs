//! The decisions of the interpreter's main loop: which instruction runs
//! next, where a raised exception is rescued, when a frame is popped, and
//! where a `break` value lands. The loop itself (running instructions,
//! popping frames, writing registers) belongs to the interpreter; each
//! function here takes the plain facts it reads and returns what happens.

use vstd::prelude::*;

verus! {

/// Position in `targets` of the first catch target after `pc`.
pub open spec fn first_after(targets: Seq<usize>, pc: int, from: int) -> Option<int>
    decreases targets.len() - from,
{
    if from < 0 || from >= targets.len() {
        None
    } else if pc < targets[from] {
        Some(from)
    } else {
        first_after(targets, pc, from + 1)
    }
}

/// The handler a raise at instruction `pc` jumps to: the first catch target
/// of the current code, in their stored (ascending) order, that lies after
/// `pc`; `None` when there is none and the frame must be left.
pub open spec fn spec_next_handler(targets: Seq<usize>, pc: int) -> Option<usize> {
    match first_after(targets, pc, 0) {
        Some(i) => Some(targets[i]),
        None => None,
    }
}

pub fn next_handler(targets: &[usize], pc: usize) -> (r: Option<usize>)
    ensures
        r == spec_next_handler(targets@, pc as int),
{
    let mut i: usize = 0;
    while i < targets.len()
        invariant
            i <= targets.len(),
            first_after(targets@, pc as int, 0) == first_after(targets@, pc as int, i as int),
        decreases targets.len() - i,
    {
        if pc < targets[i] {
            return Some(targets[i]);
        }
        i += 1;
    }
    None
}

/// How many entries of `s` equal `x`.
pub open spec fn count_of(s: Seq<usize>, x: usize) -> nat
    decreases s.len(),
{
    if s.len() == 0 {
        0
    } else {
        count_of(s.drop_last(), x) + if s.last() == x {
            1nat
        } else {
            0nat
        }
    }
}

/// The catch targets of a piece of code, as instruction indices: for each
/// instruction `i` from `from` on, in order, `i` once for every handler
/// whose target byte offset is the offset of instruction `i`.
pub open spec fn targets_from(op_pos: Seq<usize>, handlers: Seq<usize>, from: int) -> Seq<usize>
    decreases op_pos.len() - from,
{
    if from < 0 || from >= op_pos.len() {
        Seq::empty()
    } else {
        Seq::new(count_of(handlers, op_pos[from]), |j: int| from as usize) + targets_from(
            op_pos,
            handlers,
            from + 1,
        )
    }
}

fn count_in(s: &[usize], x: usize) -> (r: usize)
    ensures
        r == count_of(s@, x),
{
    let mut n: usize = 0;
    let mut i: usize = 0;
    while i < s.len()
        invariant
            i <= s.len(),
            n == count_of(s@.take(i as int), x),
            n <= i,
        decreases s.len() - i,
    {
        assert(s@.take(i + 1).drop_last() =~= s@.take(i as int));
        if s[i] == x {
            n += 1;
        }
        i += 1;
    }
    assert(s@.take(s.len() as int) =~= s@);
    n
}

/// The catch-target table of loaded code: the index of the instruction each
/// catch handler's byte offset names, in ascending order. `op_pos` holds the
/// byte offset of each instruction (strictly increasing) and every handler
/// must name one of them.
pub fn catch_targets(op_pos: &[usize], handlers: &[usize]) -> (r: Vec<usize>)
    requires
        forall|a: int, b: int| 0 <= a < b < op_pos.len() ==> op_pos[a] < op_pos[b],
        forall|h: int| 0 <= h < handlers.len() ==> exists|i: int| 0 <= i < op_pos.len() && #[trigger] op_pos[i] == #[trigger] handlers[h],
    ensures
        r@ == targets_from(op_pos@, handlers@, 0),
        forall|a: int, b: int| 0 <= a <= b < r.len() ==> r[a] <= r[b],
{
    let mut out: Vec<usize> = Vec::new();
    let mut i: usize = 0;
    while i < op_pos.len()
        invariant
            i <= op_pos.len(),
            out@ + targets_from(op_pos@, handlers@, i as int) == targets_from(op_pos@, handlers@, 0),
            forall|a: int, b: int| 0 <= a <= b < out.len() ==> out[a] <= out[b],
            forall|a: int| 0 <= a < out.len() ==> out[a] < i,
        decreases op_pos.len() - i,
    {
        let c = count_in(handlers, op_pos[i]);
        let ghost before = out@;
        let mut k: usize = 0;
        while k < c
            invariant
                k <= c,
                i < op_pos.len(),
                out@ == before + Seq::new(k as nat, |j: int| i),
                forall|a: int, b: int| 0 <= a <= b < before.len() ==> before[a] <= before[b],
                forall|a: int| 0 <= a < before.len() ==> before[a] < i,
                forall|a: int, b: int| 0 <= a <= b < out.len() ==> out[a] <= out[b],
                forall|a: int| 0 <= a < out.len() ==> out[a] <= i,
            decreases c - k,
        {
            out.push(i);
            k += 1;
            assert(out@ =~= before + Seq::new(k as nat, |j: int| i));
        }
        proof {
            let blk = Seq::new(count_of(handlers@, op_pos@[i as int]), |j: int| i);
            assert(out@ == before + blk);
            assert(targets_from(op_pos@, handlers@, i as int) == blk + targets_from(
                op_pos@,
                handlers@,
                i + 1,
            ));
            assert(before + (blk + targets_from(op_pos@, handlers@, i + 1)) =~= out@
                + targets_from(op_pos@, handlers@, i + 1));
        }
        i += 1;
    }
    assert(out@ + targets_from(op_pos@, handlers@, op_pos.len() as int) =~= out@);
    out
}

/// What the pending exception is, as far as unwinding cares.
#[derive(Debug, Clone, Copy, PartialEq, Eq, Structural)]
pub enum Pending {
    /// A `break` out of a block.
    Break,
    /// A `return` from a block, to the method whose code has this id.
    BlockReturn(u64),
    /// Any other exception.
    Other,
}

/// The first step of unwinding a pending exception in the current frame.
#[derive(Debug, Clone, Copy, PartialEq, Eq, Structural)]
pub enum UnwindAction {
    /// Jump to the rescue handler at this instruction.
    Rescue(usize),
    /// A block `return` reached the code of its method: return from it.
    ReturnFromMethod,
    /// Leave the current frame and go on unwinding in the caller.
    PopFrame,
}

pub open spec fn spec_unwind_step(
    targets: Seq<usize>,
    pc: int,
    pending: Pending,
    current_irep: u64,
) -> UnwindAction {
    match spec_next_handler(targets, pc) {
        Some(p) => UnwindAction::Rescue(p),
        None => match pending {
            Pending::BlockReturn(id) => if id == current_irep {
                UnwindAction::ReturnFromMethod
            } else {
                UnwindAction::PopFrame
            },
            _ => UnwindAction::PopFrame,
        },
    }
}

/// What the main loop does with a pending exception at instruction `pc` of
/// the code with id `current_irep` whose catch targets are `targets`.
pub fn unwind_step(targets: &[usize], pc: usize, pending: Pending, current_irep: u64) -> (r: UnwindAction)
    ensures
        r == spec_unwind_step(targets@, pc as int, pending, current_irep),
{
    match next_handler(targets, pc) {
        Some(p) => UnwindAction::Rescue(p),
        None => match pending {
            Pending::BlockReturn(id) => if id == current_irep {
                UnwindAction::ReturnFromMethod
            } else {
                UnwindAction::PopFrame
            },
            _ => UnwindAction::PopFrame,
        },
    }
}

/// What happens after a frame was popped while unwinding.
#[derive(Debug, Clone, Copy, PartialEq, Eq, Structural)]
pub struct AfterPop {
    /// The register the `break` value is written to (the exception is then
    /// cleared and execution resumes), or `None` to keep unwinding.
    pub deliver_to: Option<usize>,
    /// Whether the main loop stops here.
    pub stop: bool,
}

pub open spec fn spec_after_pop(
    popped: bool,
    pending: Pending,
    landing: Option<(u64, usize)>,
    landing_frame_live: bool,
    preempted: bool,
) -> AfterPop {
    if !popped {
        AfterPop { deliver_to: None, stop: true }
    } else {
        let deliver = match landing {
            Some((_, reg)) => if pending == Pending::Break && !landing_frame_live {
                Some(reg)
            } else {
                None
            },
            None => None,
        };
        AfterPop { deliver_to: deliver, stop: preempted }
    }
}

/// After popping a frame (`popped` is false when there was no frame left):
/// a `break` whose landing send (id and result register in `landing`) has
/// just lost its frame delivers its value there; the loop stops when no
/// frame could be popped or the VM was preempted.
pub fn after_pop(
    popped: bool,
    pending: Pending,
    landing: Option<(u64, usize)>,
    landing_frame_live: bool,
    preempted: bool,
) -> (r: AfterPop)
    ensures
        r == spec_after_pop(popped, pending, landing, landing_frame_live, preempted),
{
    if !popped {
        return AfterPop { deliver_to: None, stop: true };
    }
    let deliver = match landing {
        Some((_, reg)) => if pending == Pending::Break && !landing_frame_live {
            Some(reg)
        } else {
            None
        },
        None => None,
    };
    AfterPop { deliver_to: deliver, stop: preempted }
}

/// One turn of the main loop.
#[derive(Debug, Clone, Copy, PartialEq, Eq, Structural)]
pub enum LoopStep {
    /// Unwind the pending exception.
    Unwind,
    /// The code is finished.
    Finish,
    /// Run the instruction at `at`; the program counter becomes `next`.
    Execute { at: usize, next: usize },
}

pub open spec fn spec_loop_step(rescued: bool, pending: bool, pc: int, code_len: int) -> LoopStep {
    if !rescued && pending {
        LoopStep::Unwind
    } else if pc >= code_len {
        LoopStep::Finish
    } else {
        LoopStep::Execute { at: pc as usize, next: (pc + 1) as usize }
    }
}

/// The main loop's choice: a pending exception is unwound unless the last
/// step just jumped to its rescue handler; otherwise the instruction at `pc`
/// runs, until `pc` runs off the end of the code.
pub fn loop_step(rescued: bool, pending: bool, pc: usize, code_len: usize) -> (r: LoopStep)
    ensures
        r == spec_loop_step(rescued, pending, pc as int, code_len as int),
{
    if !rescued && pending {
        LoopStep::Unwind
    } else if pc >= code_len {
        LoopStep::Finish
    } else {
        LoopStep::Execute { at: pc, next: pc + 1 }
    }
}

/// A rescue handler always lies after the raising instruction, and every
/// catch target passed over lies at or before it.
pub proof fn law_handler_after_raise(targets: Seq<usize>, pc: int)
    ensures
        spec_next_handler(targets, pc) matches Some(p) ==> pc < p,
        spec_next_handler(targets, pc) matches Some(p) ==> exists|i: int|
            0 <= i < targets.len() && targets[i] == p && forall|j: int| 0 <= j < i ==> targets[j] <= pc,
        spec_next_handler(targets, pc) is None ==> forall|j: int| 0 <= j < targets.len() ==> targets[j] <= pc,
{
    lemma_first_after(targets, pc, 0);
}

proof fn lemma_first_after(targets: Seq<usize>, pc: int, from: int)
    requires
        0 <= from,
    ensures
        first_after(targets, pc, from) matches Some(i) ==> from <= i < targets.len() && pc < targets[i]
            && forall|j: int| from <= j < i ==> targets[j] <= pc,
        first_after(targets, pc, from) is None ==> forall|j: int| from <= j < targets.len() ==> targets[j] <= pc,
    decreases targets.len() - from,
{
    if from < targets.len() && !(pc < targets[from]) {
        lemma_first_after(targets, pc, from + 1);
    }
}

} // verus!
