use mrubyedge::dispatch::{
    build_lookup_chain, cache_after, resolve_method, resolve_next_method, resolve_send, CacheEntry,
    ClassInfo, ClassTable, ModuleInfo, SendTarget,
};
use mrubyedge::unwind::{
    after_pop, catch_targets, loop_step, next_handler, unwind_step, LoopStep, Pending, UnwindAction,
};
use mrubyedge::error::Error;
use mrubyedge::interp::{compare_verdict, exec_op, Action, Code, Op, OrdAnswer, PoolEntry, RegVal, StepError};
use mrubyedge::value::send_layout;

const PUTS: u32 = 10;
const LT: u32 = 11;
const PLUS: u32 = 12;
const TO_S: u32 = 13;
const MISSING: u32 = 99;

/// Object (module 0, includes Kernel = module 1) and Integer (module 2,
/// includes Comparable = module 3, which includes Kernel again), plus a
/// singleton class of Integer (module 4) extended with module 5.
fn table() -> ClassTable {
    let m = |methods: Vec<(u32, usize)>, mixins: Vec<usize>| ModuleInfo { methods, mixins };
    ClassTable {
        modules: vec![
            m(vec![(TO_S, 200), (MISSING, 199)], vec![1]),
            m(vec![(PUTS, 100), (TO_S, 201)], vec![]),
            m(vec![(PLUS, 102), (TO_S, 202)], vec![3]),
            m(vec![(LT, 101)], vec![1]),
            m(vec![], vec![]),
            m(vec![(PLUS, 500)], vec![]),
        ],
        classes: vec![
            ClassInfo { module: 0, is_singleton: false, extended: vec![], superclass: None },
            ClassInfo { module: 2, is_singleton: false, extended: vec![], superclass: Some(0) },
            ClassInfo { module: 4, is_singleton: true, extended: vec![5], superclass: Some(1) },
        ],
    }
}

#[test]
fn lookup_chain_lists_each_module_once_in_order() {
    let t = table();
    assert_eq!(build_lookup_chain(&t, 0), vec![0, 1]);
    assert_eq!(build_lookup_chain(&t, 1), vec![2, 3, 1, 0]);
    assert_eq!(build_lookup_chain(&t, 2), vec![4, 5, 2, 3, 1, 0]);
}

#[test]
fn methods_resolve_along_the_chain_and_super_goes_on() {
    let t = table();
    assert_eq!(resolve_method(&t, 1, PLUS), Some((2, 102)));
    assert_eq!(resolve_method(&t, 1, LT), Some((3, 101)));
    assert_eq!(resolve_method(&t, 1, PUTS), Some((1, 100)));
    // Kernel comes before Object in Integer's chain (through Comparable).
    assert_eq!(resolve_method(&t, 1, TO_S), Some((2, 202)));
    assert_eq!(resolve_method(&t, 2, PLUS), Some((5, 500)));
    assert_eq!(resolve_method(&t, 0, PLUS), None);
    assert_eq!(resolve_next_method(&t, 1, TO_S, 2), Some((1, 201)));
    assert_eq!(resolve_next_method(&t, 1, TO_S, 1), Some((0, 200)));
    assert_eq!(resolve_next_method(&t, 1, TO_S, 0), None);
    assert_eq!(resolve_next_method(&t, 0, TO_S, 4), None);
}

#[test]
fn sends_use_the_cache_or_fall_back_to_method_missing() {
    let t = table();
    let l = send_layout(1, 0x02);
    let first = resolve_send(&t, 1, PLUS, MISSING, l, false, None, 7);
    assert_eq!(first.target, SendTarget::Found { owner: 2, method: 102 });
    assert!(!first.fast_path);
    let slot = cache_after(first, None, 1, 7);
    assert_eq!(slot, Some(CacheEntry { version: 7, class: 1, owner: 2, method: 102 }));
    let again = resolve_send(&t, 1, PLUS, MISSING, l, false, slot, 7);
    assert_eq!(again.target, SendTarget::Cached { owner: 2, method: 102 });
    assert!(again.fast_path);
    // A redefinition bumps the version: the stale entry is not used, but
    // the filled slot still lets the fast path be tried.
    let stale = resolve_send(&t, 1, PLUS, MISSING, l, false, slot, 8);
    assert_eq!(stale.target, SendTarget::Found { owner: 2, method: 102 });
    assert!(stale.fast_path);
    assert!(!resolve_send(&t, 1, PLUS, MISSING, l, true, slot, 7).fast_path);
    let mm = resolve_send(&t, 1, 77, MISSING, l, false, None, 7);
    assert_eq!(mm.target, SendTarget::MethodMissing { owner: 0, method: 199, n: 3 });
    assert_eq!(cache_after(mm, None, 1, 7), None);
    let none = ClassTable { modules: vec![ModuleInfo { methods: vec![], mixins: vec![] }], classes: vec![ClassInfo { module: 0, is_singleton: false, extended: vec![], superclass: None }] };
    assert_eq!(resolve_send(&none, 0, 77, MISSING, l, false, None, 0).target, SendTarget::NoMethodMissing);
}

#[test]
fn exceptions_unwind_to_the_next_handler_or_pop_the_frame() {
    // Instructions at byte offsets 0, 2, 5, 9, 12; handlers target 9 and 5.
    let targets = catch_targets(&[0, 2, 5, 9, 12], &[9, 5]);
    assert_eq!(targets, vec![2, 3]);
    assert_eq!(next_handler(&targets, 1), Some(2));
    assert_eq!(next_handler(&targets, 2), Some(3));
    assert_eq!(next_handler(&targets, 3), None);
    assert_eq!(unwind_step(&targets, 0, Pending::Other, 5), UnwindAction::Rescue(2));
    assert_eq!(unwind_step(&targets, 4, Pending::BlockReturn(5), 5), UnwindAction::ReturnFromMethod);
    assert_eq!(unwind_step(&targets, 4, Pending::BlockReturn(6), 5), UnwindAction::PopFrame);
    assert_eq!(unwind_step(&targets, 4, Pending::Break, 5), UnwindAction::PopFrame);
    let landed = after_pop(true, Pending::Break, Some((42, 3)), false, false);
    assert_eq!((landed.deliver_to, landed.stop), (Some(3), false));
    let pending = after_pop(true, Pending::Break, Some((42, 3)), true, false);
    assert_eq!((pending.deliver_to, pending.stop), (None, false));
    assert!(after_pop(false, Pending::Other, None, false, false).stop);
    assert!(after_pop(true, Pending::Other, None, false, true).stop);
    assert_eq!(loop_step(false, true, 3, 10), LoopStep::Unwind);
    assert_eq!(loop_step(true, true, 3, 10), LoopStep::Execute { at: 3, next: 4 });
    assert_eq!(loop_step(false, false, 10, 10), LoopStep::Finish);
}

/// Runs `code` from instruction 0 until it runs off the end, applying each
/// step's register write; returns the registers.
fn run(code: &Code, mut regs: Vec<Option<RegVal>>) -> Result<Vec<Option<RegVal>>, StepError> {
    let mut pc = 0;
    let mut steps = 0;
    while pc < code.ops.len() && steps < 1000 {
        let (next, action, write) = exec_op(code, &regs, pc)?;
        assert_eq!(action, Action::Next);
        if let Some((a, v)) = write {
            regs[a as usize] = Some(v);
        }
        pc = next;
        steps += 1;
    }
    Ok(regs)
}

fn code(ops: Vec<Op>, lens: Vec<usize>) -> Code {
    let mut pos = Vec::new();
    let mut at = 0;
    for l in &lens {
        pos.push(at);
        at += l;
    }
    Code { ops, pos, len: lens, syms: vec![40, 41], pool: vec![PoolEntry::Int(1 << 40), PoolEntry::Heap, PoolEntry::Data] }
}

#[test]
fn a_counting_loop_runs_on_the_integer_fast_paths() {
    // r1 = 0; r2 = 3; loop: r1 += 2; r2 -= 1; r3 = r2; r4 = 0; r3 = (r3 > r4); jmpif r3 back
    let c = code(
        vec![
            Op::LoadI(1, 0),
            Op::LoadI(2, 3),
            Op::AddI(1, 2),
            Op::SubI(2, 1),
            Op::Move(3, 2),
            Op::LoadIN(4, 0),
            Op::Gt(3),
            Op::JmpIf(3, -17),
            Op::LoadSym(5, 1),
            Op::LoadSelf(6),
        ],
        vec![3, 3, 3, 3, 3, 2, 2, 4, 3, 2],
    );
    let mut regs = vec![None; 300];
    regs[0] = Some(RegVal::Obj(9));
    let out = run(&c, regs).unwrap();
    assert_eq!(out[1], Some(RegVal::Int(6)));
    assert_eq!(out[2], Some(RegVal::Int(0)));
    assert_eq!(out[3], Some(RegVal::Bool(false)));
    assert_eq!(out[5], Some(RegVal::Sym(41)));
    assert_eq!(out[6], Some(RegVal::Obj(9)));
}

#[test]
fn arithmetic_and_equality_fast_paths_or_delegate() {
    let c = code(vec![Op::Add(1), Op::Div(1), Op::Eq(1), Op::Lt(1), Op::Mul(1), Op::JmpNil(1, 0), Op::Move(2, 9)], vec![2; 7]);
    let mut regs = vec![None; 300];
    regs[1] = Some(RegVal::Int(-7));
    regs[2] = Some(RegVal::Int(2));
    assert_eq!(exec_op(&c, &regs, 0), Ok((1, Action::Next, Some((1, RegVal::Int(-5))))));
    assert_eq!(exec_op(&c, &regs, 1), Ok((2, Action::Next, Some((1, RegVal::Int(-3))))));
    assert_eq!(exec_op(&c, &regs, 2), Ok((3, Action::Next, Some((1, RegVal::Bool(false))))));
    assert_eq!(exec_op(&c, &regs, 3), Ok((4, Action::Next, Some((1, RegVal::Bool(true))))));
    regs[2] = Some(RegVal::Obj(1));
    assert_eq!(exec_op(&c, &regs, 4), Ok((5, Action::Delegate, None)));
    regs[1] = Some(RegVal::Nil);
    regs[2] = Some(RegVal::Nil);
    assert_eq!(exec_op(&c, &regs, 2), Ok((3, Action::Next, Some((1, RegVal::Bool(true))))));
    assert_eq!(exec_op(&c, &regs, 5), Ok((6, Action::Next, None)));
    assert_eq!(exec_op(&c, &regs, 6), Err(StepError::Unassigned(9)));
    assert_eq!(compare_verdict(Op::Le(1), OrdAnswer::Int(0)), Ok(true));
    assert_eq!(compare_verdict(Op::Gt(1), OrdAnswer::Int(-1)), Ok(false));
    assert_eq!(compare_verdict(Op::Lt(1), OrdAnswer::Nil), Err(Error::ArgumentError("comparison failed".to_string())));
    assert_eq!(compare_verdict(Op::Lt(1), OrdAnswer::Other), Err(Error::ArgumentError("bad <=> result".to_string())));
}

#[test]
fn pool_loads_integers_and_hands_heap_values_back() {
    let c = code(vec![Op::LoadL(1, 0), Op::LoadL(1, 1), Op::LoadL(1, 2)], vec![3; 3]);
    let regs = vec![None; 300];
    assert_eq!(exec_op(&c, &regs, 0), Ok((1, Action::Next, Some((1, RegVal::Int(1 << 40))))));
    assert_eq!(exec_op(&c, &regs, 1), Ok((2, Action::Delegate, None)));
    assert_eq!(exec_op(&c, &regs, 2), Err(StepError::DataInPool));
}
