use mrubyedge::value::{argary_plan, enter_plan, ArgAryPlan};
use mrubyedge::value::{kwarg_key_index, send_layout};
use mrubyedge::error::Error;
use mrubyedge::memory::{index_range, range_span, read_by_size, set_index_range};
use mrubyedge::value::EnterArgInfo;

#[test]
fn test_mrb_shared_memory_read_by_size() {
    let mut mem = vec![0u8; 10];
    assert_eq!(read_by_size(&mem, 1, 0).unwrap(), 0);
    set_index_range(&mut mem, 0, 6, &[1, 2, 3, 4, 5, 6, 7]).unwrap();
    assert_eq!(read_by_size(&mem, 1, 0).unwrap(), 1);
    assert_eq!(read_by_size(&mem, 2, 1).unwrap(), 770);
    assert_eq!(read_by_size(&mem, 4, 3).unwrap(), 117835012);
}

#[test]
fn test_mrb_shared_memory_new() {
    let mem = vec![0u8; 10];
    assert_eq!(mem.len(), 10);
    assert_eq!(index_range(&mem, 0, 9).len(), 10);
}

#[test]
fn wide_reads_and_errors() {
    let mem = [0xffu8; 8];
    assert_eq!(read_by_size(&mem, 8, 0).unwrap(), -1);
    assert_eq!(read_by_size(&mem, 4, 4).unwrap(), 0xffff_ffff);
    assert_eq!(read_by_size(&mem, 3, 0), Err(Error::RuntimeError("Invalid size passed".to_string())));
}

#[test]
fn ranges_of_bytes() {
    let mut mem: Vec<u8> = (0..8).collect();
    let (s, e) = range_span(2, 5, true);
    assert_eq!((s, e), (2, 4));
    assert_eq!(index_range(&mem, s, e), vec![2, 3, 4]);
    assert_eq!(
        set_index_range(&mut mem, 2, 4, &[9, 9]),
        Err(Error::RuntimeError("Data length must be equal to range length".to_string()))
    );
    set_index_range(&mut mem, 2, 4, &[9, 8, 7]).unwrap();
    assert_eq!(mem, vec![0, 1, 9, 8, 7, 5, 6, 7]);
}

#[test]
fn enter_operand_fields() {
    // m1=2, o=1, r=1, m2=0, k=3, d=1, b=1, n1=1
    let val: u32 = (1 << 23) | (2 << 18) | (1 << 13) | (1 << 12) | (3 << 2) | (1 << 1) | 1;
    let a = EnterArgInfo::from(val);
    assert_eq!((a.n1, a.m1, a.o, a.r, a.m2, a.k, a.d, a.b), (1, 2, 1, 1, 0, 3, 1, 1));
    assert_eq!(a.block_len(), 4);
    assert_eq!(EnterArgInfo::from_aspec(0), EnterArgInfo { n1: 0, m1: 0, o: 0, r: 0, m2: 0, k: 0, d: 0, b: 0 });
}

#[test]
fn send_operand_registers() {
    let l = send_layout(3, 0x21);
    assert_eq!((l.n, l.k, l.block_index), (1, 2, 3 + 1 + 4 + 1));
    assert_eq!(kwarg_key_index(3, &l, 0), 5);
    assert_eq!(kwarg_key_index(3, &l, 1), 7);
}

#[test]
fn enter_checks_and_plan() {
    // def f(a, b = 1, *rest, &blk): m1 = 1, o = 1, r = 1, b = 1
    let aspec: u32 = (1 << 18) | (1 << 13) | (1 << 12) | 1;
    let p = enter_plan(aspec, 4, true, &[true]).unwrap();
    assert_eq!(p.skip_jumps, 3);
    assert!(p.pack_rest);
    assert_eq!(p.rest_count, 3);
    assert_eq!(p.kwrest_pos, 0);
    assert!(!p.push_kargs);
    assert_eq!(p.block_slot, 4);
    assert_eq!(
        enter_plan(aspec, 0, false, &[false]),
        Err(Error::ArgumentError("argument 1 not passed".to_string()))
    );
    let no_block: u32 = 1 << 23;
    assert_eq!(
        enter_plan(no_block, 0, true, &[]),
        Err(Error::ArgumentError("no block accepted".to_string()))
    );
    // def g(**opts): d = 1
    let kw = enter_plan(1 << 1, 0, false, &[]).unwrap();
    assert_eq!(kw.kwrest_pos, 1);
    assert!(kw.push_kargs);
}

#[test]
fn argary_operand_lays_out_the_zsuper_arguments() {
    // def m(a, b, *r, c): m1 = 2, rest, m2 = 1, depth 0.
    let s: u16 = (2 << 11) | (1 << 10) | (1 << 5);
    assert_eq!(
        argary_plan(s),
        Some(ArgAryPlan { m1: 2, rest: true, m2: 1, rest_reg: 3, post_first: 4, block_reg: 5 })
    );
    // def m(a): no rest, no post arguments.
    assert_eq!(
        argary_plan(1 << 11),
        Some(ArgAryPlan { m1: 1, rest: false, m2: 0, rest_reg: 2, post_first: 2, block_reg: 2 })
    );
    // From inside a nested block (depth 1) the operand is refused.
    assert_eq!(argary_plan((1 << 11) | 1), None);
}

#[test]
fn read_after_write_gives_back_the_data() {
    let mut mem: Vec<u8> = vec![0xAA; 16];
    let data = [1u8, 2, 3, 4];
    set_index_range(&mut mem, 5, 8, &data).unwrap();
    assert_eq!(index_range(&mem, 5, 8), data.to_vec());
    assert_eq!(read_by_size(&mem, 4, 5).unwrap(), 0x0403_0201);
    assert_eq!(mem.len(), 16);
    assert!(mem[..5].iter().chain(mem[9..].iter()).all(|b| *b == 0xAA));
}
