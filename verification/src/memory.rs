//! Byte-level kernels of SharedMemory: little-endian reads of 1, 2, 4 or 8
//! bytes, and the spans that `[]` and `[]=` take from a Range.

use vstd::prelude::*;

use crate::error::{Error, is_runtime_error, runtime_error};

verus! {

/// The unsigned little-endian number in `mem[offset..offset + size]`.
pub open spec fn le_value(mem: Seq<u8>, offset: int, size: nat) -> nat
    decreases size,
{
    if size == 0 {
        0
    } else {
        le_value(mem, offset, (size - 1) as nat) + mem[offset + size - 1] as nat * pow256(
            (size - 1) as nat,
        )
    }
}

pub open spec fn pow256(k: nat) -> nat
    decreases k,
{
    if k == 0 {
        1
    } else {
        256 * pow256((k - 1) as nat)
    }
}

proof fn lemma_le_bound(mem: Seq<u8>, offset: int, size: nat)
    ensures
        le_value(mem, offset, size) < pow256(size),
    decreases size,
{
    if size > 0 {
        lemma_le_bound(mem, offset, (size - 1) as nat);
        let p = pow256((size - 1) as nat);
        let b = mem[offset + size - 1] as nat;
        assert(b * p <= 255 * p) by (nonlinear_arith)
            requires
                b <= 255,
        ;
    }
}

/// SharedMemory#read_by_size(size, offset): the little-endian integer of
/// 1, 2, 4 or 8 bytes at `offset` (an 8-byte value read as a signed
/// integer); any other size is an error.
pub fn read_by_size(mem: &[u8], size: usize, offset: usize) -> (r: Result<i64, Error>)
    requires
        (size == 1 || size == 2 || size == 4 || size == 8) ==> offset + size <= mem.len(),
    ensures
        size == 1 || size == 2 || size == 4 ==> r == Ok::<i64, Error>(
            le_value(mem@, offset as int, size as nat) as i64,
        ),
        size == 8 ==> r == Ok::<i64, Error>(le_value(mem@, offset as int, 8) as u64 as i64),
        !(size == 1 || size == 2 || size == 4 || size == 8) ==> is_runtime_error(
            r,
            "Invalid size passed"@,
        ),
{
    if !(size == 1 || size == 2 || size == 4 || size == 8) {
        return Err(runtime_error("Invalid size passed"));
    }
    let mut v: u64 = 0;
    let mut scale: u64 = 1;
    let mut k: usize = 0;
    while k < size
        invariant
            size <= 8,
            offset + size <= mem.len(),
            k <= size,
            v as nat == le_value(mem@, offset as int, k as nat),
            k < 8 ==> scale as nat == pow256(k as nat),
            k < 8 ==> scale <= 0x0100_0000_0000_0000,
        decreases size - k,
    {
        proof {
            lemma_le_bound(mem@, offset as int, k as nat);
            let b = mem@[offset + k] as nat;
            assert(v + b * scale < pow256(k as nat) + 255 * pow256(k as nat)) by (nonlinear_arith)
                requires
                    v < pow256(k as nat),
                    b <= 255,
                    scale == pow256(k as nat),
            ;
            assert(pow256((k + 1) as nat) == 256 * pow256(k as nat));
            assert(pow256(8) == 0x1_0000_0000_0000_0000) by {
                reveal_with_fuel(pow256, 9);
            }
            if k + 1 < 8 {
                assert(pow256((k + 1) as nat) <= 0x0100_0000_0000_0000) by {
                    lemma_pow256_mono((k + 1) as nat, 7);
                    assert(pow256(7) == 0x0100_0000_0000_0000) by {
                        reveal_with_fuel(pow256, 8);
                    }
                }
            }
            lemma_pow256_mono((k + 1) as nat, 8);
        }
        v = v + mem[offset + k] as u64 * scale;
        if k + 1 < 8 {
            scale = scale * 256;
        }
        k += 1;
    }
    if size == 8 {
        Ok(v as i64)
    } else {
        proof {
            lemma_le_bound(mem@, offset as int, size as nat);
            lemma_pow256_mono(size as nat, 4);
            assert(pow256(4) == 0x1_0000_0000) by {
                reveal_with_fuel(pow256, 5);
            }
        }
        Ok(v as i64)
    }
}

proof fn lemma_pow256_mono(a: nat, b: nat)
    requires
        a <= b,
    ensures
        pow256(a) <= pow256(b),
    decreases b,
{
    if a < b {
        lemma_pow256_mono(a, (b - 1) as nat);
    }
}

/// The inclusive byte span `[start, last]` of a Range argument: an
/// exclusive range ends one before its end.
pub fn range_span(start: u64, end: u64, exclusive: bool) -> (r: (u64, u64))
    requires
        exclusive ==> end >= 1,
    ensures
        r == (start, if exclusive { (end - 1) as u64 } else { end }),
{
    if exclusive {
        (start, end - 1)
    } else {
        (start, end)
    }
}

/// SharedMemory#[](range): a copy of the bytes `start..=last`.
pub fn index_range(mem: &[u8], start: u64, last: u64) -> (r: Vec<u8>)
    requires
        start <= last < mem.len(),
    ensures
        r@ == mem@.subrange(start as int, last + 1),
{
    let mut out: Vec<u8> = Vec::new();
    let mut i = start as usize;
    while i <= last as usize
        invariant
            start <= i <= last + 1,
            last < mem.len(),
            out@ == mem@.subrange(start as int, i as int),
        decreases last + 1 - i,
    {
        out.push(mem[i]);
        i += 1;
        assert(out@ =~= mem@.subrange(start as int, i as int));
    }
    out
}

/// SharedMemory#[]=(range, data): writes `data` over `start..=last`; the
/// data must be exactly as long as the span.
pub fn set_index_range(mem: &mut Vec<u8>, start: u64, last: u64, data: &[u8]) -> (r: Result<(), Error>)
    requires
        start <= last,
        data.len() == last - start + 1 ==> last < old(mem)@.len(),
    ensures
        data.len() != last - start + 1 ==> is_runtime_error(
            r,
            "Data length must be equal to range length"@,
        ) && final(mem)@ == old(mem)@,
        data.len() == last - start + 1 ==> r is Ok && final(mem)@ == old(mem)@.subrange(
            0,
            start as int,
        ) + data@ + old(mem)@.subrange(last + 1, old(mem)@.len() as int),
{
    let n = data.len() as u64;
    if n == 0 || n - 1 != last - start {
        return Err(runtime_error("Data length must be equal to range length"));
    }
    let mlen = mem.len();
    assert(last < mlen);
    let s = start as usize;
    let mut k: usize = 0;
    while k < data.len()
        invariant
            s == start,
            data.len() == last - start + 1,
            s + data.len() <= mem@.len(),
            mem@.len() == mlen,
            last < old(mem)@.len(),
            mem@.len() == old(mem)@.len(),
            k <= data.len(),
            forall|t: int| 0 <= t < mem@.len() ==> #[trigger] mem@[t] == if s <= t < s + k {
                data@[t - s]
            } else {
                old(mem)@[t]
            },
        decreases data.len() - k,
    {
        mem.set(s + k, data[k]);
        k += 1;
    }
    assert(mem@ =~= old(mem)@.subrange(0, start as int) + data@ + old(mem)@.subrange(
        last + 1,
        old(mem)@.len() as int,
    ));
    Ok(())
}

/// What `[]=` writes over a span, `[]` over the same span reads back, the
/// memory keeps its size, and every byte outside the span keeps its value.
pub proof fn law_read_after_write(before: Seq<u8>, after: Seq<u8>, start: int, last: int, data: Seq<u8>)
    requires
        0 <= start <= last < before.len(),
        data.len() == last - start + 1,
        after == before.subrange(0, start) + data + before.subrange(last + 1, before.len() as int),
    ensures
        after.subrange(start, last + 1) == data,
        after.len() == before.len(),
        forall|t: int| 0 <= t < before.len() && !(start <= t <= last) ==> after[t] == before[t],
{
    assert(after.subrange(start, last + 1) =~= data);
}

} // verus!
