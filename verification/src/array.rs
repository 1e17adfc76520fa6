//! Layout kernels of the Array methods. Each computes, from lengths and
//! integer arguments, which element goes where in the result: `Pick::Item`
//! names an element of the receiver (list 0) or of the k-th argument list
//! (list k), `Pick::Nil` a nil. The caller copies the named values.

use vstd::prelude::*;

use crate::error::{Error, argument_error, is_argument_error};

verus! {

/// Where one slot of a result comes from.
#[derive(Debug, Clone, Copy, PartialEq, Eq, Structural)]
pub enum Pick {
    /// Element `index` of list `list` (0: the receiver; k: the k-th
    /// argument).
    Item(usize, usize),
    /// A nil.
    Nil,
}

/// The receiver's elements `from..to`, in order.
pub open spec fn span(from: int, to: int) -> Seq<Pick> {
    Seq::new((to - from) as nat, |j: int| Pick::Item(0, (from + j) as usize))
}

fn push_span(out: &mut Vec<Pick>, from: usize, to: usize)
    requires
        from <= to,
    ensures
        final(out)@ == old(out)@ + span(from as int, to as int),
{
    let mut i = from;
    while i < to
        invariant
            from <= i <= to,
            out@ == old(out)@ + span(from as int, i as int),
        decreases to - i,
    {
        out.push(Pick::Item(0, i));
        i += 1;
        assert(span(from as int, i as int) =~= span(from as int, i - 1).push(Pick::Item(0, (i - 1) as usize)));
    }
}

/// Array#first(n), Array#take(n): the first `min(n, len)` elements; a
/// negative `n` is an error.
pub fn take_plan(len: usize, n: i64) -> (r: Result<Vec<Pick>, Error>)
    ensures
        n < 0 ==> is_argument_error(r, "negative array size"@),
        n >= 0 ==> r is Ok && r->Ok_0@ == span(0, if n < len { n as int } else { len as int }),
{
    if n < 0 {
        return Err(argument_error("negative array size"));
    }
    let m: usize = if (n as u64) < (len as u64) {
        n as usize
    } else {
        len
    };
    let mut out: Vec<Pick> = Vec::new();
    push_span(&mut out, 0, m);
    Ok(out)
}

/// Array#last(n): the last `min(n, len)` elements in order; a negative `n`
/// is an error.
pub fn last_plan(len: usize, n: i64) -> (r: Result<Vec<Pick>, Error>)
    ensures
        n < 0 ==> is_argument_error(r, "negative array size"@),
        n >= 0 ==> r is Ok && r->Ok_0@ == span(
            if n < len { len - n } else { 0 },
            len as int,
        ),
{
    if n < 0 {
        return Err(argument_error("negative array size"));
    }
    let skip: usize = if (n as u64) < (len as u64) {
        len - n as usize
    } else {
        0
    };
    let mut out: Vec<Pick> = Vec::new();
    push_span(&mut out, skip, len);
    Ok(out)
}

/// Array#drop(n): all but the first `min(n, len)` elements; a negative `n`
/// is an error.
pub fn drop_plan(len: usize, n: i64) -> (r: Result<Vec<Pick>, Error>)
    ensures
        n < 0 ==> is_argument_error(r, "negative array size"@),
        n >= 0 ==> r is Ok && r->Ok_0@ == span(
            if n < len { n as int } else { len as int },
            len as int,
        ),
{
    if n < 0 {
        return Err(argument_error("negative array size"));
    }
    let skip: usize = if (n as u64) < (len as u64) {
        n as usize
    } else {
        len
    };
    let mut out: Vec<Pick> = Vec::new();
    push_span(&mut out, skip, len);
    Ok(out)
}

/// The receiver's elements from last to first.
pub open spec fn reversed(len: int) -> Seq<Pick> {
    Seq::new(len as nat, |j: int| Pick::Item(0, (len - 1 - j) as usize))
}

/// Array#reverse.
pub fn reverse_plan(len: usize) -> (r: Vec<Pick>)
    ensures
        r@ == reversed(len as int),
{
    let mut out: Vec<Pick> = Vec::new();
    let mut i = len;
    while i > 0
        invariant
            i <= len,
            out@ == Seq::new((len - i) as nat, |j: int| Pick::Item(0, (len - 1 - j) as usize)),
        decreases i,
    {
        i -= 1;
        out.push(Pick::Item(0, i));
        assert(Seq::new((len - i) as nat, |j: int| Pick::Item(0, (len - 1 - j) as usize)) =~= Seq::new(
            (len - i - 1) as nat,
            |j: int| Pick::Item(0, (len - 1 - j) as usize),
        ).push(Pick::Item(0, i)));
    }
    out
}

/// The shift of Array#rotate(n) over `len > 0` elements: `n` modulo `len`,
/// taken in `0..len`.
pub open spec fn rotate_shift(len: int, n: int) -> int {
    n % len
}

/// Array#rotate(n): the elements from position `n mod len` on, then the
/// ones before it.
pub fn rotate_plan(len: usize, n: i64) -> (r: Vec<Pick>)
    requires
        len <= i64::MAX,
    ensures
        len == 0 ==> r@.len() == 0,
        len > 0 ==> r@ == span(rotate_shift(len as int, n as int), len as int) + span(
            0,
            rotate_shift(len as int, n as int),
        ),
{
    let mut out: Vec<Pick> = Vec::new();
    if len == 0 {
        return out;
    }
    let k = crate::value::rubylike_mod_i64(n, len as i64) as usize;
    push_span(&mut out, k, len);
    push_span(&mut out, 0, k);
    out
}

/// Array#values_at: for each index (negatives count from the end) the
/// element there, or nil outside the array.
pub open spec fn value_at(len: int, i: int) -> Pick {
    let j = if i < 0 {
        i + len
    } else {
        i
    };
    if 0 <= j < len {
        Pick::Item(0, j as usize)
    } else {
        Pick::Nil
    }
}

/// Array#[] with one integer index (the OP_GETIDX fast path): the element
/// there, counting negative indices from the end, or nil outside the array.
pub fn index_pick(len: usize, i: i64) -> (r: Pick)
    requires
        len <= i64::MAX,
    ensures
        r == value_at(len as int, i as int),
{
    let j: i64 = if i < 0 {
        i + len as i64
    } else {
        i
    };
    if 0 <= j && (j as u64) < (len as u64) {
        Pick::Item(0, j as usize)
    } else {
        Pick::Nil
    }
}

pub fn values_at_plan(len: usize, idx: &[i64]) -> (r: Vec<Pick>)
    requires
        len <= i64::MAX,
    ensures
        r@.len() == idx@.len(),
        forall|t: int| 0 <= t < idx@.len() ==> r@[t] == value_at(len as int, idx@[t] as int),
{
    let mut out: Vec<Pick> = Vec::new();
    let mut t: usize = 0;
    while t < idx.len()
        invariant
            len <= i64::MAX,
            t <= idx.len(),
            out@.len() == t,
            forall|u: int| 0 <= u < t ==> out@[u] == value_at(len as int, idx@[u] as int),
        decreases idx.len() - t,
    {
        out.push(index_pick(len, idx[t]));
        t += 1;
    }
    out
}

/// Array#insert(idx, *items): the receiver, padded with nils up to `idx`,
/// with `count` items (list 1) inserted before position `idx`; a negative
/// `idx` counts from the end, -1 appending.
pub open spec fn insert_layout(len: int, at: int, count: int) -> Seq<Pick> {
    let base = span(0, len) + Seq::new(
        (if at > len {
            at - len
        } else {
            0
        }) as nat,
        |_j: int| Pick::Nil,
    );
    base.take(at) + Seq::new(count as nat, |j: int| Pick::Item(1, j as usize)) + base.skip(at)
}

/// The insert position for `idx` over `len` elements, or `None` when it
/// falls before the start.
pub open spec fn insert_position(len: int, idx: int) -> Option<int> {
    let at = if idx < 0 {
        idx + len + 1
    } else {
        idx
    };
    if at < 0 {
        None
    } else {
        Some(at)
    }
}

pub fn insert_plan(len: usize, idx: i64, count: usize) -> (r: Result<Vec<Pick>, Error>)
    requires
        len < i64::MAX,
        insert_position(len as int, idx as int) is Some ==> insert_position(len as int, idx as int).unwrap() + count <= usize::MAX,
    ensures
        insert_position(len as int, idx as int) is None ==> is_argument_error(r, "insert index too small"@),
        insert_position(len as int, idx as int) matches Some(at) ==> r is Ok && r->Ok_0@ == insert_layout(
            len as int,
            at,
            count as int,
        ),
{
    let mut at = idx;
    if at < 0 {
        at = at + len as i64 + 1;
        if at < 0 {
            return Err(argument_error("insert index too small"));
        }
    }
    let at = at as usize;
    let ghost total = if at > len { at as int } else { len as int };
    let ghost base = span(0, len as int) + Seq::new(
        (if at > len { at - len } else { 0 }) as nat,
        |_j: int| Pick::Nil,
    );
    let mut out: Vec<Pick> = Vec::new();
    let head_end = if at < len {
        at
    } else {
        len
    };
    push_span(&mut out, 0, head_end);
    while out.len() < at
        invariant
            head_end <= out.len() <= at,
            head_end == (if at < len { at } else { len }),
            out@ == base.take(out.len() as int),
            base == span(0, len as int) + Seq::new(
                (if at > len { at - len } else { 0 }) as nat,
                |_j: int| Pick::Nil,
            ),
        decreases at - out.len(),
    {
        let ghost before = out@;
        out.push(Pick::Nil);
        assert(out@ =~= base.take(out.len() as int));
    }
    let mut k: usize = 0;
    while k < count
        invariant
            k <= count,
            out@ == base.take(at as int) + Seq::new(k as nat, |j: int| Pick::Item(1, j as usize)),
            at + count <= usize::MAX,
        decreases count - k,
    {
        out.push(Pick::Item(1, k));
        k += 1;
        assert(Seq::new(k as nat, |j: int| Pick::Item(1, j as usize)) =~= Seq::new(
            (k - 1) as nat,
            |j: int| Pick::Item(1, j as usize),
        ).push(Pick::Item(1, (k - 1) as usize)));
    }
    let ghost mid = out@;
    push_span(&mut out, head_end, len);
    proof {
        if at < len {
            assert(span(head_end as int, len as int) =~= base.skip(at as int));
        } else {
            assert(base.skip(at as int) =~= Seq::<Pick>::empty());
            assert(span(len as int, len as int) =~= Seq::<Pick>::empty());
        }
        assert(out@ =~= insert_layout(len as int, at as int, count as int));
    }
    Ok(out)
}

/// Row `i` of Array#zip: the receiver's element `i`, then element `i` of
/// each argument list, or nil where that list is too short.
pub open spec fn zip_row(others: Seq<usize>, i: int) -> Seq<Pick> {
    seq![Pick::Item(0, i as usize)] + Seq::new(
        others.len(),
        |j: int|
            if i < others[j] {
                Pick::Item((j + 1) as usize, i as usize)
            } else {
                Pick::Nil
            },
    )
}

/// Array#zip(*others) over a receiver of `len` elements and argument lists
/// of the given lengths.
pub fn zip_plan(len: usize, others: &[usize]) -> (r: Vec<Vec<Pick>>)
    requires
        others.len() < usize::MAX,
    ensures
        r@.len() == len,
        forall|i: int| 0 <= i < len ==> (#[trigger] r@[i])@ == zip_row(others@, i),
{
    let mut out: Vec<Vec<Pick>> = Vec::new();
    let mut i: usize = 0;
    while i < len
        invariant
            others.len() < usize::MAX,
            i <= len,
            out@.len() == i,
            forall|t: int| 0 <= t < i ==> (#[trigger] out@[t])@ == zip_row(others@, t),
        decreases len - i,
    {
        let mut row: Vec<Pick> = Vec::new();
        row.push(Pick::Item(0, i));
        let mut j: usize = 0;
        while j < others.len()
            invariant
                others.len() < usize::MAX,
                j <= others.len(),
                row@.len() == j + 1,
                row@[0] == Pick::Item(0, i),
                forall|u: int|
                    0 <= u < j ==> row@[u + 1] == (if i < others@[u] {
                        Pick::Item((u + 1) as usize, i)
                    } else {
                        Pick::Nil
                    }),
            decreases others.len() - j,
        {
            row.push(
                if i < others[j] {
                    Pick::Item(j + 1, i)
                } else {
                    Pick::Nil
                },
            );
            j += 1;
        }
        assert(row@ =~= zip_row(others@, i as int));
        out.push(row);
        i += 1;
    }
    out
}

/// Number of rows of the product of lists of the given lengths.
pub open spec fn product_count(lens: Seq<usize>) -> nat
    decreases lens.len(),
{
    if lens.len() == 0 {
        1
    } else {
        (product_count(lens.drop_last()) * lens.last()) as nat
    }
}

/// Array#product: every choice of one element from each list (list 0 the
/// receiver), the last list varying fastest.
pub open spec fn product_rows(lens: Seq<usize>) -> Seq<Seq<Pick>>
    decreases lens.len(),
{
    if lens.len() == 0 {
        seq![Seq::empty()]
    } else {
        let acc = product_rows(lens.drop_last());
        let l = lens.last() as int;
        let j = lens.len() - 1;
        Seq::new(
            (acc.len() * l) as nat,
            |r: int| acc[r / l].push(Pick::Item(j as usize, (r % l) as usize)),
        )
    }
}

proof fn lemma_product_len(lens: Seq<usize>)
    ensures
        product_rows(lens).len() == product_count(lens),
    decreases lens.len(),
{
    if lens.len() > 0 {
        lemma_product_len(lens.drop_last());
    }
}

fn copy_picks(v: &Vec<Pick>) -> (r: Vec<Pick>)
    ensures
        r@ == v@,
{
    let mut r: Vec<Pick> = Vec::new();
    let mut i: usize = 0;
    while i < v.len()
        invariant
            i <= v.len(),
            r@ == v@.take(i as int),
        decreases v.len() - i,
    {
        r.push(v[i]);
        i += 1;
        assert(v@.take(i as int) =~= v@.take(i - 1).push(v@[i - 1]));
    }
    assert(v@.take(v.len() as int) =~= v@);
    r
}

/// Array#product(*others) over lists of the given lengths (the receiver's
/// first).
pub fn product_plan(lens: &[usize]) -> (r: Vec<Vec<Pick>>)
    requires
        forall|k: int| 0 <= k <= lens@.len() ==> product_count(#[trigger] lens@.take(k)) <= usize::MAX,
    ensures
        r@.map_values(|v: Vec<Pick>| v@) == product_rows(lens@),
{
    let mut acc: Vec<Vec<Pick>> = Vec::new();
    acc.push(Vec::new());
    assert(lens@.take(0) =~= Seq::<usize>::empty());
    assert(acc@.map_values(|v: Vec<Pick>| v@) =~= product_rows(lens@.take(0)));
    let mut j: usize = 0;
    while j < lens.len()
        invariant
            j <= lens.len(),
            forall|k: int| 0 <= k <= lens@.len() ==> product_count(#[trigger] lens@.take(k)) <= usize::MAX,
            acc@.map_values(|v: Vec<Pick>| v@) == product_rows(lens@.take(j as int)),
        decreases lens.len() - j,
    {
        let l = lens[j];
        let ghost prev = product_rows(lens@.take(j as int));
        proof {
            assert(lens@.take(j + 1).drop_last() =~= lens@.take(j as int));
            assert(product_count(lens@.take(j + 1)) <= usize::MAX);
            lemma_product_len(lens@.take(j + 1));
            lemma_product_len(lens@.take(j as int));
            assert(acc@.len() == prev.len());
        }
        let mut next: Vec<Vec<Pick>> = Vec::new();
        let mut p: usize = 0;
        while p < acc.len()
            invariant
                l == lens@[j as int],
                0 <= j < lens.len(),
                acc@.map_values(|v: Vec<Pick>| v@) == prev,
                acc@.len() * l <= usize::MAX,
                p <= acc.len(),
                next@.len() == p * l,
                forall|r: int|
                    0 <= r < p * l ==> (#[trigger] next@[r])@ == prev[r / l as int].push(
                        Pick::Item(j, (r % l as int) as usize),
                    ),
            decreases acc.len() - p,
        {
            let mut q: usize = 0;
            while q < l
                invariant
                    l == lens@[j as int],
                    acc@.map_values(|v: Vec<Pick>| v@) == prev,
                    acc@.len() * l <= usize::MAX,
                    p < acc.len(),
                    q <= l,
                    next@.len() == p * l + q,
                    forall|r: int|
                        0 <= r < p * l + q ==> (#[trigger] next@[r])@ == prev[r / l as int].push(
                            Pick::Item(j, (r % l as int) as usize),
                        ),
                decreases l - q,
            {
                let mut row = copy_picks(&acc[p]);
                row.push(Pick::Item(j, q));
                proof {
                    let r = p * l + q;
                    assert(p * l + q < acc@.len() * l) by (nonlinear_arith)
                        requires
                            p < acc@.len(),
                            q < l,
                    ;
                    vstd::arithmetic::div_mod::lemma_fundamental_div_mod_converse(
                        r as int,
                        l as int,
                        p as int,
                        q as int,
                    );
                    assert(prev[p as int] == acc@[p as int]@);
                }
                next.push(row);
                q += 1;
            }
            proof {
                assert((p + 1) * l == p * l + l) by (nonlinear_arith);
            }
            p += 1;
        }
        proof {
            let target = product_rows(lens@.take(j + 1));
            assert(next@.map_values(|v: Vec<Pick>| v@) =~= target);
        }
        acc = next;
        j += 1;
    }
    assert(lens@.take(lens.len() as int) =~= lens@);
    acc
}

/// An endpoint of a Range argument.
#[derive(Debug, Clone, Copy, PartialEq, Eq, Structural)]
pub enum Bound {
    Int(i64),
    Nil,
    /// Anything else.
    Other,
}

/// Where Array#fill starts: an index, a Range (begin, end, exclusive), or
/// a value of another kind.
#[derive(Debug, Clone, Copy, PartialEq, Eq, Structural)]
pub enum FillStart {
    Index(i64),
    Range(Bound, Bound, bool),
    Other,
}

/// A start index: negatives count from the end, and stop at 0.
pub open spec fn fill_begin(len: int, v: int) -> int {
    if v < 0 {
        if v + len < 0 {
            0
        } else {
            v + len
        }
    } else {
        v
    }
}

/// The half-open span `[beg, end)` that a fill start and optional length
/// name over `len` elements (an end below 0 counts as 0), or the error. The
/// caller takes both ends as `usize`.
pub open spec fn spec_fill_span(len: int, start: FillStart, length: Option<i64>) -> Result<
    (int, int),
    Seq<char>,
> {
    match start {
        FillStart::Index(v) => {
            let b = fill_begin(len, v as int);
            let e = match length {
                Some(n) => b + n,
                None => len,
            };
            Ok((b, if e < 0 { 0 } else { e }))
        },
        FillStart::Range(s, e, excl) => {
            if length is Some {
                Err("fill length cannot be combined with a range"@)
            } else {
                match s {
                    Bound::Other => Err("wrong argument type"@),
                    _ => match e {
                        Bound::Other => Err("wrong argument type"@),
                        _ => {
                            let b = match s {
                                Bound::Int(v) => fill_begin(len, v as int),
                                _ => 0,
                            };
                            let en = match e {
                                Bound::Int(v) => {
                                    let v1 = if v < 0 {
                                        v + len
                                    } else {
                                        v as int
                                    };
                                    if excl {
                                        v1
                                    } else {
                                        v1 + 1
                                    }
                                },
                                _ => len,
                            };
                            Ok((b, if en < 0 { 0 } else { en }))
                        },
                    },
                }
            }
        },
        FillStart::Other => Err("wrong argument type"@),
    }
}

/// What `fill_span` needs so that its integer arithmetic stays in range.
pub open spec fn fill_span_fits(len: int, start: FillStart, length: Option<i64>) -> bool {
    &&& len <= i64::MAX
    &&& match (start, length) {
        (FillStart::Index(v), Some(n)) => i64::MIN <= fill_begin(len, v as int) + n <= i64::MAX,
        _ => true,
    }
    &&& match start {
        FillStart::Range(_, Bound::Int(v), excl) => v < i64::MAX || excl,
        _ => true,
    }
}

/// Resolves the start (an index or a Range) and optional length of
/// Array#fill into the span of indices it overwrites.
pub fn fill_span(len: usize, start: FillStart, length: Option<i64>) -> (r: Result<(usize, usize), Error>)
    requires
        fill_span_fits(len as int, start, length),
    ensures
        match spec_fill_span(len as int, start, length) {
            Ok((b, e)) => r matches Ok((rb, re)) && rb == b as usize && re == e as usize,
            Err(msg) => is_argument_error(r, msg),
        },
{
    let len_i = len as i64;
    let (beg, end): (i64, i64) = match start {
        FillStart::Index(v) => {
            let mut b = v;
            if b < 0 {
                b += len_i;
                if b < 0 {
                    b = 0;
                }
            }
            let e = match length {
                Some(n) => b + n,
                None => len_i,
            };
            (b, e)
        },
        FillStart::Range(s, e, excl) => {
            if length.is_some() {
                return Err(argument_error("fill length cannot be combined with a range"));
            }
            let b = match s {
                Bound::Int(v) => {
                    let mut b = v;
                    if b < 0 {
                        b += len_i;
                        if b < 0 {
                            b = 0;
                        }
                    }
                    b
                },
                Bound::Nil => 0,
                Bound::Other => return Err(argument_error("wrong argument type")),
            };
            let e = match e {
                Bound::Int(v) => {
                    let mut v = v;
                    if v < 0 {
                        v += len_i;
                    }
                    if excl {
                        v
                    } else {
                        v + 1
                    }
                },
                Bound::Nil => len_i,
                Bound::Other => return Err(argument_error("wrong argument type")),
            };
            (b, e)
        },
        FillStart::Other => return Err(argument_error("wrong argument type")),
    };
    let e = if end < 0 {
        0
    } else {
        end
    };
    Ok((beg as usize, e as usize))
}

/// The receiver after Array#fill over `[beg, end)`: slot `i` of that span
/// takes fill value `i` (list 1; the same object for every slot in the
/// value form, the block's result for `i` in the block form), slots past the
/// old end and before `beg` become nil, the rest keep their element.
pub open spec fn fill_layout(len: int, beg: int, end: int) -> Seq<Pick> {
    Seq::new(
        (if end > len {
            end
        } else {
            len
        }) as nat,
        |i: int|
            if beg <= i < end {
                Pick::Item(1, i as usize)
            } else if i < len {
                Pick::Item(0, i as usize)
            } else {
                Pick::Nil
            },
    )
}

/// Array#fill's layout over the span from `fill_span`.
pub fn fill_plan(len: usize, beg: usize, end: usize) -> (r: Vec<Pick>)
    ensures
        r@ == fill_layout(len as int, beg as int, end as int),
{
    let n = if end > len {
        end
    } else {
        len
    };
    let mut out: Vec<Pick> = Vec::new();
    let mut i: usize = 0;
    while i < n
        invariant
            n == (if end > len { end } else { len }),
            i <= n,
            out@ == fill_layout(len as int, beg as int, end as int).take(i as int),
        decreases n - i,
    {
        out.push(
            if beg <= i && i < end {
                Pick::Item(1, i)
            } else if i < len {
                Pick::Item(0, i)
            } else {
                Pick::Nil
            },
        );
        i += 1;
        assert(out@ =~= fill_layout(len as int, beg as int, end as int).take(i as int));
    }
    assert(fill_layout(len as int, beg as int, end as int).take(n as int) =~= fill_layout(
        len as int,
        beg as int,
        end as int,
    ));
    out
}

/// The positions after Fisher-Yates steps `i` down to 1 of Array#shuffle,
/// step `i` swapping position `i` with position `picks[t]`.
pub open spec fn shuffle_from(s: Seq<usize>, i: int, picks: Seq<usize>, t: int) -> Seq<usize>
    decreases i,
{
    if i < 1 || t < 0 || t >= picks.len() {
        s
    } else {
        let j = picks[t] as int;
        shuffle_from(s.update(i, s[j]).update(j, s[i]), i - 1, picks, t + 1)
    }
}

/// A permutation of `0..n`: each of its entries is below `n` and they are
/// pairwise different.
pub open spec fn is_permutation(s: Seq<usize>, n: nat) -> bool {
    &&& s.len() == n
    &&& forall|k: int| 0 <= k < s.len() ==> #[trigger] s[k] < n
    &&& forall|a: int, b: int| 0 <= a < b < s.len() ==> s[a] != s[b]
}

/// The random picks Array#shuffle draws: step `t` (for position
/// `len - 1 - t`) picks an index at most `len - 1 - t`.
pub open spec fn shuffle_picks_ok(len: nat, picks: Seq<usize>) -> bool {
    &&& picks.len() == (if len > 0 { len - 1 } else { 0 })
    &&& forall|t: int| 0 <= t < picks.len() ==> #[trigger] picks[t] <= len - 1 - t
}

/// Array#shuffle: Fisher-Yates over the receiver's positions with the
/// given random picks.
pub fn shuffle_plan(len: usize, picks: &[usize]) -> (r: Vec<usize>)
    requires
        shuffle_picks_ok(len as nat, picks@),
    ensures
        r@ == shuffle_from(Seq::new(len as nat, |k: int| k as usize), len - 1, picks@, 0),
        is_permutation(r@, len as nat),
{
    let mut s: Vec<usize> = Vec::new();
    while s.len() < len
        invariant
            s.len() <= len,
            forall|k: int| 0 <= k < s.len() ==> s@[k] == k,
        decreases len - s.len(),
    {
        s.push(s.len());
    }
    assert(s@ =~= Seq::new(len as nat, |k: int| k as usize));
    if len == 0 {
        return s;
    }
    let ghost s0 = s@;
    let mut i = len - 1;
    let mut t: usize = 0;
    while i >= 1
        invariant
            shuffle_picks_ok(len as nat, picks@),
            len > 0,
            i < len,
            t == len - 1 - i,
            shuffle_from(s0, len - 1, picks@, 0) == shuffle_from(s@, i as int, picks@, t as int),
            is_permutation(s@, len as nat),
        decreases i,
    {
        let j = picks[t];
        let ghost before = s@;
        let a = s[i];
        let b = s[j];
        s.set(i, b);
        s.set(j, a);
        proof {
            assert(s@ == before.update(i as int, before[j as int]).update(j as int, before[i as int]));
            assert forall|x: int, y: int| 0 <= x < y < s@.len() implies s@[x] != s@[y] by {
                let ox = if x == i { j as int } else if x == j { i as int } else { x };
                let oy = if y == i { j as int } else if y == j { i as int } else { y };
                assert(s@[x] == before[ox]);
                assert(s@[y] == before[oy]);
                if ox < oy {
                } else if oy < ox {
                }
            }
        }
        i -= 1;
        t += 1;
    }
    s
}

/// The picks of Array#sample(n): each pick indexes the pool of positions
/// not yet taken, which shrinks by one per pick.
pub open spec fn sample_from(pool: Seq<usize>, picks: Seq<usize>, t: int) -> Seq<usize>
    decreases picks.len() - t,
{
    if t < 0 || t >= picks.len() {
        Seq::empty()
    } else {
        let idx = picks[t] as int;
        seq![pool[idx]] + sample_from(pool.remove(idx), picks, t + 1)
    }
}

/// How many elements Array#sample(n) takes: `n` read as an unsigned size,
/// at most `len`.
pub open spec fn sample_count(n: i64, len: nat) -> nat {
    if (n as usize) < len {
        (n as usize) as nat
    } else {
        len
    }
}

pub fn sample_size(n: i64, len: usize) -> (r: usize)
    ensures
        r == sample_count(n, len as nat),
{
    let c = n as usize;
    if c < len {
        c
    } else {
        len
    }
}

/// Array#sample(n): the receiver's positions drawn without replacement,
/// pick `t` choosing among the `len - t` not yet drawn.
pub fn sample_plan(len: usize, picks: &[usize]) -> (r: Vec<usize>)
    requires
        picks.len() <= len,
        forall|t: int| 0 <= t < picks@.len() ==> #[trigger] picks@[t] < len - t,
    ensures
        r@ == sample_from(Seq::new(len as nat, |k: int| k as usize), picks@, 0),
        r@.len() == picks.len(),
        forall|k: int| 0 <= k < r@.len() ==> #[trigger] r@[k] < len,
        forall|a: int, b: int| 0 <= a < b < r@.len() ==> r@[a] != r@[b],
{
    let mut pool: Vec<usize> = Vec::new();
    while pool.len() < len
        invariant
            pool.len() <= len,
            forall|k: int| 0 <= k < pool.len() ==> pool@[k] == k,
        decreases len - pool.len(),
    {
        pool.push(pool.len());
    }
    let ghost full = Seq::new(len as nat, |k: int| k as usize);
    assert(pool@ =~= full);
    let mut out: Vec<usize> = Vec::new();
    let mut t: usize = 0;
    while t < picks.len()
        invariant
            picks.len() <= len,
            forall|u: int| 0 <= u < picks@.len() ==> #[trigger] picks@[u] < len - u,
            t <= picks.len(),
            pool.len() == len - t,
            out@.len() == t,
            out@ + sample_from(pool@, picks@, t as int) == sample_from(full, picks@, 0),
            forall|k: int| 0 <= k < pool@.len() ==> #[trigger] pool@[k] < len,
            forall|a: int, b: int| 0 <= a < b < pool@.len() ==> pool@[a] != pool@[b],
            forall|k: int| 0 <= k < out@.len() ==> #[trigger] out@[k] < len,
            forall|a: int, b: int| 0 <= a < b < out@.len() ==> out@[a] != out@[b],
            forall|k: int, m: int| 0 <= k < out@.len() && 0 <= m < pool@.len() ==> out@[k] != pool@[m],
        decreases picks.len() - t,
    {
        let idx = picks[t];
        let ghost before = pool@;
        let ghost out_before = out@;
        let v = pool.remove(idx);
        out.push(v);
        proof {
            assert(pool@ == before.remove(idx as int));
            assert(out_before + sample_from(before, picks@, t as int) =~= out@ + sample_from(
                pool@,
                picks@,
                t + 1,
            ));
            assert forall|k: int, m: int| 0 <= k < out@.len() && 0 <= m < pool@.len() implies out@[k] != pool@[m] by {
                let om = if m < idx { m } else { m + 1 };
                assert(pool@[m] == before[om]);
                if k == out@.len() - 1 {
                    assert(out@[k] == before[idx as int]);
                } else {
                    assert(out@[k] == out_before[k]);
                }
            }
            assert forall|a: int, b: int| 0 <= a < b < pool@.len() implies pool@[a] != pool@[b] by {
                let oa = if a < idx { a } else { a + 1 };
                let ob = if b < idx { b } else { b + 1 };
                assert(pool@[a] == before[oa]);
                assert(pool@[b] == before[ob]);
            }
            assert forall|a: int, b: int| 0 <= a < b < out@.len() implies out@[a] != out@[b] by {
                if b == out@.len() - 1 {
                    assert(out@[a] == out_before[a]);
                    assert(out@[b] == before[idx as int]);
                }
            }
        }
        t += 1;
    }
    assert(out@ + Seq::<usize>::empty() =~= out@);
    out
}

/// Array#concat(*others): the receiver's elements, then those of each
/// argument list in order.
pub open spec fn concat_layout(len: int, others: Seq<usize>) -> Seq<Pick>
    decreases others.len(),
{
    if others.len() == 0 {
        span(0, len)
    } else {
        let k = others.len();
        concat_layout(len, others.drop_last()) + Seq::new(
            others.last() as nat,
            |j: int| Pick::Item(k as usize, j as usize),
        )
    }
}

pub fn concat_plan(len: usize, others: &[usize]) -> (r: Vec<Pick>)
    requires
        others.len() < usize::MAX,
    ensures
        r@ == concat_layout(len as int, others@),
{
    let mut out: Vec<Pick> = Vec::new();
    push_span(&mut out, 0, len);
    assert(others@.take(0) =~= Seq::<usize>::empty());
    let mut k: usize = 0;
    while k < others.len()
        invariant
            others.len() < usize::MAX,
            k <= others.len(),
            out@ == concat_layout(len as int, others@.take(k as int)),
        decreases others.len() - k,
    {
        let ghost before = out@;
        let n = others[k];
        let mut j: usize = 0;
        while j < n
            invariant
                j <= n,
                k < others.len() < usize::MAX,
                out@ == before + Seq::new(j as nat, |t: int| Pick::Item((k + 1) as usize, t as usize)),
            decreases n - j,
        {
            out.push(Pick::Item(k + 1, j));
            j += 1;
            assert(Seq::new(j as nat, |t: int| Pick::Item((k + 1) as usize, t as usize)) =~= Seq::new(
                (j - 1) as nat,
                |t: int| Pick::Item((k + 1) as usize, t as usize),
            ).push(Pick::Item((k + 1) as usize, (j - 1) as usize)));
        }
        proof {
            assert(others@.take(k + 1).drop_last() =~= others@.take(k as int));
        }
        k += 1;
    }
    assert(others@.take(others.len() as int) =~= others@);
    out
}

/// Position `i` of Array#rotate(n) holds the receiver's element
/// `(i + n) mod len`.
pub proof fn law_rotate_position(len: int, n: int, i: int)
    requires
        len > 0,
        0 <= i < len,
    ensures
        (span(rotate_shift(len, n), len) + span(0, rotate_shift(len, n)))[i] == Pick::Item(
            0,
            ((i + n) % len) as usize,
        ),
{
    let s = rotate_shift(len, n);
    vstd::arithmetic::div_mod::lemma_mod_bound(n, len);
    vstd::arithmetic::div_mod::lemma_add_mod_noop(i, n, len);
    vstd::arithmetic::div_mod::lemma_small_mod(i as nat, len as nat);
    if i < len - s {
        vstd::arithmetic::div_mod::lemma_small_mod((i + s) as nat, len as nat);
    } else {
        vstd::arithmetic::div_mod::lemma_mod_sub_multiples_vanish(i + s, len);
        vstd::arithmetic::div_mod::lemma_small_mod((i + s - len) as nat, len as nat);
    }
}

/// Rotating by `n` and then by `-n` puts every element back in place.
pub proof fn law_rotate_inverse(len: int, n: int, i: int)
    requires
        len > 0,
        0 <= i < len,
    ensures
        ((((i + (-n)) % len) + n) % len) == i,
{
    vstd::arithmetic::div_mod::lemma_add_mod_noop(i + (-n), n, len);
    vstd::arithmetic::div_mod::lemma_mod_twice(i + (-n), len);
    vstd::arithmetic::div_mod::lemma_add_mod_noop(i - n, n, len);
    assert(i + (-n) + n == i);
    vstd::arithmetic::div_mod::lemma_small_mod(i as nat, len as nat);
    vstd::arithmetic::div_mod::lemma_mod_bound(i - n, len);
    vstd::arithmetic::div_mod::lemma_mod_bound(n, len);
    vstd::arithmetic::div_mod::lemma_add_mod_noop((i - n) % len, n, len);
    vstd::arithmetic::div_mod::lemma_add_mod_noop(i - n, n, len);
}

/// What Array#take(n) keeps and what Array#drop(n) keeps make up the
/// receiver, in order.
pub proof fn law_take_drop_split(len: nat, n: nat)
    ensures
        span(0, if n < len { n as int } else { len as int }) + span(
            if n < len { n as int } else { len as int },
            len as int,
        ) == span(0, len as int),
{
    let m = if n < len { n as int } else { len as int };
    assert(span(0, m) + span(m, len as int) =~= span(0, len as int));
}

/// Array#fill once its arguments are sorted and read: a zero `length`
/// leaves the array as it is (`None`), a negative one is an error, and
/// otherwise the layout over the span that `start` and `length` name (the
/// whole array without a start).
pub open spec fn spec_array_fill(len: int, start: Option<FillStart>, length: Option<i64>) -> Result<
    Option<Seq<Pick>>,
    Seq<char>,
> {
    if length matches Some(n) && n < 0 {
        Err("negative argument"@)
    } else if length matches Some(n) && n == 0 {
        Ok(None)
    } else {
        match start {
            None => Ok(Some(fill_layout(len, 0, len))),
            Some(s) => match spec_fill_span(len, s, length) {
                Ok((b, e)) => Ok(Some(fill_layout(len, b as usize as int, e as usize as int))),
                Err(m) => Err(m),
            },
        }
    }
}

pub fn array_fill(len: usize, start: Option<FillStart>, length: Option<i64>) -> (r: Result<
    Option<Vec<Pick>>,
    Error,
>)
    requires
        len <= i64::MAX,
        start matches Some(s) ==> fill_span_fits(len as int, s, length),
    ensures
        match spec_array_fill(len as int, start, length) {
            Ok(None) => r matches Ok(None),
            Ok(Some(p)) => r matches Ok(Some(v)) && v@ == p,
            Err(m) => is_argument_error(r, m),
        },
{
    let length = match length {
        Some(n) => match crate::range::fill_length(n) {
            Ok(Some(n)) => Some(n),
            Ok(None) => {
                return Ok(None);
            },
            Err(e) => {
                return Err(e);
            },
        },
        None => None,
    };
    let (beg, end) = match start {
        None => (0usize, len),
        Some(s) => match fill_span(len, s, length) {
            Ok(span) => span,
            Err(e) => {
                return Err(e);
            },
        },
    };
    Ok(Some(fill_plan(len, beg, end)))
}

} // verus!
