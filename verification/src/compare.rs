//! Decisions that the comparison, search and Enumerable methods take from
//! the results of `<=>`, `==` or a block, which the caller obtains by calling
//! into the interpreter: a `<=>` result is `Some(n)`, or `None` for nil, and
//! a block result is given by its truthiness.

use vstd::prelude::*;

use crate::array::Pick;
use crate::error::{Error, argument_error, is_argument_error};

verus! {

/// The relations Comparable derives from `<=>`.
#[derive(Debug, Clone, Copy, PartialEq, Eq, Structural)]
pub enum Relation {
    Lt,
    Le,
    Gt,
    Ge,
    Eq,
}

/// Whether the `<=>` result `c` establishes `rel`; an incomparable pair
/// establishes none.
pub open spec fn spec_holds(rel: Relation, c: Option<i64>) -> bool {
    match c {
        None => false,
        Some(v) => match rel {
            Relation::Lt => v < 0,
            Relation::Le => v <= 0,
            Relation::Gt => v > 0,
            Relation::Ge => v >= 0,
            Relation::Eq => v == 0,
        },
    }
}

/// Comparable#<, <=, >, >= and ==.
pub fn comparable_holds(rel: Relation, c: Option<i64>) -> (r: bool)
    ensures
        r == spec_holds(rel, c),
{
    match c {
        None => false,
        Some(v) => match rel {
            Relation::Lt => v < 0,
            Relation::Le => v <= 0,
            Relation::Gt => v > 0,
            Relation::Ge => v >= 0,
            Relation::Eq => v == 0,
        },
    }
}

/// Comparable#between?(lo, hi) from `self <=> lo` and `self <=> hi`; the
/// second is not consulted when the first already puts `self` below `lo`.
pub fn between(vs_lo: Option<i64>, vs_hi: Option<i64>) -> (r: bool)
    ensures
        r == (!spec_holds(Relation::Lt, vs_lo) && spec_holds(Relation::Le, vs_hi)),
{
    match vs_lo {
        Some(v) if v < 0 => false,
        _ => match vs_hi {
            Some(v) => v <= 0,
            None => false,
        },
    }
}

/// What Comparable#clamp(lo, hi) returns.
#[derive(Debug, Clone, Copy, PartialEq, Eq, Structural)]
pub enum ClampPick {
    Low,
    High,
    Receiver,
}

/// Comparable#clamp from `hi <=> lo`, `self <=> lo` and `self <=> hi`:
/// an error when `hi` sorts below `lo`, `lo` when `self` sorts below it,
/// `hi` when `self` sorts above it, `self` otherwise.
pub fn clamp_pick(hi_vs_lo: Option<i64>, vs_lo: Option<i64>, vs_hi: Option<i64>) -> (r: Result<
    ClampPick,
    Error,
>)
    ensures
        spec_holds(Relation::Lt, hi_vs_lo) ==> is_argument_error(
            r,
            "min argument must be smaller than max"@,
        ),
        !spec_holds(Relation::Lt, hi_vs_lo) ==> r == Ok::<ClampPick, Error>(
            if spec_holds(Relation::Lt, vs_lo) {
                ClampPick::Low
            } else if spec_holds(Relation::Gt, vs_hi) {
                ClampPick::High
            } else {
                ClampPick::Receiver
            },
        ),
{
    if let Some(v) = hi_vs_lo {
        if v < 0 {
            return Err(argument_error("min argument must be smaller than max"));
        }
    }
    match vs_lo {
        Some(v) if v < 0 => Ok(ClampPick::Low),
        _ => match vs_hi {
            Some(v) if v > 0 => Ok(ClampPick::High),
            _ => Ok(ClampPick::Receiver),
        },
    }
}

/// Integer#clamp(min, max).
pub fn integer_clamp(this: i64, min: i64, max: i64) -> (r: Result<i64, Error>)
    ensures
        min > max ==> is_argument_error(r, "min argument must be smaller than max argument"@),
        min <= max ==> r == Ok::<i64, Error>(
            if this < min {
                min
            } else if this > max {
                max
            } else {
                this
            },
        ),
{
    if min > max {
        return Err(argument_error("min argument must be smaller than max argument"));
    }
    Ok(
        if this < min {
            min
        } else if this > max {
            max
        } else {
            this
        },
    )
}

/// Array#<=> from the element comparisons made so far: the first pair that
/// is incomparable gives nil and the first unequal pair decides; when all
/// pairs are equal the shorter array sorts first. A side that is no array
/// (length `None`) gives nil.
pub open spec fn spec_array_order(results: Seq<Option<i64>>, len_a: int, len_b: int) -> Option<i64>
    decreases results.len(),
{
    if results.len() == 0 {
        Some(
            if len_a < len_b {
                -1i64
            } else if len_a > len_b {
                1i64
            } else {
                0i64
            },
        )
    } else {
        match results[0] {
            None => None,
            Some(v) => if v != 0 {
                Some(v)
            } else {
                spec_array_order(results.skip(1), len_a, len_b)
            },
        }
    }
}

pub fn array_order(results: &[Option<i64>], len_a: Option<usize>, len_b: Option<usize>) -> (r: Option<i64>)
    ensures
        len_a is None || len_b is None ==> r is None,
        len_a is Some && len_b is Some ==> r == spec_array_order(
            results@,
            len_a.unwrap() as int,
            len_b.unwrap() as int,
        ),
{
    let (la, lb) = match (len_a, len_b) {
        (Some(a), Some(b)) => (a, b),
        _ => return None,
    };
    let mut i: usize = 0;
    assert(results@.skip(0) =~= results@);
    while i < results.len()
        invariant
            i <= results.len(),
            len_a == Some(la),
            len_b == Some(lb),
            spec_array_order(results@, la as int, lb as int) == spec_array_order(
                results@.skip(i as int),
                la as int,
                lb as int,
            ),
        decreases results.len() - i,
    {
        assert(results@.skip(i as int)[0] == results@[i as int]);
        assert(results@.skip(i as int).skip(1) =~= results@.skip(i + 1));
        match results[i] {
            None => return None,
            Some(v) => if v != 0 {
                return Some(v);
            },
        }
        i += 1;
    }
    assert(results@.skip(i as int) =~= Seq::<Option<i64>>::empty());
    Some(
        if la < lb {
            -1
        } else if la > lb {
            1
        } else {
            0
        },
    )
}

/// Array#index / Array#find_index from the match result of each element in
/// order.
pub fn index_of_first(flags: &[bool]) -> (r: Option<usize>)
    ensures
        match r {
            Some(i) => i < flags.len() && flags@[i as int] && forall|j: int| 0 <= j < i ==> !flags@[j],
            None => forall|j: int| 0 <= j < flags.len() ==> !flags@[j],
        },
{
    let mut i: usize = 0;
    while i < flags.len()
        invariant
            i <= flags.len(),
            forall|j: int| 0 <= j < i ==> !flags@[j],
        decreases flags.len() - i,
    {
        if flags[i] {
            return Some(i);
        }
        i += 1;
    }
    None
}

/// Array#rindex from the match result of each element, scanning from the
/// end.
pub fn index_of_last(flags: &[bool]) -> (r: Option<usize>)
    ensures
        match r {
            Some(i) => i < flags.len() && flags@[i as int] && forall|j: int|
                i < j < flags.len() ==> !flags@[j],
            None => forall|j: int| 0 <= j < flags.len() ==> !flags@[j],
        },
{
    let mut i = flags.len();
    while i > 0
        invariant
            i <= flags.len(),
            forall|j: int| i <= j < flags.len() ==> !flags@[j],
        decreases i,
    {
        i -= 1;
        if flags[i] {
            return Some(i);
        }
    }
    None
}

/// The receiver's elements whose flag is false, in order.
pub open spec fn kept_where_false(flags: Seq<bool>) -> Seq<Pick>
    decreases flags.len(),
{
    if flags.len() == 0 {
        Seq::empty()
    } else {
        let rest = kept_where_false(flags.drop_last());
        if flags.last() {
            rest
        } else {
            rest.push(Pick::Item(0, (flags.len() - 1) as usize))
        }
    }
}

/// Array#reject, and what Array#delete keeps: the elements whose block
/// result (or `==` result) is false. Enumerable#filter_map keeps, the same
/// way, the block results that are not falsy.
pub fn keep_where_false(flags: &[bool]) -> (r: Vec<Pick>)
    ensures
        r@ == kept_where_false(flags@),
{
    let mut out: Vec<Pick> = Vec::new();
    let mut i: usize = 0;
    while i < flags.len()
        invariant
            i <= flags.len(),
            out@ == kept_where_false(flags@.take(i as int)),
        decreases flags.len() - i,
    {
        assert(flags@.take(i + 1).drop_last() =~= flags@.take(i as int));
        if !flags[i] {
            out.push(Pick::Item(0, i));
        }
        i += 1;
    }
    assert(flags@.take(flags.len() as int) =~= flags@);
    out
}

/// Array#delete(obj) from each element's `== obj` result: the elements to
/// keep, or `None` (nothing matched: the array stays and nil is returned).
/// Array#compact! (flags: the element is nil) and Array#reject! (flags: the
/// block's results) follow the same plan: `None` is their nil for "no change".
pub fn delete_plan(eqs: &[bool]) -> (r: Option<Vec<Pick>>)
    ensures
        (exists|j: int| 0 <= j < eqs.len() && eqs@[j]) ==> (r matches Some(v) && v@ == kept_where_false(eqs@)),
        !(exists|j: int| 0 <= j < eqs.len() && eqs@[j]) ==> r is None,
{
    match index_of_first(eqs) {
        None => None,
        Some(_) => Some(keep_where_false(eqs)),
    }
}

/// Number of `true` flags.
pub open spec fn count_true(flags: Seq<bool>) -> nat
    decreases flags.len(),
{
    if flags.len() == 0 {
        0
    } else {
        count_true(flags.drop_last()) + if flags.last() {
            1nat
        } else {
            0nat
        }
    }
}

/// Enumerable#none? (`want_exactly_one` false) and #one? from the block
/// result for each element.
pub fn none_or_one(flags: &[bool], want_exactly_one: bool) -> (r: bool)
    ensures
        r == if want_exactly_one {
            count_true(flags@) == 1
        } else {
            count_true(flags@) == 0
        },
{
    let mut hits: usize = 0;
    let mut i: usize = 0;
    while i < flags.len()
        invariant
            i <= flags.len(),
            hits == count_true(flags@.take(i as int)),
            hits <= i,
        decreases flags.len() - i,
    {
        assert(flags@.take(i + 1).drop_last() =~= flags@.take(i as int));
        if flags[i] {
            hits += 1;
        }
        i += 1;
    }
    assert(flags@.take(flags.len() as int) =~= flags@);
    if want_exactly_one {
        hits == 1
    } else {
        hits == 0
    }
}

/// The receiver's elements whose flag is true, in order.
pub open spec fn kept_where_true(flags: Seq<bool>) -> Seq<Pick>
    decreases flags.len(),
{
    if flags.len() == 0 {
        Seq::empty()
    } else {
        let rest = kept_where_true(flags.drop_last());
        if flags.last() {
            rest.push(Pick::Item(0, (flags.len() - 1) as usize))
        } else {
            rest
        }
    }
}

/// Enumerable#partition: the elements whose block result is true, and the
/// others.
pub fn partition_plan(flags: &[bool]) -> (r: (Vec<Pick>, Vec<Pick>))
    ensures
        r.0@ == kept_where_true(flags@),
        r.1@ == kept_where_false(flags@),
{
    let mut yes: Vec<Pick> = Vec::new();
    let mut i: usize = 0;
    while i < flags.len()
        invariant
            i <= flags.len(),
            yes@ == kept_where_true(flags@.take(i as int)),
        decreases flags.len() - i,
    {
        assert(flags@.take(i + 1).drop_last() =~= flags@.take(i as int));
        if flags[i] {
            yes.push(Pick::Item(0, i));
        }
        i += 1;
    }
    assert(flags@.take(flags.len() as int) =~= flags@);
    (yes, keep_where_false(flags))
}

/// Where Enumerable#take_while stops and #drop_while starts: the first
/// element whose block result is false, or the end.
pub fn while_split(flags: &[bool]) -> (r: usize)
    ensures
        r <= flags.len(),
        forall|j: int| 0 <= j < r ==> flags@[j],
        r < flags.len() ==> !flags@[r as int],
{
    let mut i: usize = 0;
    while i < flags.len() && flags[i]
        invariant
            i <= flags.len(),
            forall|j: int| 0 <= j < i ==> flags@[j],
        decreases flags.len() - i,
    {
        i += 1;
    }
    i
}

/// The size argument of each_slice and each_cons.
pub fn slice_size(n: Option<i64>) -> (r: Result<usize, Error>)
    requires
        n matches Some(v) ==> v <= usize::MAX,
    ensures
        n is None ==> is_argument_error(r, "slice size required"@),
        n matches Some(v) ==> (v <= 0 ==> is_argument_error(r, "invalid slice size"@)) && (v > 0
            ==> r == Ok::<usize, Error>(v as usize)),
{
    match n {
        None => Err(argument_error("slice size required")),
        Some(v) => if v <= 0 {
            Err(argument_error("invalid slice size"))
        } else {
            Ok(v as usize)
        },
    }
}

/// The spans `[start, end)` of Enumerable#each_slice(n) over `len`
/// elements: consecutive groups of `n`, the last one possibly shorter.
pub open spec fn slice_spans(len: nat, n: nat) -> Seq<(usize, usize)> {
    Seq::new(
        ((len + n - 1) / n as int) as nat,
        |k: int| ((k * n) as usize, (if (k + 1) * n < len { (k + 1) * n } else { len as int }) as usize),
    )
}

pub fn each_slice_plan(len: usize, n: usize) -> (r: Vec<(usize, usize)>)
    requires
        n > 0,
        len + n <= usize::MAX,
    ensures
        r@ == slice_spans(len as nat, n as nat),
{
    let mut out: Vec<(usize, usize)> = Vec::new();
    let mut start: usize = 0;
    let mut k: usize = 0;
    while start < len
        invariant
            n > 0,
            len + n <= usize::MAX,
            start == k * n,
            k <= start,
            start < len + n,
            out@.len() == k,
            forall|t: int| 0 <= t < k ==> #[trigger] out@[t] == ((t * n) as usize, (if (t + 1) * n < len { (t + 1) * n } else { len as int }) as usize),
        decreases len + n - start,
    {
        let end = if len - start > n {
            start + n
        } else {
            len
        };
        proof {
            assert((k + 1) * n == k * n + n) by (nonlinear_arith);
        }
        out.push((start, end));
        start = start + n;
        k += 1;
    }
    proof {
        vstd::arithmetic::div_mod::lemma_fundamental_div_mod_converse(
            (len + n - 1) as int,
            n as int,
            k as int,
            (len + n - 1 - k * n) as int,
        );
        assert(out@ =~= slice_spans(len as nat, n as nat));
    }
    out
}

/// The windows `[i, i + n)` of Enumerable#each_cons(n): none when fewer
/// than `n` elements.
pub open spec fn cons_spans(len: nat, n: nat) -> Seq<(usize, usize)> {
    if len >= n {
        Seq::new((len - n + 1) as nat, |i: int| (i as usize, (i + n) as usize))
    } else {
        Seq::empty()
    }
}

pub fn each_cons_plan(len: usize, n: usize) -> (r: Vec<(usize, usize)>)
    requires
        n > 0,
    ensures
        r@ == cons_spans(len as nat, n as nat),
{
    let mut out: Vec<(usize, usize)> = Vec::new();
    if len < n {
        return out;
    }
    let mut i: usize = 0;
    while i <= len - n
        invariant
            n > 0,
            n <= len,
            i <= len - n + 1,
            out@ == Seq::new(i as nat, |t: int| (t as usize, (t + n) as usize)),
        decreases len - n + 1 - i,
    {
        out.push((i, i + n));
        i += 1;
        assert(out@ =~= Seq::new(i as nat, |t: int| (t as usize, (t + n) as usize)));
    }
    out
}

/// Enumerable#max_by (`want_max`) and #min_by: whether a new block result
/// replaces the best so far, from `new <=> best` (an incomparable pair
/// does not).
pub fn is_better(ord: Option<i64>, want_max: bool) -> (r: bool)
    ensures
        r == match ord {
            Some(v) => if want_max {
                v > 0
            } else {
                v < 0
            },
            None => false,
        },
{
    match ord {
        Some(v) => if want_max {
            v > 0
        } else {
            v < 0
        },
        None => false,
    }
}

/// Adds element `i` to the groups of Enumerable#tally and #group_by: to
/// group `found` when the caller found an equal key there, else to a new
/// group keyed by `i`.
pub fn bucket_add(buckets: &mut Vec<(usize, Vec<usize>)>, found: Option<usize>, i: usize)
    requires
        found matches Some(k) ==> k < old(buckets)@.len(),
    ensures
        found is None ==> final(buckets)@.len() == old(buckets)@.len() + 1 && final(buckets)@.last().0
            == i && final(buckets)@.last().1@ == seq![i] && forall|t: int|
            0 <= t < old(buckets)@.len() ==> #[trigger] final(buckets)@[t] == old(buckets)@[t],
        found matches Some(k) ==> final(buckets)@.len() == old(buckets)@.len() && final(buckets)@[k as int].0
            == old(buckets)@[k as int].0 && final(buckets)@[k as int].1@ == old(buckets)@[k as int].1@.push(i)
            && forall|t: int|
            0 <= t < old(buckets)@.len() && t != k ==> #[trigger] final(buckets)@[t] == old(buckets)@[t],
{
    match found {
        None => {
            let mut v: Vec<usize> = Vec::new();
            v.push(i);
            buckets.push((i, v));
        },
        Some(k) => {
            let (key, mut members) = buckets.remove(k);
            members.push(i);
            buckets.insert(k, (key, members));
        },
    }
}

} // verus!
