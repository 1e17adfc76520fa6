//! Integer kernels of the Range methods `first(n)`, `last(n)` and `step`,
//! and the argument checks of Array#fill.

use vstd::prelude::*;

use crate::array::Bound;
use crate::error::{Error, argument_error, is_argument_error};

verus! {

/// The integers `first, first + 1, ...`, `count` of them.
pub open spec fn run_of(first: int, count: nat) -> Seq<i64> {
    Seq::new(count, |k: int| (first + k) as i64)
}

/// The last value a range yields: its end, or one less when the end is
/// excluded (`None` when that is below `i64::MIN`).
pub open spec fn effective_end(ev: i64, excl: bool) -> Option<int> {
    if excl {
        if ev == i64::MIN {
            None
        } else {
            Some(ev - 1)
        }
    } else {
        Some(ev as int)
    }
}


/// The integers `first..=last`.
fn run_vec(first: i64, last: i64) -> (r: Vec<i64>)
    requires
        first <= last,
    ensures
        r@ == run_of(first as int, (last - first + 1) as nat),
{
    let mut out: Vec<i64> = Vec::new();
    let mut cur = first;
    loop
        invariant
            first <= cur <= last,
            out@ == run_of(first as int, (cur - first) as nat),
        decreases last - cur,
    {
        out.push(cur);
        assert(run_of(first as int, (cur + 1 - first) as nat) =~= run_of(
            first as int,
            (cur - first) as nat,
        ).push(cur));
        if cur == last {
            return out;
        }
        cur = cur + 1;
    }
}

/// Range#last(n) over integer bounds: the last `min(n, size)` values in
/// ascending order.
pub open spec fn spec_range_last(sv: i64, ev: i64, excl: bool, n: i64) -> Seq<i64> {
    match effective_end(ev, excl) {
        None => Seq::empty(),
        Some(e) => if e < sv {
            Seq::empty()
        } else {
            let size = e - sv + 1;
            let count = if n < size {
                n as int
            } else {
                size
            };
            run_of(e - count + 1, count as nat)
        },
    }
}

/// Range#last(n): a negative count and a bound that is no integer are
/// errors, checked in that order.
pub fn range_last(s: Bound, e: Bound, excl: bool, n: i64) -> (r: Result<Vec<i64>, Error>)
    ensures
        n < 0 ==> is_argument_error(r, "negative array size"@),
        n >= 0 && !(s is Int && e is Int) ==> is_argument_error(
            r,
            "cannot take last(n) of a non-integer range"@,
        ),
        n >= 0 && s is Int && e is Int ==> r is Ok && r->Ok_0@ == spec_range_last(
            s->Int_0,
            e->Int_0,
            excl,
            n,
        ),
{
    if n < 0 {
        return Err(argument_error("negative array size"));
    }
    let (sv, ev) = match (s, e) {
        (Bound::Int(a), Bound::Int(b)) => (a, b),
        _ => return Err(argument_error("cannot take last(n) of a non-integer range")),
    };
    let eff_end = if excl {
        match ev.checked_sub(1) {
            Some(v) => v,
            None => return Ok(Vec::new()),
        }
    } else {
        ev
    };
    if eff_end < sv {
        return Ok(Vec::new());
    }
    let len = eff_end as i128 - sv as i128 + 1;
    let count_w = if (n as i128) < len {
        n as i128
    } else {
        len
    };
    let count = count_w as i64;
    let mut out: Vec<i64> = Vec::new();
    if count == 0 {
        assert(run_of(eff_end - count + 1, 0) =~= Seq::<i64>::empty());
        return Ok(out);
    }
    let first = eff_end - (count - 1);
    Ok(run_vec(first, eff_end))
}

/// Range#first(n) once the bounds are integers: up to `n` values from the
/// start while they stay within the range (the count read as `usize`).
pub open spec fn spec_range_first(start: i64, end: i64, excl: bool, n: i64) -> Seq<i64> {
    let hi = if excl {
        end - 1
    } else {
        end as int
    };
    let size = if hi < start {
        0
    } else {
        hi - start + 1
    };
    let count = if (n as usize) < size {
        (n as usize) as int
    } else {
        size
    };
    run_of(start as int, count as nat)
}

pub fn range_first(start: i64, end: i64, excl: bool, n: i64) -> (r: Result<Vec<i64>, Error>)
    ensures
        n < 0 ==> is_argument_error(r, "negative array size"@),
        n >= 0 ==> r is Ok && r->Ok_0@ == spec_range_first(start, end, excl, n),
{
    if n < 0 {
        return Err(argument_error("negative array size"));
    }
    let want = n as usize;
    let hi: i128 = if excl {
        end as i128 - 1
    } else {
        end as i128
    };
    if hi < start as i128 {
        return Ok(Vec::new());
    }
    let size = hi - start as i128 + 1;
    let count: i128 = if (want as i128) < size {
        want as i128
    } else {
        size
    };
    if count == 0 {
        assert(run_of(start as int, 0) =~= Seq::<i64>::empty());
        return Ok(Vec::new());
    }
    Ok(run_vec(start, (start as i128 + count - 1) as i64))
}

/// The step of Range#step: 1 by default; it must be positive.
pub fn range_step_size(step: Option<i64>) -> (r: Result<i64, Error>)
    ensures
        match step {
            None => r == Ok::<i64, Error>(1),
            Some(s) => if s <= 0 {
                is_argument_error(r, "step must be positive"@)
            } else {
                r == Ok::<i64, Error>(s)
            },
        },
{
    let s = match step {
        Some(s) => s,
        None => 1,
    };
    if s <= 0 {
        return Err(argument_error("step must be positive"));
    }
    Ok(s)
}

/// Whether Range#step yields `cur`: it lies before the end (or on it, when
/// the end is included).
pub fn range_step_inside(cur: i64, end: i64, excl: bool) -> (r: bool)
    ensures
        r == if excl {
            cur < end
        } else {
            cur <= end
        },
{
    if excl {
        cur < end
    } else {
        cur <= end
    }
}

/// The value Range#step visits after `cur`, or `None` when it would pass
/// `i64::MAX` and the walk stops.
pub fn range_step_next(cur: i64, step: i64) -> (r: Option<i64>)
    ensures
        cur + step <= i64::MAX && cur + step >= i64::MIN ==> r == Some((cur + step) as i64),
        !(cur + step <= i64::MAX && cur + step >= i64::MIN) ==> r is None,
{
    cur.checked_add(step)
}

/// Which positional arguments of Array#fill are the fill value, the start
/// and the length (indices into the positional arguments).
#[derive(Debug, Clone, Copy, PartialEq, Eq, Structural)]
pub struct FillArgs {
    pub item: Option<usize>,
    pub start: Option<usize>,
    pub length: Option<usize>,
}

/// The reading of Array#fill's positional arguments: with a block at most
/// (start, length); without one, the value and then at most (start, length).
pub open spec fn spec_fill_args(has_block: bool, npos: nat) -> Result<FillArgs, Seq<char>> {
    if has_block {
        if npos == 0 {
            Ok(FillArgs { item: None, start: None, length: None })
        } else if npos == 1 {
            Ok(FillArgs { item: None, start: Some(0), length: None })
        } else if npos == 2 {
            Ok(FillArgs { item: None, start: Some(0), length: Some(1) })
        } else {
            Err("fill takes at most two arguments with a block"@)
        }
    } else {
        if npos == 0 {
            Err("fill requires a value or a block"@)
        } else if npos == 1 {
            Ok(FillArgs { item: Some(0), start: None, length: None })
        } else if npos == 2 {
            Ok(FillArgs { item: Some(0), start: Some(1), length: None })
        } else if npos == 3 {
            Ok(FillArgs { item: Some(0), start: Some(1), length: Some(2) })
        } else {
            Err("fill takes at most three arguments"@)
        }
    }
}

pub fn fill_args(has_block: bool, npos: usize) -> (r: Result<FillArgs, Error>)
    ensures
        match spec_fill_args(has_block, npos as nat) {
            Ok(a) => r == Ok::<FillArgs, Error>(a),
            Err(msg) => is_argument_error(r, msg),
        },
{
    if has_block {
        if npos == 0 {
            Ok(FillArgs { item: None, start: None, length: None })
        } else if npos == 1 {
            Ok(FillArgs { item: None, start: Some(0), length: None })
        } else if npos == 2 {
            Ok(FillArgs { item: None, start: Some(0), length: Some(1) })
        } else {
            Err(argument_error("fill takes at most two arguments with a block"))
        }
    } else {
        if npos == 0 {
            Err(argument_error("fill requires a value or a block"))
        } else if npos == 1 {
            Ok(FillArgs { item: Some(0), start: None, length: None })
        } else if npos == 2 {
            Ok(FillArgs { item: Some(0), start: Some(1), length: None })
        } else if npos == 3 {
            Ok(FillArgs { item: Some(0), start: Some(1), length: Some(2) })
        } else {
            Err(argument_error("fill takes at most three arguments"))
        }
    }
}

/// The length argument of Array#fill: negative is an error, zero leaves the
/// array untouched (`None`), otherwise it is the length.
pub fn fill_length(n: i64) -> (r: Result<Option<i64>, Error>)
    ensures
        n < 0 ==> is_argument_error(r, "negative argument"@),
        n == 0 ==> r == Ok::<Option<i64>, Error>(None),
        n > 0 ==> r == Ok::<Option<i64>, Error>(Some(n)),
{
    if n < 0 {
        return Err(argument_error("negative argument"));
    }
    if n == 0 {
        return Ok(None);
    }
    Ok(Some(n))
}

} // verus!
