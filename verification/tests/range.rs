use mrubyedge::array::Bound;
use mrubyedge::error::Error;
use mrubyedge::range::{range_first, range_last, range_step_inside, range_step_next, range_step_size};

/// Range#step over integer bounds, as the values a block would receive.
fn step_values(start: i64, end: i64, excl: bool, step: Option<i64>) -> Result<Vec<i64>, Error> {
    let step = range_step_size(step)?;
    let mut out = Vec::new();
    let mut cur = start;
    while range_step_inside(cur, end, excl) {
        out.push(cur);
        match range_step_next(cur, step) {
            Some(next) => cur = next,
            None => break,
        }
    }
    Ok(out)
}

#[test]
fn first_last_slices() {
    let f = range_first(10, 20, false, 3).unwrap();
    let l = range_last(Bound::Int(10), Bound::Int(20), false, 2).unwrap();
    assert_eq!(f[0], 10);
    assert_eq!(f[2], 12);
    assert_eq!(l[0], 19);
    assert_eq!(l[1], 20);
}

#[test]
fn step_near_i64_max_does_not_overflow() {
    let a = i64::MAX;
    let out = step_values(a, a, false, Some(2)).unwrap();
    assert_eq!(out.len(), 1);
}

#[test]
fn last_honors_exclusive_end_and_lower_bound() {
    assert_eq!(range_last(Bound::Int(1), Bound::Int(5), true, 3).unwrap(), vec![2, 3, 4]);
    assert_eq!(range_last(Bound::Int(5), Bound::Int(10), false, 100).unwrap(), vec![5, 6, 7, 8, 9, 10]);
    assert!(range_last(Bound::Int(5), Bound::Int(1), false, 2).unwrap().is_empty());
    assert!(range_last(Bound::Int(0), Bound::Int(i64::MIN), true, 2).unwrap().is_empty());
    assert_eq!(range_last(Bound::Int(i64::MIN), Bound::Int(i64::MIN), false, 1).unwrap(), vec![i64::MIN]);
    assert!(range_last(Bound::Int(1), Bound::Int(5), false, 0).unwrap().is_empty());
}

#[test]
fn last_rejects_bad_counts_and_bounds() {
    assert_eq!(
        range_last(Bound::Int(1), Bound::Int(5), false, -1),
        Err(Error::ArgumentError("negative array size".to_string()))
    );
    assert_eq!(
        range_last(Bound::Nil, Bound::Int(5), false, 1),
        Err(Error::ArgumentError("cannot take last(n) of a non-integer range".to_string()))
    );
}

#[test]
fn first_stops_at_the_end() {
    assert_eq!(range_first(1, 3, false, 10).unwrap(), vec![1, 2, 3]);
    assert_eq!(range_first(1, 3, true, 10).unwrap(), vec![1, 2]);
    assert!(range_first(5, 1, false, 3).unwrap().is_empty());
    assert_eq!(range_first(i64::MAX - 1, i64::MAX, false, 5).unwrap(), vec![i64::MAX - 1, i64::MAX]);
    assert!(matches!(range_first(1, 3, false, -1), Err(Error::ArgumentError(_))));
}

#[test]
fn step_walks_with_stride() {
    assert_eq!(step_values(0, 10, false, Some(3)).unwrap(), vec![0, 3, 6, 9]);
    assert_eq!(step_values(0, 9, true, Some(3)).unwrap(), vec![0, 3, 6]);
    assert_eq!(step_values(1, 3, false, None).unwrap(), vec![1, 2, 3]);
    assert_eq!(step_values(0, 3, false, Some(0)), Err(Error::ArgumentError("step must be positive".to_string())));
}
