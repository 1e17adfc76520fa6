use mrubyedge::array::{
    array_fill, concat_plan, drop_plan, fill_span, index_pick, insert_plan, last_plan, product_plan,
    reverse_plan, rotate_plan, sample_plan, sample_size, shuffle_plan, take_plan, values_at_plan,
    zip_plan, Bound, FillStart, Pick,
};
use mrubyedge::compare::{array_order, delete_plan, index_of_first, index_of_last, keep_where_false};
use mrubyedge::error::Error;
use mrubyedge::hash::{dig_next, DigStep};
use mrubyedge::range::fill_args;

/// The values a layout names, with `None` for nil.
fn apply(lists: &[&[i64]], picks: &[Pick]) -> Vec<Option<i64>> {
    picks
        .iter()
        .map(|p| match p {
            Pick::Item(l, i) => Some(lists[*l][*i]),
            Pick::Nil => None,
        })
        .collect()
}

fn ints(v: &[Option<i64>]) -> Vec<i64> {
    v.iter().map(|x| x.expect("not nil")).collect()
}

/// Array#fill on integers: `item` is the fill value, or `None` for the block
/// form, whose block `f` gives the value for each index.
fn fill(
    a: &[i64],
    item: Option<i64>,
    start: Option<FillStart>,
    length: Option<i64>,
    f: &dyn Fn(usize) -> i64,
) -> Result<Vec<Option<i64>>, Error> {
    let npos = item.is_some() as usize + start.is_some() as usize + length.is_some() as usize;
    fill_args(item.is_none(), npos)?;
    let Some(plan) = array_fill(a.len(), start, length)? else {
        return Ok(a.iter().map(|x| Some(*x)).collect());
    };
    Ok(plan
        .iter()
        .map(|p| match p {
            Pick::Item(0, i) => Some(a[*i]),
            Pick::Item(_, i) => Some(item.unwrap_or_else(|| f(*i))),
            Pick::Nil => None,
        })
        .collect())
}

fn no_block(_: usize) -> i64 {
    unreachable!()
}

#[test]
fn concat_takes_multiple_arrays_and_keeps_order() {
    let a: &[i64] = &[1];
    let b = apply(&[a, &[2, 3], &[4]], &concat_plan(1, &[2, 1]));
    assert_eq!(b.len(), 4);
    assert_eq!(ints(&b), vec![1, 2, 3, 4]);
    assert_eq!(b[1], Some(2));
    assert_eq!(b[2], Some(3));
    assert_eq!(b[3], Some(4));
}

#[test]
fn concat_with_self_appends_a_copy() {
    let a: &[i64] = &[1, 2];
    let b = apply(&[a, a], &concat_plan(2, &[2]));
    assert_eq!(b.len(), 4);
    assert_eq!(ints(&b), vec![1, 2, 1, 2]);
}

#[test]
fn fill_start_and_negative_start() {
    let a = fill(&[1, 2, 3, 4, 5], Some(9), Some(FillStart::Index(2)), None, &no_block).unwrap();
    let a = ints(&a);
    let b = fill(&a, Some(8), Some(FillStart::Index(-3)), None, &no_block).unwrap();
    assert_eq!(b[0], Some(1));
    assert_eq!(b[1], Some(2));
    assert_eq!(b[2], Some(8));
    assert_eq!(b[3], Some(8));
    assert_eq!(b[4], Some(8));
    let c = fill(&[1, 2, 3], Some(7), Some(FillStart::Index(9)), None, &no_block).unwrap();
    assert_eq!(c.len(), 3, "start past the end fills nothing");
}

#[test]
fn fill_start_length_extends_with_nil() {
    let b = fill(&[1, 2, 3], Some(9), Some(FillStart::Index(2)), Some(5), &no_block).unwrap();
    let c = fill(&[1, 2], Some(7), Some(FillStart::Index(1)), Some(2), &no_block).unwrap();
    assert_eq!(b[0], Some(1));
    assert_eq!(b[1], Some(2));
    assert_eq!(b[2], Some(9));
    assert_eq!(b[6], Some(9));
    assert_eq!(b.len(), 7);
    assert_eq!(c[0], Some(1));
    assert_eq!(c[1], Some(7));
    assert_eq!(c[2], Some(7));
    assert_eq!(c.len(), 3);
}

#[test]
fn fill_range_inclusive_exclusive_and_endless() {
    let a = fill(
        &[0, 1, 2, 3, 4],
        Some(8),
        Some(FillStart::Range(Bound::Int(2), Bound::Int(4), false)),
        None,
        &no_block,
    )
    .unwrap();
    let b = fill(
        &[0, 1, 2, 3, 4],
        Some(7),
        Some(FillStart::Range(Bound::Int(1), Bound::Int(3), true)),
        None,
        &no_block,
    )
    .unwrap();
    let c = fill(
        &[0, 1, 2],
        Some(6),
        Some(FillStart::Range(Bound::Int(2), Bound::Nil, false)),
        None,
        &no_block,
    )
    .unwrap();
    assert_eq!(a[0], Some(0));
    assert_eq!(a[2], Some(8));
    assert_eq!(a[4], Some(8));
    assert_eq!(b[1], Some(7));
    assert_eq!(b[3], Some(3));
    assert_eq!(c[0], Some(0));
    assert_eq!(c[2], Some(6));
}

#[test]
fn fill_range_beyond_end_extends() {
    let b = fill(
        &[1, 2, 3],
        Some(9),
        Some(FillStart::Range(Bound::Int(2), Bound::Int(9), false)),
        None,
        &no_block,
    )
    .unwrap();
    assert_eq!(b.len(), 10);
    assert_eq!(b[0], Some(1));
    assert_eq!(b[1], Some(2));
    assert_eq!(b[2], Some(9));
    assert_eq!(b[3], Some(9));
    assert_eq!(b[9], Some(9));
}

#[test]
fn fill_block_form() {
    let b = ints(&fill(&[0, 1, 2, 3, 4], None, None, None, &|i| i as i64 * 100).unwrap());
    let c = fill(&[0, 0, 0, 0, 0], None, Some(FillStart::Index(-2)), None, &|i| i as i64 * 10)
        .unwrap();
    let d = fill(
        &[1, 2, 3, 4],
        None,
        Some(FillStart::Range(Bound::Int(1), Bound::Int(2), false)),
        None,
        &|i| i as i64 * 10,
    )
    .unwrap();
    let again = fill(&b, None, Some(FillStart::Index(1)), Some(2), &|i| i as i64 + 1).unwrap();
    assert_eq!(b[0], 0);
    assert_eq!(b[1], 100);
    assert_eq!(b[4], 400);
    assert_eq!(c[0], Some(0));
    assert_eq!(c[3], Some(30));
    assert_eq!(c[4], Some(40));
    assert_eq!(again[1], Some(2));
    assert_eq!(d[1], Some(10));
    assert_eq!(d[3], Some(4));
}

#[test]
fn fill_rejects_negative_length_and_missing_value() {
    let e = fill(&[1, 2], Some(9), Some(FillStart::Index(0)), Some(-1), &no_block).unwrap_err();
    assert!(matches!(e, Error::ArgumentError(_)), "{e:?}");
    let e2 = fill_args(false, 0).unwrap_err();
    assert!(matches!(e2, Error::ArgumentError(_)), "{e2:?}");
}

#[test]
fn delete_removes_all_matches_and_returns_value() {
    // a = [1, 2, 3, 2]; removed = a.delete(2): with `Some` the array keeps
    // the layout and the call returns its argument, with `None` nil.
    let a: &[i64] = &[1, 2, 3, 2];
    let target = 2;
    let eqs: Vec<bool> = a.iter().map(|x| *x == target).collect();
    let plan = delete_plan(&eqs);
    let removed = plan.as_ref().map(|_| target);
    let after = apply(&[a], &plan.expect("something matched"));
    assert_eq!(after.len(), 2);
    assert_eq!(after[0], Some(1));
    assert_eq!(after[1], Some(3));
    assert_eq!(removed, Some(2));
}

#[test]
fn delete_uses_custom_equality() {
    // Boxes holding 1 and 5; `==` matches only the box holding 5.
    let tags: &[i64] = &[1, 5];
    let eqs: Vec<bool> = tags.iter().map(|v| *v == 5).collect();
    let plan = delete_plan(&eqs);
    assert!(plan.is_some(), "removed is not nil");
    let after = apply(&[tags], &plan.unwrap());
    assert_eq!(after.len(), 1);
    assert_eq!(after[0], Some(1));
}

#[test]
fn delete_tolerates_equality_mutating_the_array() {
    // The first element's `==` clears the receiver and answers false; 1 == 99
    // is false too, so nothing is deleted and the cleared array stays.
    let mut a: Vec<i64> = vec![0, 1];
    let mut eqs = Vec::new();
    for k in 0..2 {
        if k == 0 {
            a.clear();
            eqs.push(false);
        } else {
            eqs.push(1 == 99);
        }
    }
    assert!(delete_plan(&eqs).is_none());
    assert_eq!(a.len(), 0);
}

#[test]
fn delete_returns_nil_when_absent() {
    assert!(delete_plan(&[false, false]).is_none());
}

#[test]
fn index_finds_by_value_and_by_block() {
    let a: &[i64] = &[10, 20, 30];
    let by_value = |t: i64| -> Vec<bool> { a.iter().map(|x| *x == t).collect() };
    let by_block: Vec<bool> = a.iter().map(|x| *x > 15).collect();
    assert_eq!(index_of_first(&by_value(20)), Some(1));
    assert!(index_of_first(&by_value(99)).is_none());
    assert_eq!(index_of_first(&by_block), Some(1));
    assert_eq!(index_of_first(&by_value(30)), Some(2));
}

#[test]
fn rindex_scans_from_the_end() {
    let a: &[i64] = &[5, 1, 5, 2];
    let eq5: Vec<bool> = a.iter().map(|x| *x == 5).collect();
    let lt3: Vec<bool> = a.iter().map(|x| *x < 3).collect();
    let eq9: Vec<bool> = a.iter().map(|x| *x == 9).collect();
    assert_eq!(index_of_last(&eq5), Some(2));
    assert_eq!(index_of_last(&lt3), Some(3));
    assert!(index_of_last(&eq9).is_none());
}

#[test]
fn reject_returns_new_filtered_array_and_keeps_original() {
    let a: &[i64] = &[1, 2, 3, 4, 5, 6];
    let even: Vec<bool> = a.iter().map(|x| x % 2 == 0).collect();
    let b = apply(&[a], &keep_where_false(&even));
    let c = apply(&[a], &keep_where_false(&[false; 6]));
    assert_eq!(b[0], Some(1));
    assert_eq!(b[1], Some(3));
    assert_eq!(b[2], Some(5));
    assert!(c.len() == 6);
    assert_eq!(a.len(), 6);
}

#[test]
fn first_and_last_support_arity_and_stay_compatible() {
    let a: &[i64] = &[1, 2, 3];
    let first = |n: i64| apply(&[a], &take_plan(a.len(), n).unwrap());
    let last = |n: i64| apply(&[a], &last_plan(a.len(), n).unwrap());
    assert_eq!(first(1)[0], Some(1));
    assert_eq!(first(2)[0], Some(1));
    assert_eq!(first(2)[1], Some(2));
    assert_eq!(first(9).len(), 3);
    assert_eq!(first(0).len(), 0);
    assert_eq!(last(1)[0], Some(3));
    assert_eq!(last(2)[0], Some(2));
    assert_eq!(last(2)[1], Some(3));
    assert_eq!(last(9).len(), 3);
    assert!(take_plan(0, 1).unwrap().is_empty());
    assert!(last_plan(0, 1).unwrap().is_empty());
}

#[test]
fn rotate_shifts_in_both_directions() {
    let a: &[i64] = &[1, 2, 3, 4];
    let rot = |n: i64| ints(&apply(&[a], &rotate_plan(a.len(), n)));
    let b = rot(1);
    let c = rot(2);
    let d = rot(-1);
    let e = rot(9);
    assert_eq!(b[0], 2);
    assert_eq!(b[3], 1);
    assert_eq!(c[0], 3);
    assert_eq!(d[0], 4);
    assert_eq!(d[1], 1);
    assert_eq!(e[0], 2);
}

#[test]
fn take_and_drop_slice_the_head() {
    let a: &[i64] = &[1, 2, 3, 4];
    let take = |n: i64| apply(&[a], &take_plan(a.len(), n).unwrap());
    let drop = |n: i64| apply(&[a], &drop_plan(a.len(), n).unwrap());
    assert_eq!(take(2)[0], Some(1));
    assert_eq!(take(2).len(), 2);
    assert_eq!(drop(2)[0], Some(3));
    assert_eq!(drop(2).len(), 2);
    assert_eq!(take(9).len(), 4);
    assert_eq!(drop(9).len(), 0);
}

#[test]
fn take_rejects_negative_counts() {
    let e = take_plan(1, -1).unwrap_err();
    assert!(matches!(e, Error::ArgumentError(_)), "{e:?}");
}

#[test]
fn values_at_supports_negative_and_missing_indices() {
    let a: &[i64] = &[10, 20, 30];
    let got = apply(&[a], &values_at_plan(a.len(), &[0, 2, -1, 9]));
    assert_eq!(got[0], Some(10));
    assert_eq!(got[1], Some(30));
    assert_eq!(got[2], Some(30));
    assert!(got[3].is_none());
}

#[test]
fn product_builds_the_cartesian_tuples() {
    let a: &[i64] = &[1, 2];
    let b: &[i64] = &[3, 4];
    let p: Vec<Vec<Option<i64>>> =
        product_plan(&[2, 2]).iter().map(|row| apply(&[a, b], row)).collect();
    let solo_list: &[i64] = &[7];
    let solo: Vec<Vec<Option<i64>>> =
        product_plan(&[1]).iter().map(|row| apply(&[solo_list], row)).collect();
    assert_eq!(p.len(), 4);
    assert_eq!(p[0][0], Some(1));
    assert_eq!(p[0][1], Some(3));
    assert_eq!(p[3][0], Some(2));
    assert_eq!(p[3][1], Some(4));
    assert_eq!(solo.len(), 1);
    assert_eq!(solo[0][0], Some(7));
}

#[test]
fn zip_pairs_and_pads_with_nil() {
    let a: &[i64] = &[1, 2];
    let z: Vec<Vec<Option<i64>>> =
        zip_plan(2, &[2, 1]).iter().map(|row| apply(&[a, &[3, 4], &[5]], row)).collect();
    assert_eq!(z.len(), 2);
    assert_eq!(z[0][0], Some(1));
    assert_eq!(z[0][1], Some(3));
    assert_eq!(z[0][2], Some(5));
    assert_eq!(z[1][1], Some(4));
    assert!(z[1][2].is_none());
}

#[test]
fn sample_picks_members_of_self() {
    let a: &[i64] = &[5, 6, 7];
    let one = sample_plan(a.len(), &[2]);
    let s = a[one[0]];
    let n = sample_size(2, a.len());
    let two = sample_plan(a.len(), &[1, 1][..n]);
    let empty = sample_size(1, 0);
    assert!([5, 6, 7].contains(&s));
    assert_eq!(two.len(), 2);
    assert_eq!(empty, 0);
}

#[test]
fn spaceship_orders_lexicographically() {
    let order = |x: &[i64], y: &[i64]| -> Option<i64> {
        let results: Vec<Option<i64>> =
            x.iter().zip(y.iter()).map(|(p, q)| Some((p > q) as i64 - (p < q) as i64)).collect();
        array_order(&results, Some(x.len()), Some(y.len()))
    };
    assert_eq!(order(&[1, 2], &[1, 3]), Some(-1));
    assert_eq!(order(&[1, 3], &[1, 2]), Some(1));
    assert_eq!(order(&[1, 2], &[1, 2]), Some(0));
    assert_eq!(order(&[1], &[1, 2]), Some(-1), "shorter array sorts first");
    assert_eq!(order(&[1, 2], &[1]), Some(1), "longer array sorts last");
    assert!(array_order(&[], Some(2), None).is_none(), "non-array other side is nil");
    assert!(array_order(&[], Some(2), None).is_none(), "non-array other side is nil");
}

#[test]
fn spaceship_stops_at_incomparable_pair() {
    assert_eq!(array_order(&[Some(0), None, Some(1)], Some(3), Some(3)), None);
    assert_eq!(array_order(&[Some(0), Some(5)], Some(2), Some(2)), Some(5));
}

#[test]
fn insert_places_and_pads() {
    let a: &[i64] = &[1, 4];
    let b = apply(&[a, &[2]], &insert_plan(2, 1, 1).unwrap());
    assert_eq!(ints(&b), vec![1, 2, 4]);
    let r = apply(&[&[1, 2], &[99]], &insert_plan(2, -1, 1).unwrap());
    assert_eq!(r[2], Some(99));
    let p = apply(&[&[1], &[7]], &insert_plan(1, 3, 1).unwrap());
    assert!(p[1].is_none());
    assert_eq!(p.len(), 4);
    let e = insert_plan(2, -4, 1).unwrap_err();
    assert_eq!(e, Error::ArgumentError("insert index too small".to_string()));
}

#[test]
fn reverse_lists_from_the_tail() {
    let a: &[i64] = &[1, 2, 3];
    assert_eq!(ints(&apply(&[a], &reverse_plan(3))), vec![3, 2, 1]);
    assert!(reverse_plan(0).is_empty());
}

#[test]
fn shuffle_is_a_permutation() {
    let s = shuffle_plan(4, &[0, 0, 1]);
    // step 3 swaps 3 and 0, step 2 swaps 2 and 0, step 1 swaps 1 and 1.
    assert_eq!(s, vec![2, 1, 3, 0]);
    let mut sorted = s.clone();
    sorted.sort();
    assert_eq!(sorted, vec![0, 1, 2, 3]);
    assert!(shuffle_plan(0, &[]).is_empty());
}

#[test]
fn sample_draws_without_replacement() {
    let s = sample_plan(5, &[4, 0, 2]);
    assert_eq!(s, vec![4, 0, 3]);
    assert_eq!(sample_size(-1, 3), 3);
}

#[test]
fn fill_span_errors() {
    let e = fill_span(3, FillStart::Range(Bound::Int(0), Bound::Int(1), false), Some(1)).unwrap_err();
    assert_eq!(
        e,
        Error::ArgumentError("fill length cannot be combined with a range".to_string())
    );
    let e = fill_span(3, FillStart::Other, None).unwrap_err();
    assert_eq!(e, Error::ArgumentError("wrong argument type".to_string()));
    let e = fill_span(3, FillStart::Range(Bound::Other, Bound::Nil, false), None).unwrap_err();
    assert_eq!(e, Error::ArgumentError("wrong argument type".to_string()));
    assert_eq!(fill_span(5, FillStart::Index(-9), None).unwrap(), (0, 5));
    assert_eq!(fill_span(5, FillStart::Range(Bound::Nil, Bound::Int(-2), true), None).unwrap(), (0, 3));
}

/// A nested array of integers.
#[derive(Debug, Clone)]
enum Nested {
    Int(i64),
    List(Vec<Nested>),
}

/// One Array#dig lookup: the element at the index (negatives from the end),
/// or nil.
fn dig_one(cur: &Nested, idx: i64) -> Option<Nested> {
    let Nested::List(items) = cur else { panic!("no dig for {cur:?}") };
    match index_pick(items.len(), idx) {
        Pick::Item(_, i) => Some(items[i].clone()),
        Pick::Nil => None,
    }
}

/// Array#dig(*path): the first index, then the walk `dig_next` directs (a
/// nil ends it, otherwise the current value's `dig` takes the next index).
fn dig(n: &Nested, path: &[i64]) -> Option<Nested> {
    let mut cur = dig_one(n, path[0]);
    let mut i = 1;
    loop {
        match dig_next(path.len(), i, cur.is_none()) {
            DigStep::Done => return cur,
            DigStep::CallDig(k) => {
                cur = dig_one(cur.as_ref().unwrap(), path[k]);
                i = k + 1;
            }
        }
    }
}

fn int_of(n: Option<Nested>) -> i64 {
    match n {
        Some(Nested::Int(v)) => v,
        other => panic!("not an integer: {other:?}"),
    }
}

#[test]
fn dig_walks_nested_paths_and_short_circuits_on_nil() {
    let n = Nested::List(vec![
        Nested::List(vec![Nested::Int(1), Nested::List(vec![Nested::Int(2), Nested::Int(3)])]),
        Nested::List(vec![]),
    ]);
    assert_eq!(int_of(dig(&n, &[0, 1, 1])), 3);
    assert!(dig(&n, &[5]).is_none());
    assert!(dig(&n, &[0, 5]).is_none());
    assert!(dig(&n, &[1, 7]).is_none());
    assert_eq!(int_of(dig(&n, &[-2, 0])), 1);
}

#[test]
fn sort_by_accepts_array_keys() {
    let mut data: Vec<Vec<i64>> = vec![vec![3, 2], vec![1, 9], vec![3, 1], vec![2, 5]];
    data.sort_by(|x, y| {
        let results: Vec<Option<i64>> =
            x.iter().zip(y.iter()).map(|(p, q)| Some((p > q) as i64 - (p < q) as i64)).collect();
        match array_order(&results, Some(x.len()), Some(y.len())) {
            Some(v) if v < 0 => std::cmp::Ordering::Less,
            Some(v) if v > 0 => std::cmp::Ordering::Greater,
            _ => std::cmp::Ordering::Equal,
        }
    });
    let joined: Vec<String> = data
        .iter()
        .map(|d| d.iter().map(|v| v.to_string()).collect::<Vec<_>>().join(","))
        .collect();
    assert_eq!(joined, vec!["1,9", "2,5", "3,1", "3,2"]);
}

#[test]
fn fill_overwrites_the_whole_array() {
    let a: &[i64] = &[0, 1, 2, 3, 4];
    let b = fill(a, Some(10), None, None, &no_block).unwrap();
    assert_eq!(b[0], Some(10));
    assert_eq!(b[4], Some(10));
    assert_eq!(b.len(), 5);
}

#[test]
fn insert_places_and_returns_self() {
    let a: &[i64] = &[1, 4];
    let b = apply(&[a, &[2]], &insert_plan(a.len(), 1, 1).unwrap());
    assert_eq!(b[0], Some(1));
    assert_eq!(b[1], Some(2));
    assert_eq!(b[2], Some(4));
}

#[test]
fn insert_negative_and_padding_semantics() {
    // [1, 2].insert(-1, 'end') and [1].insert(3, 'x'), with -7 standing for
    // the inserted object.
    let r = apply(&[&[1, 2], &[-7]], &insert_plan(2, -1, 1).unwrap());
    assert_eq!(r[2], Some(-7));
    let p = apply(&[&[1], &[-7]], &insert_plan(1, 3, 1).unwrap());
    assert!(p[1].is_none());
    assert_eq!(p.len(), 4);
}

#[test]
fn reverse_variants() {
    let a: &[i64] = &[1, 2, 3];
    let b = apply(&[a], &reverse_plan(a.len()));
    assert_eq!(b[0], Some(3));
    assert_eq!(b.len(), 3);
    // reverse! writes the same layout back into the receiver.
    let a_after = apply(&[a], &reverse_plan(a.len()));
    assert_eq!(a_after[0], Some(3));
    assert_eq!(a_after[2], Some(1));
}

#[test]
fn delete_returns_nil_when_absent_and_keeps_array() {
    let a = ["x", "y"];
    let eqs: Vec<bool> = a.iter().map(|s| *s == "z").collect();
    assert!(delete_plan(&eqs).is_none());
    assert_eq!(a.len(), 2);
    assert_eq!(a[0], "x");
}

#[test]
fn shuffle_keeps_the_same_multiset() {
    let a: &[i64] = &[1, 2, 3, 4];
    for draws in [[0usize, 0, 0], [3, 2, 1], [1, 0, 1]] {
        let order = shuffle_plan(a.len(), &draws);
        let mut b: Vec<i64> = order.iter().map(|i| a[*i]).collect();
        assert_eq!(b.len(), 4);
        b.sort();
        assert_eq!(b, vec![1, 2, 3, 4]);
        assert_eq!(a, &[1, 2, 3, 4]);
    }
}

#[test]
fn compact_bang_removes_nils_and_reports_noops() {
    let a: &[Option<i64>] = &[Some(1), None, Some(2), None];
    let nils: Vec<bool> = a.iter().map(|x| x.is_none()).collect();
    let kept = delete_plan(&nils).expect("something removed: returns self");
    let after: Vec<Option<i64>> = kept
        .iter()
        .map(|p| match p {
            Pick::Item(_, i) => a[*i],
            Pick::Nil => None,
        })
        .collect();
    assert_eq!(after[0], Some(1));
    assert_eq!(after[1], Some(2));
    assert_eq!(after.len(), 2);
    assert!(delete_plan(&[false]).is_none(), "[7].compact! is nil");
}

#[test]
fn reject_bang_removes_in_place_and_reports_noops() {
    let a: &[i64] = &[1, 2, 3, 4];
    let even: Vec<bool> = a.iter().map(|x| x % 2 == 0).collect();
    let after = apply(&[a], &delete_plan(&even).expect("changed: returns self"));
    assert_eq!(after[0], Some(1));
    assert_eq!(after[1], Some(3));
    assert!(delete_plan(&[false]).is_none(), "[1].reject! {{ false }} is nil");
}

#[test]
fn get_index_out_of_range_returns_nil() {
    let a: &[i64] = &[1, 2];
    let at = |i: i64| apply(&[a], &[index_pick(a.len(), i)])[0];
    assert!(at(5).is_none());
    assert!(at(-9).is_none());
    assert_eq!(at(0), Some(1));
    assert_eq!(at(-1), Some(2));
}
