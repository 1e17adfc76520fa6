use mrubyedge::array::{concat_plan, Pick};
use mrubyedge::compare::{
    bucket_add, each_cons_plan, each_slice_plan, is_better, none_or_one, partition_plan,
    keep_where_false, slice_size, while_split,
};
use mrubyedge::error::Error;

fn values(list: &[i64], picks: &[Pick]) -> Vec<i64> {
    picks
        .iter()
        .map(|p| match p {
            Pick::Item(_, i) => list[*i],
            Pick::Nil => panic!("no nil here"),
        })
        .collect()
}

/// Groups `items` by equality the way tally and group_by look keys up.
fn group<T: PartialEq>(items: &[T]) -> Vec<(usize, Vec<usize>)> {
    let mut buckets: Vec<(usize, Vec<usize>)> = Vec::new();
    for (i, it) in items.iter().enumerate() {
        let found = buckets.iter().position(|(k, _)| items[*k] == *it);
        bucket_add(&mut buckets, found, i);
    }
    buckets
}

#[test]
fn none_one_partition_tally() {
    let a: &[i64] = &[2, 4, 5];
    let (even, _) = partition_plan(&a.iter().map(|x| x % 2 == 0).collect::<Vec<_>>());
    let tally = group(&["a", "b", "a"]);
    let a_count = tally.iter().find(|(k, _)| ["a", "b", "a"][*k] == "a").unwrap().1.len();
    assert!(none_or_one(&a.iter().map(|x| *x > 10).collect::<Vec<_>>(), false));
    assert!(none_or_one(&a.iter().map(|x| x % 2 != 0).collect::<Vec<_>>(), true));
    assert_eq!(even.len(), 2);
    assert_eq!(a_count, 2);
}

#[test]
fn group_by_buckets() {
    let xs: Vec<i64> = (1..=6).collect();
    let keys: Vec<i64> = xs.iter().map(|x| x % 2).collect();
    let g = group(&keys);
    let zero = &g.iter().find(|(k, _)| keys[*k] == 0).unwrap().1;
    let one = &g.iter().find(|(k, _)| keys[*k] == 1).unwrap().1;
    assert_eq!(zero.len(), 3);
    assert_eq!(xs[one[0]], 1);
    assert_eq!(xs[one[2]], 5);
}

#[test]
fn take_while_drop_while_on_range() {
    let rng: Vec<i64> = (1..=10).collect();
    let flags: Vec<bool> = rng.iter().map(|x| *x < 4).collect();
    let k = while_split(&flags);
    let even: Vec<bool> = rng.iter().map(|x| x % 2 == 0).collect();
    let (evens, _) = partition_plan(&even);
    assert_eq!(rng[..k].to_vec(), vec![1, 2, 3]);
    assert_eq!(rng[k..].to_vec(), vec![4, 5, 6, 7, 8, 9, 10]);
    assert_eq!(values(&rng, &evens).len(), 5);
}

#[test]
fn max_by_min_by_and_slices() {
    let w = ["gold", "silver", "bronze"];
    let extreme = |want_max: bool| {
        let mut best: Option<usize> = None;
        for (i, x) in w.iter().enumerate() {
            let better = match best {
                None => true,
                Some(b) => {
                    let (s, t) = (x.len() as i64, w[b].len() as i64);
                    is_better(Some((s > t) as i64 - (s < t) as i64), want_max)
                }
            };
            if better {
                best = Some(i);
            }
        }
        w[best.unwrap()]
    };
    assert_eq!(extreme(true), "silver");
    assert_eq!(extreme(false), "gold");
    assert_eq!(each_slice_plan(6, 2).len(), 3);
    assert_eq!(each_cons_plan(4, 2).len(), 3);
}

#[test]
fn slices_and_windows() {
    assert_eq!(each_slice_plan(5, 2), vec![(0, 2), (2, 4), (4, 5)]);
    assert!(each_slice_plan(0, 3).is_empty());
    assert_eq!(each_cons_plan(4, 3), vec![(0, 3), (1, 4)]);
    assert!(each_cons_plan(2, 3).is_empty());
    assert_eq!(slice_size(Some(2)).unwrap(), 2);
    assert_eq!(slice_size(Some(0)), Err(Error::ArgumentError("invalid slice size".to_string())));
    assert_eq!(slice_size(None), Err(Error::ArgumentError("slice size required".to_string())));
    assert!(!is_better(None, true));
}

#[test]
fn partition_keeps_order() {
    let xs: &[i64] = &[1, 2, 3, 4, 5];
    let (yes, no) = partition_plan(&xs.iter().map(|x| x % 2 == 1).collect::<Vec<_>>());
    assert_eq!(values(xs, &yes), vec![1, 3, 5]);
    assert_eq!(values(xs, &no), vec![2, 4]);
    assert!(!none_or_one(&[true, true], true));
    assert!(!none_or_one(&[true], false));
}

#[test]
fn array_reject_filter_map_variants() {
    let a: &[i64] = &[1, 2, 3, 4];
    // reject { |x| x % 2 == 0 }
    let even: Vec<bool> = a.iter().map(|x| x % 2 == 0).collect();
    let rj: Vec<String> = values(a, &keep_where_false(&even)).iter().map(|x| x.to_string()).collect();
    assert_eq!(rj.join(","), "1,3");
    // filter_map { |x| x * 3 if x > 2 }: the block results, nil dropped.
    let results: Vec<Option<i64>> = a.iter().map(|x| if *x > 2 { Some(x * 3) } else { None }).collect();
    let falsy: Vec<bool> = results.iter().map(|r| r.is_none()).collect();
    let fm: Vec<String> = keep_where_false(&falsy)
        .iter()
        .map(|p| match p {
            Pick::Item(_, i) => results[*i].unwrap().to_string(),
            Pick::Nil => unreachable!(),
        })
        .collect();
    assert_eq!(fm.join(","), "9,12");
    // flat_map { |x| [x, -x] }: the block's arrays joined.
    let lens: Vec<usize> = a.iter().map(|_| 2).collect();
    assert_eq!(concat_plan(0, &lens).len(), 8);
}
