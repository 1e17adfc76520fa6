use mrubyedge::array::{index_pick, Pick};
use mrubyedge::error::Error;
use mrubyedge::hash::{
    any_match, dig_next, fetch_plan, find_pair, key_error, merge_step, values_at, DigStep,
    FetchPlan, MergeStep,
};

/// A value of the tests' small Ruby world; `==` on it is structural.
#[derive(Debug, Clone, PartialEq)]
enum Val {
    Nil,
    Int(i64),
    Str(String),
    List(Vec<Val>),
    Dict(Vec<(Val, Val)>),
}

fn s(x: &str) -> Val {
    Val::Str(x.to_string())
}

/// The `==` answers of the stored keys against `key`, in the Hash's order.
fn key_eqs(pairs: &[(Val, Val)], key: &Val) -> Vec<bool> {
    pairs.iter().map(|(k, _)| k == key).collect()
}

/// Hash#[] through the library's lookup.
fn get(pairs: &[(Val, Val)], key: &Val) -> Val {
    match find_pair(&key_eqs(pairs, key)) {
        Some(i) => pairs[i].1.clone(),
        None => Val::Nil,
    }
}

/// The `dig` method of one value for one key: Hash#dig looks the key up,
/// Array#dig indexes.
fn dig_one(cur: &Val, key: &Val) -> Val {
    match (cur, key) {
        (Val::Dict(pairs), k) => get(pairs, k),
        (Val::List(items), Val::Int(i)) => match index_pick(items.len(), *i) {
            Pick::Item(_, j) => items[j].clone(),
            Pick::Nil => Val::Nil,
        },
        _ => panic!("no dig for {cur:?}"),
    }
}

/// `recv.dig(*keys)`, with the walk's decisions taken by `dig_next`.
fn dig(recv: &Val, keys: &[Val]) -> Val {
    let mut cur = dig_one(recv, &keys[0]);
    let mut i = 1;
    loop {
        match dig_next(keys.len(), i, cur == Val::Nil) {
            DigStep::Done => return cur,
            DigStep::CallDig(k) => {
                cur = dig_one(&cur, &keys[k]);
                i = k + 1;
            }
        }
    }
}

/// `target.merge!(other) { |k, o, n| block }`: each pair's step comes from
/// `merge_step`; storing a new pair appends it (what the Hash's own `[]=`
/// does, which is not part of this library).
fn merge_into(target: &mut Vec<(Val, Val)>, other: &[(Val, Val)], block: Option<&dyn Fn(&Val, &Val, &Val) -> Val>) {
    for (k, nv) in other {
        match merge_step(&key_eqs(target, k), block.is_some()) {
            MergeStep::Store => target.push((k.clone(), nv.clone())),
            MergeStep::Replace(i) => target[i].1 = nv.clone(),
            MergeStep::Resolve(i) => {
                let v = (block.unwrap())(k, &target[i].1, nv);
                target[i].1 = v;
            }
        }
    }
}

#[test]
fn key_member_value_predicates() {
    let h = vec![(s("a"), Val::Int(1))];
    let value_eqs = |v: &Val| -> Vec<bool> { h.iter().map(|(_, hv)| hv == v).collect() };
    let v = [
        any_match(&key_eqs(&h, &s("a"))),
        any_match(&key_eqs(&h, &s("a"))),
        any_match(&key_eqs(&h, &s("nope"))),
        any_match(&value_eqs(&Val::Int(1))),
        any_match(&value_eqs(&Val::Int(2))),
    ];
    for i in [0usize, 1, 3] {
        assert!(v[i], "index {i}");
    }
    for i in [2usize, 4] {
        assert!(!v[i], "index {i}");
    }
}

#[test]
fn dig_walks_hashes_and_nested_containers() {
    let h = Val::Dict(vec![(s("a"), Val::List(vec![Val::Int(1), Val::Dict(vec![(s("k"), Val::Int(5))])]))]);
    assert_eq!(dig(&h, &[s("a"), Val::Int(0)]), Val::Int(1));
    assert_eq!(dig(&h, &[s("a"), Val::Int(1), s("k")]), Val::Int(5));
    assert_eq!(dig(&h, &[s("zz")]), Val::Nil);
}

#[test]
fn values_at_fills_missing_with_nil() {
    let h = vec![(s("a"), Val::Int(1))];
    let wanted = [s("a"), s("nope")];
    let eqs: Vec<Vec<bool>> = wanted.iter().map(|k| key_eqs(&h, k)).collect();
    let v: Vec<Val> = values_at(&eqs).iter().map(|p| p.map_or(Val::Nil, |i| h[i].1.clone())).collect();
    assert_eq!(v[0], Val::Int(1));
    assert_eq!(v[1], Val::Nil);
}

#[test]
fn merge_variants_and_conflict_block() {
    let a = vec![(s("x"), Val::Int(1))];
    let mut b = a.clone();
    merge_into(&mut b, &[(s("y"), Val::Int(2))], None);
    let mut c = a.clone();
    merge_into(&mut c, &[(s("x"), Val::Int(9))], None);
    let mut m = vec![(s("x"), Val::Int(1))];
    let add = |_: &Val, o: &Val, n: &Val| match (o, n) {
        (Val::Int(o), Val::Int(n)) => Val::Int(o + n),
        _ => Val::Nil,
    };
    merge_into(&mut m, &[(s("x"), Val::Int(10))], Some(&add));
    assert_eq!(get(&b, &s("x")), Val::Int(1));
    assert_eq!(get(&b, &s("y")), Val::Int(2));
    assert_eq!(get(&c, &s("x")), Val::Int(9));
    assert_eq!(get(&m, &s("x")), Val::Int(11));
}

#[test]
fn fetch_finds_falls_back_or_raises() {
    let h = vec![(s("a"), Val::Int(1))];
    assert_eq!(fetch_plan(true, &key_eqs(&h, &s("a")), false, false), Ok(FetchPlan::Found(0)));
    assert_eq!(fetch_plan(true, &key_eqs(&h, &s("b")), true, true), Ok(FetchPlan::CallBlock));
    assert_eq!(fetch_plan(true, &key_eqs(&h, &s("b")), false, true), Ok(FetchPlan::Default));
    assert_eq!(fetch_plan(true, &key_eqs(&h, &s("b")), false, false), Ok(FetchPlan::KeyNotFound));
    assert_eq!(
        fetch_plan(false, &[], false, false),
        Err(Error::ArgumentError("fetch requires a key".to_string()))
    );
    let shown: Vec<char> = "\"b\"".chars().collect();
    assert_eq!(key_error(&shown), Error::KeyError("key not found: \"b\"".to_string()));
    // Ruby `==` may match more than one key: the first in the Hash's order wins.
    assert_eq!(find_pair(&[false, true, true]), Some(1));
}
