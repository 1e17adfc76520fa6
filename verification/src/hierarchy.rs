//! Class comparisons (`Class#<`, `<=`, `>`, `>=`, `<=>`) over a class
//! hierarchy held as plain values: classes are numbered, and `supers[c]` is
//! the number of the superclass of class `c`, or `None` for a root. A class
//! is defined after its superclass, so a superclass always has the smaller
//! number.

use vstd::prelude::*;

verus! {

/// Every superclass is numbered below its subclass.
pub open spec fn hierarchy_ok(supers: Seq<Option<usize>>) -> bool {
    forall|c: int| 0 <= c < supers.len() ==> (#[trigger] supers[c] matches Some(p) ==> p < c)
}

/// `target` is a proper ancestor of `start`: it is met when walking the
/// superclass links up from `start`.
pub open spec fn is_ancestor(supers: Seq<Option<usize>>, start: int, target: int) -> bool
    decreases start,
{
    if 0 <= start < supers.len() {
        match supers[start] {
            Some(p) => if p < start {
                p == target || is_ancestor(supers, p as int, target)
            } else {
                false
            },
            None => false,
        }
    } else {
        false
    }
}

/// Whether `target` is a proper ancestor of `start`, by walking the
/// superclass links.
pub fn inherits_from(supers: &[Option<usize>], start: usize, target: usize) -> (r: bool)
    requires
        hierarchy_ok(supers@),
        start < supers.len(),
    ensures
        r == is_ancestor(supers@, start as int, target as int),
{
    let mut cur: Option<usize> = supers[start];
    proof {
        assert(supers@[start as int] == cur);
    }
    while cur.is_some()
        invariant
            hierarchy_ok(supers@),
            is_ancestor(supers@, start as int, target as int) == (match cur {
                Some(c) => c < supers@.len() && (c == target || is_ancestor(
                    supers@,
                    c as int,
                    target as int,
                )),
                None => false,
            }),
            cur matches Some(c) ==> c < supers@.len(),
        decreases
            match cur {
                Some(c) => c as int + 1,
                None => 0,
            },
    {
        let c = cur.unwrap();
        if c == target {
            return true;
        }
        let next = supers[c];
        proof {
            assert(supers@[c as int] == next);
            if next is Some {
                assert(next.unwrap() < c);
            }
        }
        cur = next;
    }
    false
}

/// Walking up from `a` only meets smaller numbers.
pub proof fn lemma_ancestor_below(supers: Seq<Option<usize>>, a: int, b: int)
    requires
        is_ancestor(supers, a, b),
    ensures
        b < a,
    decreases a,
{
    if 0 <= a < supers.len() {
        if let Some(p) = supers[a] {
            if p < a && p != b {
                lemma_ancestor_below(supers, p as int, b);
            }
        }
    }
}

/// The answer of `Class#<` (`strict`, `forward`), `Class#<=` (`forward`),
/// `Class#>` (`strict`) and `Class#>=` (neither): for the same class, whether
/// the comparison is not strict; otherwise whether `me` inherits from `other`
/// (forward) or `other` from `me`.
pub open spec fn spec_class_compare(
    supers: Seq<Option<usize>>,
    me: int,
    other: int,
    strict: bool,
    forward: bool,
) -> bool {
    if me == other {
        !strict
    } else if forward {
        is_ancestor(supers, me, other)
    } else {
        is_ancestor(supers, other, me)
    }
}

/// `Class#<`, `<=`, `>` and `>=` of class `me` against class `other`.
pub fn class_compare(supers: &[Option<usize>], me: usize, other: usize, strict: bool, forward: bool) -> (r: bool)
    requires
        hierarchy_ok(supers@),
        me < supers.len(),
        other < supers.len(),
    ensures
        r == spec_class_compare(supers@, me as int, other as int, strict, forward),
{
    if me == other {
        !strict
    } else if forward {
        inherits_from(supers, me, other)
    } else {
        inherits_from(supers, other, me)
    }
}

/// `Class#<=>`: 0 for the same class, -1 when `me` inherits from `other`,
/// and 1 otherwise (never nil).
pub open spec fn spec_class_order(supers: Seq<Option<usize>>, me: int, other: int) -> i64 {
    if me == other {
        0i64
    } else if is_ancestor(supers, me, other) {
        -1i64
    } else {
        1i64
    }
}

/// `Class#<=>` of class `me` against class `other`.
pub fn class_order(supers: &[Option<usize>], me: usize, other: usize) -> (r: i64)
    requires
        hierarchy_ok(supers@),
        me < supers.len(),
        other < supers.len(),
    ensures
        r == spec_class_order(supers@, me as int, other as int),
{
    if me == other {
        0
    } else if inherits_from(supers, me, other) {
        -1
    } else {
        1
    }
}

/// Inheritance is a strict order: no two classes inherit from each other,
/// and it passes through a chain of superclasses.
pub proof fn law_inheritance_is_a_strict_order(
    supers: Seq<Option<usize>>,
    a: int,
    b: int,
    c: int,
)
    requires
        hierarchy_ok(supers),
    ensures
        !is_ancestor(supers, a, a),
        is_ancestor(supers, a, b) ==> !is_ancestor(supers, b, a),
        is_ancestor(supers, a, b) && is_ancestor(supers, b, c) ==> is_ancestor(supers, a, c),
{
    if is_ancestor(supers, a, a) {
        lemma_ancestor_below(supers, a, a);
    }
    if is_ancestor(supers, a, b) && is_ancestor(supers, b, a) {
        lemma_ancestor_below(supers, a, b);
        lemma_ancestor_below(supers, b, a);
    }
    if is_ancestor(supers, a, b) && is_ancestor(supers, b, c) {
        lemma_ancestor_trans(supers, a, b, c);
    }
}

proof fn lemma_ancestor_trans(supers: Seq<Option<usize>>, a: int, b: int, c: int)
    requires
        is_ancestor(supers, a, b),
        is_ancestor(supers, b, c),
    ensures
        is_ancestor(supers, a, c),
    decreases a,
{
    let p = supers[a].unwrap();
    if p != b {
        lemma_ancestor_trans(supers, p as int, b, c);
    }
}

/// `Class#<` and `Class#>` are mirror images, and `Class#<=>` answers -1
/// exactly when `Class#<` holds; on two distinct related classes the two
/// orders `<=>` gives are opposite.
pub proof fn law_class_comparisons_agree(supers: Seq<Option<usize>>, a: int, b: int)
    requires
        hierarchy_ok(supers),
    ensures
        spec_class_compare(supers, a, b, true, true) == spec_class_compare(supers, b, a, true, false),
        spec_class_compare(supers, a, b, false, true) == spec_class_compare(supers, b, a, false, false),
        (spec_class_order(supers, a, b) == -1) == spec_class_compare(supers, a, b, true, true),
        spec_class_order(supers, a, b) == -1 ==> spec_class_order(supers, b, a) == 1,
        spec_class_compare(supers, a, b, false, true) && spec_class_compare(supers, b, a, false, true)
            ==> a == b,
{
    law_inheritance_is_a_strict_order(supers, a, b, a);
}

} // verus!
