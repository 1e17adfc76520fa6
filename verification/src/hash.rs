//! The decisions of the Hash methods (`fetch`, `key?`, `value?`, `dig`,
//! `values_at`, `merge`, `merge!`). A Hash looks a key up by Ruby `==`, a
//! method call the interpreter makes: each function here takes the answers
//! of those calls, for the stored pairs in the Hash's own order, and says
//! which pair is meant and what happens next.

use vstd::prelude::*;
use crate::error::{Error, is_argument_error, argument_error, string_from_chars};
use crate::text::push_all;

verus! {

/// The first stored pair whose key (or value) `==` the wanted one.
pub open spec fn first_match(eqs: Seq<bool>, from: int) -> Option<int>
    decreases eqs.len() - from,
{
    if from < 0 || from >= eqs.len() {
        None
    } else if eqs[from] {
        Some(from)
    } else {
        first_match(eqs, from + 1)
    }
}

/// Which stored pair a lookup finds, from the `==` answers of the stored
/// keys in order: the first that answered true.
pub fn find_pair(eqs: &[bool]) -> (r: Option<usize>)
    ensures
        match first_match(eqs@, 0) {
            Some(i) => r == Some(i as usize),
            None => r is None,
        },
{
    let mut i: usize = 0;
    while i < eqs.len()
        invariant
            i <= eqs.len(),
            first_match(eqs@, 0) == first_match(eqs@, i as int),
        decreases eqs.len() - i,
    {
        if eqs[i] {
            return Some(i);
        }
        i += 1;
    }
    None
}

/// Hash#key? / #member? (from the keys' answers) and Hash#value? (from the
/// values' answers): whether any stored pair matched.
pub fn any_match(eqs: &[bool]) -> (r: bool)
    ensures
        r == (first_match(eqs@, 0) is Some),
{
    find_pair(eqs).is_some()
}

/// What Hash#fetch returns.
#[derive(Debug, Clone, Copy, PartialEq, Eq, Structural)]
pub enum FetchPlan {
    /// The value of the stored pair at this position.
    Found(usize),
    /// The block's value for the key.
    CallBlock,
    /// The default argument.
    Default,
    /// Raise KeyError (its message shows the key's `inspect`).
    KeyNotFound,
}

pub open spec fn spec_fetch(key_given: bool, eqs: Seq<bool>, block_given: bool, default_given: bool) -> Result<
    FetchPlan,
    Seq<char>,
> {
    if !key_given {
        Err("fetch requires a key"@)
    } else {
        match first_match(eqs, 0) {
            Some(i) => Ok(FetchPlan::Found(i as usize)),
            None => if block_given {
                Ok(FetchPlan::CallBlock)
            } else if default_given {
                Ok(FetchPlan::Default)
            } else {
                Ok(FetchPlan::KeyNotFound)
            },
        }
    }
}

/// Hash#fetch(key, default = nil) { |key| }: the stored value, else the
/// block's value, else the default, else KeyError.
pub fn fetch_plan(key_given: bool, eqs: &[bool], block_given: bool, default_given: bool) -> (r: Result<
    FetchPlan,
    Error,
>)
    ensures
        match spec_fetch(key_given, eqs@, block_given, default_given) {
            Ok(p) => r == Ok::<FetchPlan, Error>(p),
            Err(m) => is_argument_error(r, m),
        },
{
    if !key_given {
        return Err(argument_error("fetch requires a key"));
    }
    match find_pair(eqs) {
        Some(i) => Ok(FetchPlan::Found(i)),
        None => if block_given {
            Ok(FetchPlan::CallBlock)
        } else if default_given {
            Ok(FetchPlan::Default)
        } else {
            Ok(FetchPlan::KeyNotFound)
        },
    }
}

/// The KeyError of Hash#fetch for a key whose `inspect` is `shown`.
pub fn key_error(shown: &[char]) -> (e: Error)
    ensures
        e matches Error::KeyError(m) && m@ == "key not found: "@ + shown@,
{
    let head = ['k', 'e', 'y', ' ', 'n', 'o', 't', ' ', 'f', 'o', 'u', 'n', 'd', ':', ' '];
    let mut msg: Vec<char> = Vec::new();
    push_all(&mut msg, &head);
    push_all(&mut msg, shown);
    proof {
        reveal_strlit("key not found: ");
        assert(head@ =~= "key not found: "@);
    }
    Error::KeyError(string_from_chars(msg.as_slice()))
}

/// Hash#values_at(*keys): for each wanted key (its `==` answers against the
/// stored keys), the position of its pair, or `None` for nil.
pub fn values_at(eqs_per_key: &[Vec<bool>]) -> (r: Vec<Option<usize>>)
    ensures
        r@.len() == eqs_per_key@.len(),
        forall|k: int|
            0 <= k < r@.len() ==> match first_match(#[trigger] eqs_per_key@[k]@, 0) {
                Some(i) => r@[k] == Some(i as usize),
                None => r@[k] is None,
            },
{
    let mut out: Vec<Option<usize>> = Vec::new();
    let mut k: usize = 0;
    while k < eqs_per_key.len()
        invariant
            k <= eqs_per_key.len(),
            out@.len() == k,
            forall|j: int|
                0 <= j < k ==> match first_match(#[trigger] eqs_per_key@[j]@, 0) {
                    Some(i) => out@[j] == Some(i as usize),
                    None => out@[j] is None,
                },
        decreases eqs_per_key.len() - k,
    {
        out.push(find_pair(eqs_per_key[k].as_slice()));
        k += 1;
    }
    out
}

/// The next move of Hash#dig / Array#dig after the first key.
#[derive(Debug, Clone, Copy, PartialEq, Eq, Structural)]
pub enum DigStep {
    /// The walk ends; the current value is the result.
    Done,
    /// Call `dig` on the current value with the key at this position.
    CallDig(usize),
}

pub open spec fn spec_dig_next(nkeys: int, i: int, cur_nil: bool) -> DigStep {
    if i >= nkeys || cur_nil {
        DigStep::Done
    } else {
        DigStep::CallDig(i as usize)
    }
}

/// `dig` walks the remaining keys from position `i` of `nkeys`: a nil ends
/// the walk, otherwise the current value's own `dig` takes the next key.
pub fn dig_next(nkeys: usize, i: usize, cur_nil: bool) -> (r: DigStep)
    ensures
        r == spec_dig_next(nkeys as int, i as int, cur_nil),
{
    if i >= nkeys || cur_nil {
        DigStep::Done
    } else {
        DigStep::CallDig(i)
    }
}

/// What Hash#merge / #merge! does with one pair of the other Hash.
#[derive(Debug, Clone, Copy, PartialEq, Eq, Structural)]
pub enum MergeStep {
    /// The key is new: store the pair.
    Store,
    /// The key is stored at this position: its value becomes the new one.
    Replace(usize),
    /// The key is stored at this position: its value becomes what the block
    /// returns for (key, old value, new value).
    Resolve(usize),
}

pub open spec fn spec_merge_step(eqs: Seq<bool>, has_block: bool) -> MergeStep {
    match first_match(eqs, 0) {
        Some(i) => if has_block {
            MergeStep::Resolve(i as usize)
        } else {
            MergeStep::Replace(i as usize)
        },
        None => MergeStep::Store,
    }
}

/// One pair of Hash#merge / #merge!, from the `==` answers of the target's
/// keys (as they stand after the pairs merged before it).
pub fn merge_step(eqs: &[bool], has_block: bool) -> (r: MergeStep)
    ensures
        r == spec_merge_step(eqs@, has_block),
{
    match find_pair(eqs) {
        Some(i) => if has_block {
            MergeStep::Resolve(i)
        } else {
            MergeStep::Replace(i)
        },
        None => MergeStep::Store,
    }
}

/// A key is found exactly when some stored key answered true, and the pair
/// found is one whose key answered true with none before it answering true.
pub proof fn law_lookup_finds_the_first_equal_key(eqs: Seq<bool>)
    ensures
        (first_match(eqs, 0) is Some) == (exists|i: int| 0 <= i < eqs.len() && eqs[i]),
        first_match(eqs, 0) matches Some(i) ==> 0 <= i < eqs.len() && eqs[i] && forall|j: int|
            0 <= j < i ==> !eqs[j],
{
    lemma_first_match(eqs, 0);
}

proof fn lemma_first_match(eqs: Seq<bool>, from: int)
    requires
        0 <= from,
    ensures
        first_match(eqs, from) matches Some(i) ==> from <= i < eqs.len() && eqs[i] && forall|j: int|
            from <= j < i ==> !eqs[j],
        first_match(eqs, from) is None ==> forall|j: int| from <= j < eqs.len() ==> !eqs[j],
    decreases eqs.len() - from,
{
    if from < eqs.len() && !eqs[from] {
        lemma_first_match(eqs, from + 1);
    }
}

} // verus!
