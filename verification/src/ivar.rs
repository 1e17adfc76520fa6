//! Instance-variable storage: an open-addressing table keyed by name bytes,
//! each slot remembering the FNV-1a hash of its key. Entries are never
//! removed; the table doubles before it is seven tenths full, so a probe run
//! always ends at an empty slot.

use vstd::prelude::*;
use vstd::arithmetic::power2::pow2;
use vstd::string::StringSliceAdditionalSpecFns;

verus! {

/// FNV-1a, 64 bits: start from the offset basis, then for each byte xor it in
/// and multiply by the FNV prime modulo 2^64.
pub open spec fn fnv1a(bytes: Seq<u8>) -> u64
    decreases bytes.len(),
{
    if bytes.len() == 0 {
        0xcbf2_9ce4_8422_2325u64
    } else {
        let h = fnv1a(bytes.drop_last()) ^ (bytes.last() as u64);
        ((h as int * 0x100_0000_01b3int) % 0x1_0000_0000_0000_0000int) as u64
    }
}

/// Hash of `bytes` by `fnv::FnvHasher`: its default state is the FNV offset
/// basis, `write` folds each byte in (xor, then wrapping multiplication by the
/// FNV prime) and `finish` returns the state. The contract claims exactly
/// that: the result is `fnv1a(bytes@)`.
#[verifier::external_body]
fn fnv_hash(bytes: &[u8]) -> (h: u64)
    ensures
        h == fnv1a(bytes@),
{
    let mut hasher = fnv::FnvHasher::default();
    std::hash::Hasher::write(&mut hasher, bytes);
    std::hash::Hasher::finish(&hasher)
}

/// Byte-wise equality of two slices.
fn bytes_eq(a: &[u8], b: &[u8]) -> (r: bool)
    ensures
        r == (a@ == b@),
{
    if a.len() != b.len() {
        return false;
    }
    let mut i: usize = 0;
    while i < a.len()
        invariant
            a.len() == b.len(),
            i <= a.len(),
            forall|t: int| 0 <= t < i ==> a@[t] == b@[t],
        decreases a.len() - i,
    {
        if a[i] != b[i] {
            return false;
        }
        i += 1;
    }
    assert(a@ =~= b@);
    true
}

#[derive(Debug, Clone)]
struct Entry<V> {
    key: Vec<u8>,
    hash: u64,
    value: V,
}

/// Instance variables of one object: name bytes to values.
#[derive(Debug, Clone)]
pub struct IvarMap<V> {
    slots: Vec<Option<Entry<V>>>,
    len: usize,
}

/// Slot at which the probe run for `hash` starts in a table of `cap` slots.
spec fn home(hash: u64, cap: int) -> int {
    hash as int % cap
}

/// Number of steps from `start` to `i`, wrapping at `cap`.
spec fn dist(start: int, i: int, cap: int) -> int {
    if i >= start {
        i - start
    } else {
        i + cap - start
    }
}

/// Slot reached after `d` steps from `start`, wrapping at `cap`.
spec fn probe(start: int, d: int, cap: int) -> int {
    if start + d < cap {
        start + d
    } else {
        start + d - cap
    }
}

spec fn has_key<V>(s: Seq<Option<Entry<V>>>, i: int, k: Seq<u8>) -> bool {
    0 <= i < s.len() && s[i] is Some && s[i]->0.key@ == k
}

spec fn count_some<V>(s: Seq<Option<Entry<V>>>) -> nat
    decreases s.len(),
{
    if s.len() == 0 {
        0
    } else {
        count_some(s.drop_last()) + if s.last() is Some {
            1nat
        } else {
            0nat
        }
    }
}

/// The slot `d` steps into the probe run of the entry at `i` is occupied.
spec fn run_occupied<V>(s: Seq<Option<Entry<V>>>, i: int, d: int) -> bool {
    s[probe(home(s[i]->0.hash, s.len() as int), d, s.len() as int)] is Some
}

/// Stored hashes are the keys' hashes, keys are distinct, and every slot
/// between an entry's home slot and the entry itself is occupied.
spec fn table_ok<V>(s: Seq<Option<Entry<V>>>) -> bool {
    let cap = s.len() as int;
    &&& forall|i: int| 0 <= i < cap && #[trigger] s[i] is Some ==> s[i]->0.hash == fnv1a(s[i]->0.key@)
    &&& forall|i: int, j: int|
        #![trigger s[i], s[j]]
        0 <= i < cap && 0 <= j < cap && i != j && s[i] is Some && s[j] is Some ==> s[i]->0.key@
            != s[j]->0.key@
    &&& forall|i: int, d: int|
        0 <= i < cap && s[i] is Some && 0 <= d < dist(home(s[i]->0.hash, cap), i, cap)
            ==> #[trigger] run_occupied(s, i, d)
}

/// The keys of the occupied slots, in slot order.
spec fn slot_keys<V>(s: Seq<Option<Entry<V>>>) -> Seq<Seq<u8>>
    decreases s.len(),
{
    if s.len() == 0 {
        Seq::empty()
    } else {
        slot_keys(s.drop_last()) + match s.last() {
            Some(e) => seq![e.key@],
            None => Seq::empty(),
        }
    }
}

spec fn map_of<V>(s: Seq<Option<Entry<V>>>) -> Map<Seq<u8>, V> {
    Map::new(
        |k: Seq<u8>| exists|i: int| has_key(s, i, k),
        |k: Seq<u8>| s[choose|i: int| has_key(s, i, k)]->0.value,
    )
}

impl<V> View for IvarMap<V> {
    type V = Map<Seq<u8>, V>;

    closed spec fn view(&self) -> Map<Seq<u8>, V> {
        map_of(self.slots@)
    }
}

proof fn lemma_probe_dist(start: int, cap: int)
    requires
        0 <= start < cap,
    ensures
        forall|i: int|
            0 <= i < cap ==> 0 <= #[trigger] dist(start, i, cap) < cap && probe(
                start,
                dist(start, i, cap),
                cap,
            ) == i,
        forall|d: int|
            0 <= d < cap ==> 0 <= #[trigger] probe(start, d, cap) < cap && dist(
                start,
                probe(start, d, cap),
                cap,
            ) == d,
{
}

proof fn lemma_lookup<V>(s: Seq<Option<Entry<V>>>, i: int)
    requires
        table_ok(s),
        0 <= i < s.len(),
        s[i] is Some,
    ensures
        map_of(s).contains_key(s[i]->0.key@),
        map_of(s)[s[i]->0.key@] == s[i]->0.value,
{
    let k = s[i]->0.key@;
    assert(has_key(s, i, k));
    let c = choose|c: int| has_key(s, c, k);
    assert(has_key(s, c, k));
    if c != i {
        assert(s[i]->0.key@ != s[c]->0.key@);
    }
}

proof fn lemma_count_update<V>(s: Seq<Option<Entry<V>>>, p: int, x: Option<Entry<V>>)
    requires
        0 <= p < s.len(),
    ensures
        count_some(s.update(p, x)) + (if s[p] is Some {
            1int
        } else {
            0int
        }) == count_some(s) + (if x is Some {
            1int
        } else {
            0int
        }),
    decreases s.len(),
{
    let u = s.update(p, x);
    if p == s.len() - 1 {
        assert(u.drop_last() =~= s.drop_last());
    } else {
        assert(u.drop_last() =~= s.drop_last().update(p, x));
        lemma_count_update(s.drop_last(), p, x);
    }
}

proof fn lemma_count_bound<V>(s: Seq<Option<Entry<V>>>)
    ensures
        count_some(s) <= s.len(),
        (forall|i: int| 0 <= i < s.len() ==> s[i] is Some) ==> count_some(s) == s.len(),
        (forall|i: int| 0 <= i < s.len() ==> s[i] is None) ==> count_some(s) == 0,
    decreases s.len(),
{
    if s.len() > 0 {
        lemma_count_bound(s.drop_last());
        assert(forall|i: int| 0 <= i < s.len() - 1 ==> s.drop_last()[i] == s[i]);
    }
}

proof fn lemma_count_prefix<V>(s: Seq<Option<Entry<V>>>, j: int)
    requires
        0 <= j <= s.len(),
    ensures
        count_some(s.take(j)) <= count_some(s),
    decreases s.len() - j,
{
    if j < s.len() {
        lemma_count_prefix(s, j + 1);
        assert(s.take(j + 1).drop_last() =~= s.take(j));
    } else {
        assert(s.take(j) =~= s);
    }
}

/// If the probe run from the home slot of `k` meets only other keys for `d`
/// steps and then an empty slot (or has wrapped all the way round), `k` is in
/// no slot.
proof fn lemma_run_absent<V>(s: Seq<Option<Entry<V>>>, start: int, d: int, k: Seq<u8>)
    requires
        table_ok(s),
        s.len() > 0,
        start == home(fnv1a(k), s.len() as int),
        0 <= d <= s.len(),
        forall|e: int|
            0 <= e < d ==> s[probe(start, e, s.len() as int)] is Some && s[probe(
                start,
                e,
                s.len() as int,
            )]->0.key@ != k,
        d == s.len() || s[probe(start, d, s.len() as int)] is None,
    ensures
        forall|i: int| !has_key(s, i, k),
        !map_of(s).contains_key(k),
{
    let cap = s.len() as int;
    lemma_probe_dist(start, cap);
    assert forall|i: int| !has_key(s, i, k) by {
        if has_key(s, i, k) {
            assert(s[i]->0.hash == fnv1a(k));
            let di = dist(start, i, cap);
            if di < d {
                assert(s[probe(start, di, cap)]->0.key@ != k);
            } else if di == d {
            } else {
                assert(run_occupied(s, i, d));
            }
        }
    }
}

proof fn lemma_update_fresh<V>(s: Seq<Option<Entry<V>>>, p: int, e: Entry<V>)
    requires
        0 <= p < s.len(),
        s[p] is None,
        forall|i: int| !has_key(s, i, e.key@),
        table_ok(s),
    ensures
        map_of(s.update(p, Some(e))) =~= map_of(s).insert(e.key@, e.value),
{
    let u = s.update(p, Some(e));
    let k = e.key@;
    assert forall|q: Seq<u8>| #[trigger] map_of(u).contains_key(q) == map_of(s).insert(
        k,
        e.value,
    ).contains_key(q) by {
        if map_of(u).contains_key(q) {
            let w = choose|w: int| has_key(u, w, q);
            if w != p {
                assert(has_key(s, w, q));
            }
        }
        if map_of(s).contains_key(q) {
            let w = choose|w: int| has_key(s, w, q);
            assert(has_key(u, w, q));
        }
        if q == k {
            assert(has_key(u, p, q));
        }
    }
    assert forall|q: Seq<u8>| #[trigger] map_of(u).contains_key(q) implies map_of(u)[q]
        == map_of(s).insert(k, e.value)[q] by {
        let c = choose|c: int| has_key(u, c, q);
        if q == k {
            if c != p {
                assert(has_key(s, c, k));
            }
        } else {
            assert(c != p);
            assert(has_key(s, c, q));
            let c0 = choose|c0: int| has_key(s, c0, q);
            assert(has_key(s, c0, q));
            if c0 != c {
                assert(s[c]->0.key@ != s[c0]->0.key@);
            }
        }
    }
}

proof fn lemma_update_same<V>(s: Seq<Option<Entry<V>>>, p: int, e: Entry<V>)
    requires
        0 <= p < s.len(),
        s[p] is Some,
        s[p]->0.key@ == e.key@,
        table_ok(s),
    ensures
        map_of(s.update(p, Some(e))) =~= map_of(s).insert(e.key@, e.value),
{
    let u = s.update(p, Some(e));
    let k = e.key@;
    assert forall|q: Seq<u8>| #[trigger] map_of(u).contains_key(q) == map_of(s).insert(
        k,
        e.value,
    ).contains_key(q) by {
        if map_of(u).contains_key(q) {
            let w = choose|w: int| has_key(u, w, q);
            assert(has_key(s, w, q));
        }
        if map_of(s).contains_key(q) {
            let w = choose|w: int| has_key(s, w, q);
            assert(has_key(u, w, q));
        }
        if q == k {
            assert(has_key(u, p, q));
        }
    }
    assert forall|q: Seq<u8>| #[trigger] map_of(u).contains_key(q) implies map_of(u)[q]
        == map_of(s).insert(k, e.value)[q] by {
        let c = choose|c: int| has_key(u, c, q);
        assert(has_key(u, c, q));
        if q == k {
            if c != p {
                assert(s[c]->0.key@ != s[p]->0.key@);
            }
        } else {
            assert(c != p);
            assert(has_key(s, c, q));
            let c0 = choose|c0: int| has_key(s, c0, q);
            assert(has_key(s, c0, q));
            if c0 != c {
                assert(s[c]->0.key@ != s[c0]->0.key@);
            }
        }
    }
}

/// Placing entry `e` at slot `p`, at the end of the probe run of its hash,
/// keeps the table well formed.
proof fn lemma_place_ok<V>(s: Seq<Option<Entry<V>>>, p: int, d: int, e: Entry<V>)
    requires
        table_ok(s),
        s.len() > 0,
        e.hash == fnv1a(e.key@),
        0 <= d < s.len(),
        p == probe(home(e.hash, s.len() as int), d, s.len() as int),
        forall|t: int|
            0 <= t < d ==> s[probe(home(e.hash, s.len() as int), t, s.len() as int)] is Some,
        s[p] is None ==> forall|i: int| !has_key(s, i, e.key@),
        s[p] is Some ==> s[p]->0.key@ == e.key@,
    ensures
        table_ok(s.update(p, Some(e))),
{
    let cap = s.len() as int;
    let u = s.update(p, Some(e));
    let start = home(e.hash, cap);
    lemma_probe_dist(start, cap);
    assert(0 <= p < cap);
    assert forall|i: int, j: int|
        0 <= i < cap && 0 <= j < cap && i != j && u[i] is Some && u[j] is Some implies #[trigger] u[i]->0.key@
        != #[trigger] u[j]->0.key@ by {
        if i == p {
            if s[p] is None {
                assert(!has_key(s, j, e.key@));
            } else {
                assert(s[p]->0.key@ != s[j]->0.key@);
            }
        } else if j == p {
            if s[p] is None {
                assert(!has_key(s, i, e.key@));
            } else {
                assert(s[i]->0.key@ != s[p]->0.key@);
            }
        } else {
            assert(s[i]->0.key@ != s[j]->0.key@);
        }
    }
    assert forall|i: int, t: int|
        0 <= i < cap && u[i] is Some && 0 <= t < dist(home(u[i]->0.hash, cap), i, cap) implies #[trigger] run_occupied(u, i, t) by {
        if i == p {
            assert(dist(start, p, cap) == d);
            assert(s[probe(start, t, cap)] is Some);
        } else {
            assert(run_occupied(s, i, t));
        }
    }
    assert forall|i: int| 0 <= i < cap && #[trigger] u[i] is Some implies u[i]->0.hash == fnv1a(
        u[i]->0.key@,
    ) by {
        if i != p {
            assert(s[i] is Some);
        }
    }
}

/// Growing the prefix of a well-formed table by one slot adds that slot's
/// entry, if any, to the mapping.
proof fn lemma_prefix_step<V>(s: Seq<Option<Entry<V>>>, j: int)
    requires
        table_ok(s),
        0 <= j < s.len(),
    ensures
        s[j] is Some ==> map_of(s.take(j + 1)) =~= map_of(s.take(j)).insert(
            s[j]->0.key@,
            s[j]->0.value,
        ),
        s[j] is Some ==> forall|i: int| !has_key(s.take(j), i, s[j]->0.key@),
        s[j] is None ==> map_of(s.take(j + 1)) =~= map_of(s.take(j)),
        count_some(s.take(j + 1)) == count_some(s.take(j)) + if s[j] is Some {
            1nat
        } else {
            0nat
        },
{
    let a = s.take(j);
    let b = s.take(j + 1);
    assert(b.drop_last() =~= a);
    if s[j] is Some {
        assert forall|i: int| !has_key(a, i, s[j]->0.key@) by {
            if has_key(a, i, s[j]->0.key@) {
                assert(s[i]->0.key@ != s[j]->0.key@);
            }
        }
        assert(b =~= a.push(s[j]));
    }
    let k = s[j]->0.key@;
    assert forall|q: Seq<u8>| #[trigger] map_of(b).contains_key(q) == (map_of(a).contains_key(q)
        || (s[j] is Some && q == k)) by {
        if map_of(b).contains_key(q) {
            let w = choose|w: int| has_key(b, w, q);
            if w != j {
                assert(has_key(a, w, q));
            }
        }
        if map_of(a).contains_key(q) {
            let w = choose|w: int| has_key(a, w, q);
            assert(has_key(b, w, q));
        }
        if s[j] is Some && q == k {
            assert(has_key(b, j, q));
        }
    }
    assert forall|q: Seq<u8>| #[trigger] map_of(b).contains_key(q) implies map_of(b)[q] == (if s[j] is Some && q == k {
        s[j]->0.value
    } else {
        map_of(a)[q]
    }) by {
        let c = choose|c: int| has_key(b, c, q);
        assert(has_key(b, c, q));
        if s[j] is Some && q == k {
            if c != j {
                assert(s[c]->0.key@ != s[j]->0.key@);
            }
        } else {
            assert(c != j);
            assert(has_key(a, c, q));
            let c0 = choose|c0: int| has_key(a, c0, q);
            assert(has_key(a, c0, q));
            if c0 != c {
                assert(s[c]->0.key@ != s[c0]->0.key@);
            }
        }
    }
}

proof fn lemma_mask_mod(x: u64, cap: u64, k: nat)
    requires
        cap as int == pow2(k),
        k < 64,
    ensures
        x & ((cap - 1) as u64) == x % cap,
{
    vstd::bits::lemma_u64_low_bits_mask_is_mod(x, k);
    vstd::arithmetic::power2::lemma_pow2_pos(k);
}

proof fn lemma_step_mod(i: int, cap: int)
    requires
        0 <= i < cap,
    ensures
        (i + 1) % cap == if i + 1 < cap {
            i + 1
        } else {
            0
        },
{
    if i + 1 < cap {
        vstd::arithmetic::div_mod::lemma_small_mod((i + 1) as nat, cap as nat);
    } else {
        vstd::arithmetic::div_mod::lemma_mod_self_0(cap);
    }
}

impl<V> IvarMap<V> {
    /// The stored names in the order of the slots that hold them.
    pub closed spec fn key_order(&self) -> Seq<Seq<u8>> {
        slot_keys(self.slots@)
    }

    /// Number of slots.
    pub closed spec fn slot_count(&self) -> nat {
        self.slots@.len()
    }

    /// The shape the table keeps once it holds anything: a power-of-two
    /// number of slots, less than seven tenths of them occupied, so linear
    /// probing always meets an empty slot.
    pub open spec fn table_shape_ok(&self) -> bool {
        &&& self.slot_count() > 0
        &&& exists|k: nat| 2 <= k < 64 && self.slot_count() == pow2(k)
        &&& self.count() * 10 < self.slot_count() * 7
    }

    /// Number of occupied slots.
    pub closed spec fn count(&self) -> nat {
        self.len as nat
    }

    /// The table invariant: capacity zero or a power of two, occupancy
    /// counted by `len` and below capacity, capacity at most four times one
    /// more than the occupancy, and a well-formed slot array.
    pub closed spec fn wf(&self) -> bool {
        let cap = self.slots@.len();
        &&& cap == 0 || exists|k: nat| 2 <= k < 64 && cap == pow2(k)
        &&& self.len == count_some(self.slots@)
        &&& cap > 0 ==> self.len < cap
        &&& cap <= 4 * (self.len + 1)
        &&& cap > 0 ==> self.len * 10 < cap * 7
        &&& table_ok(self.slots@)
    }

    /// An empty map.
    pub fn new() -> (r: Self)
        ensures
            r.wf(),
            r@ == Map::<Seq<u8>, V>::empty(),
            r.count() == 0,
    {
        let r = IvarMap { slots: Vec::new(), len: 0 };
        assert(map_of(r.slots@) =~= Map::<Seq<u8>, V>::empty());
        r
    }

    /// The value stored under `key`, looked up with its precomputed hash.
    pub fn get_hashed(&self, key: &str, hash: u64) -> (r: Option<&V>)
        requires
            self.wf(),
            hash == fnv1a(key.spec_bytes()),
        ensures
            match r {
                Some(v) => self@.contains_key(key.spec_bytes()) && *v == self@[key.spec_bytes()],
                None => !self@.contains_key(key.spec_bytes()),
            },
    {
        self.get_hashed_bytes(key.as_bytes(), hash)
    }

    /// The value stored under the name bytes `kb`, looked up with their
    /// precomputed hash.
    pub fn get_hashed_bytes(&self, kb: &[u8], hash: u64) -> (r: Option<&V>)
        requires
            self.wf(),
            hash == fnv1a(kb@),
        ensures
            match r {
                Some(v) => self@.contains_key(kb@) && *v == self@[kb@],
                None => !self@.contains_key(kb@),
            },
    {
        let cap = self.slots.len();
        if cap == 0 {
            assert(map_of(self.slots@) =~= Map::<Seq<u8>, V>::empty());
            return None;
        }
        let mask = cap - 1;
        let start = (hash & (mask as u64)) as usize;
        proof {
            let k = choose|k: nat| 2 <= k < 64 && cap == pow2(k);
            vstd::arithmetic::power2::lemma2_to64();
            lemma_mask_mod(hash, cap as u64, k);
            lemma_probe_dist(start as int, cap as int);
        }
        let mut i = start;
        let ghost mut d: int = 0;
        loop
            invariant
                self.wf(),
                cap == self.slots@.len(),
                cap > 0,
                mask == cap - 1,
                hash == fnv1a(kb@),
                start as int == home(hash, cap as int),
                0 <= start < cap,
                0 <= d < cap,
                i as int == probe(start as int, d, cap as int),
                forall|e: int|
                    0 <= e < d ==> self.slots@[probe(start as int, e, cap as int)] is Some
                        && self.slots@[probe(start as int, e, cap as int)]->0.key@ != kb@,
            decreases cap - d,
        {
            proof {
                lemma_probe_dist(start as int, cap as int);
            }
            match &self.slots[i] {
                Some(entry) => {
                    if entry.hash == hash && bytes_eq(entry.key.as_slice(), kb) {
                        proof {
                            lemma_lookup(self.slots@, i as int);
                        }
                        return Some(&entry.value);
                    }
                    let next = (i + 1) & mask;
                    proof {
                        let k = choose|k: nat| 2 <= k < 64 && cap == pow2(k);
                        vstd::arithmetic::power2::lemma2_to64();
                        lemma_mask_mod((i + 1) as u64, cap as u64, k);
                        assert(((i + 1) as usize) & mask == ((i + 1) as u64 & (mask as u64)) as usize)
                            by (bit_vector);
                        lemma_step_mod(i as int, cap as int);
                        d = d + 1;
                    }
                    if next == start {
                        proof {
                            lemma_run_absent(self.slots@, start as int, d, kb@);
                        }
                        return None;
                    }
                    i = next;
                },
                None => {
                    proof {
                        lemma_run_absent(self.slots@, start as int, d, kb@);
                    }
                    return None;
                },
            }
        }
    }

    /// The value stored under `key`.
    pub fn get(&self, key: &str) -> (r: Option<&V>)
        requires
            self.wf(),
        ensures
            match r {
                Some(v) => self@.contains_key(key.spec_bytes()) && *v == self@[key.spec_bytes()],
                None => !self@.contains_key(key.spec_bytes()),
            },
    {
        let hash = fnv_hash(key.as_bytes());
        self.get_hashed(key, hash)
    }

    /// The value stored under the name bytes `kb`.
    pub fn get_bytes(&self, kb: &[u8]) -> (r: Option<&V>)
        requires
            self.wf(),
        ensures
            match r {
                Some(v) => self@.contains_key(kb@) && *v == self@[kb@],
                None => !self@.contains_key(kb@),
            },
    {
        let hash = fnv_hash(kb);
        self.get_hashed_bytes(kb, hash)
    }

    /// Whether a value is stored under `key`.
    pub fn contains_key(&self, key: &str) -> (r: bool)
        requires
            self.wf(),
        ensures
            r == self@.contains_key(key.spec_bytes()),
    {
        self.get(key).is_some()
    }

    /// Puts `e` at the end of its probe run: over the entry with the same
    /// key, or into the first empty slot.
    fn place(&mut self, e: Entry<V>)
        requires
            table_ok(old(self).slots@),
            old(self).len == count_some(old(self).slots@),
            old(self).len + 1 < old(self).slots@.len(),
            e.hash == fnv1a(e.key@),
        ensures
            table_ok(final(self).slots@),
            final(self).len == count_some(final(self).slots@),
            final(self).slots@.len() == old(self).slots@.len(),
            final(self)@ == old(self)@.insert(e.key@, e.value),
            old(self)@.contains_key(e.key@) ==> final(self).len == old(self).len,
            !old(self)@.contains_key(e.key@) ==> final(self).len == old(self).len + 1,
    {
        let cap = self.slots.len();
        let ghost s0 = self.slots@;
        let start = (e.hash % (cap as u64)) as usize;
        proof {
            lemma_probe_dist(start as int, cap as int);
        }
        let mut i = start;
        let ghost mut d: int = 0;
        loop
            invariant
                self.slots@ == s0,
                s0 == old(self).slots@,
                self.len == old(self).len,
                table_ok(s0),
                self.len == count_some(s0),
                self.len + 1 < cap,
                cap == s0.len(),
                e.hash == fnv1a(e.key@),
                start as int == home(e.hash, cap as int),
                0 <= start < cap,
                0 <= d < cap,
                i as int == probe(start as int, d, cap as int),
                forall|t: int|
                    0 <= t < d ==> s0[probe(start as int, t, cap as int)] is Some
                        && s0[probe(start as int, t, cap as int)]->0.key@ != e.key@,
            decreases cap - d,
        {
            proof {
                lemma_probe_dist(start as int, cap as int);
            }
            let found = match &self.slots[i] {
                Some(entry) => entry.hash == e.hash && bytes_eq(entry.key.as_slice(), e.key.as_slice()),
                None => true,
            };
            if found {
                proof {
                    if s0[i as int] is None {
                        lemma_run_absent(s0, start as int, d, e.key@);
                        lemma_update_fresh(s0, i as int, e);
                    } else {
                        lemma_lookup(s0, i as int);
                        lemma_update_same(s0, i as int, e);
                    }
                    lemma_place_ok(s0, i as int, d, e);
                    lemma_count_update(s0, i as int, Some(e));
                }
                let fresh = self.slots[i].is_none();
                let ghost ge = e;
                self.slots.set(i, Some(e));
                assert(self.slots@ == s0.update(i as int, Some(ge)));
                if fresh {
                    self.len = self.len + 1;
                }
                return;
            }
            proof {
                lemma_step_mod(i as int, cap as int);
                d = d + 1;
                if d == cap {
                    assert forall|x: int| 0 <= x < cap implies s0[x] is Some by {
                        assert(s0[probe(start as int, dist(start as int, x, cap as int), cap as int)] is Some);
                    }
                    lemma_count_bound(s0);
                }
            }
            i = (i + 1) % cap;
        }
    }

    /// Doubles the capacity (or allocates four slots) and puts every entry
    /// back, in slot order.
    fn grow(&mut self)
        requires
            old(self).wf(),
            old(self).len < usize::MAX / 8,
            old(self).slots@.len() == 0 || (old(self).len + 1) * 10 >= old(self).slots@.len() * 7,
        ensures
            table_ok(final(self).slots@),
            final(self).len == count_some(final(self).slots@),
            final(self).len == old(self).len,
            final(self).slots@.len() == if old(self).slots@.len() == 0 {
                4
            } else {
                2 * old(self).slots@.len()
            },
            exists|k: nat| 2 <= k < 64 && final(self).slots@.len() == pow2(k),
            final(self)@ == old(self)@,
    {
        let ghost s0 = self.slots@;
        let ghost len0 = self.len;
        let cap0 = self.slots.len();
        proof {
            if cap0 > 0 {
                let k = choose|k: nat| 2 <= k < 64 && cap0 == pow2(k);
                vstd::arithmetic::power2::lemma2_to64();
                vstd::arithmetic::power2::lemma_pow2_unfold(k + 1);
                assert(2 * cap0 == pow2(k + 1));
                assert(2 * cap0 <= usize::MAX);
                if k + 1 >= 64 {
                    if k + 1 > 64 {
                        vstd::arithmetic::power2::lemma_pow2_strictly_increases(64, k + 1);
                    }
                    assert(pow2(64) == 0x1_0000_0000_0000_0000) by {
                        vstd::arithmetic::power2::lemma2_to64_rest();
                    }
                    assert(false);
                }
            } else {
                vstd::arithmetic::power2::lemma2_to64();
                assert(4 == pow2(2));
            }
        }
        let new_cap: usize = if cap0 == 0 {
            4
        } else {
            cap0 * 2
        };
        let mut old: Vec<Option<Entry<V>>> = Vec::new();
        while old.len() < new_cap
            invariant
                old.len() <= new_cap,
                forall|t: int| 0 <= t < old.len() ==> old@[t] is None,
            decreases new_cap - old.len(),
        {
            old.push(None);
        }
        std::mem::swap(&mut old, &mut self.slots);
        self.len = 0;
        proof {
            lemma_count_bound(self.slots@);
            assert forall|q: Seq<u8>| !(#[trigger] map_of(self.slots@).contains_key(q)) by {}
            assert(map_of(s0.take(0)) =~= map_of(self.slots@));
        }
        let mut j: usize = 0;
        while j < old.len()
            invariant
                old@.len() == s0.len(),
                j <= s0.len(),
                forall|t: int| j <= t < s0.len() ==> old@[t] == s0[t],
                table_ok(s0),
                len0 == count_some(s0),
                s0.len() == 0 || len0 < s0.len(),
                new_cap == if s0.len() == 0 {
                    4
                } else {
                    2 * s0.len()
                },
                self.slots@.len() == new_cap,
                table_ok(self.slots@),
                self.len == count_some(self.slots@),
                self.len == count_some(s0.take(j as int)),
                map_of(self.slots@) == map_of(s0.take(j as int)),
            decreases s0.len() - j,
        {
            let ghost before = old@;
            proof {
                lemma_prefix_step(s0, j as int);
                lemma_count_prefix(s0, j as int);
            }
            let slot = old[j].take();
            match slot {
                Some(e) => {
                    self.place(e);
                },
                None => {},
            }
            j += 1;
        }
        proof {
            assert(s0.take(s0.len() as int) =~= s0);
        }
    }

    /// Stores `value` under `key`, whose hash the caller has computed.
    pub fn insert_hashed(&mut self, key: &str, hash: u64, value: V)
        requires
            old(self).wf(),
            old(self).count() < usize::MAX / 8,
            hash == fnv1a(key.spec_bytes()),
        ensures
            final(self).wf(),
            final(self)@ == old(self)@.insert(key.spec_bytes(), value),
            final(self).count() <= old(self).count() + 1,
            final(self).table_shape_ok(),
    {
        self.insert_hashed_bytes(key.as_bytes(), hash, value);
    }

    /// Stores `value` under the name bytes `kb`, whose hash the caller has
    /// computed. The table grows (doubling, or to four slots) before the
    /// entry would bring it to seven tenths full.
    pub fn insert_hashed_bytes(&mut self, kb: &[u8], hash: u64, value: V)
        requires
            old(self).wf(),
            old(self).count() < usize::MAX / 8,
            hash == fnv1a(kb@),
        ensures
            final(self).wf(),
            final(self)@ == old(self)@.insert(kb@, value),
            final(self).count() <= old(self).count() + 1,
            final(self).table_shape_ok(),
    {
        let cap = self.slots.len();
        let ghost len0 = self.len;
        if cap == 0 || (self.len as u128 + 1) * 10 >= (cap as u128) * 7 {
            self.grow();
        }
        let kb = vstd::slice::slice_to_vec(kb);
        let ghost before = *self;
        proof {
            let c = self.slots@.len();
            assert(self.len == len0);
            assert((self.len + 1) * 10 < c * 7);
            assert(c <= 4 * (self.len + 1));
        }
        self.place(Entry { key: kb, hash, value });
        proof {
            assert(exists|k: nat| 2 <= k < 64 && before.slots@.len() == pow2(k));
        }
    }

    /// Stores `value` under `key`.
    pub fn insert(&mut self, key: &str, value: V)
        requires
            old(self).wf(),
            old(self).count() < usize::MAX / 8,
        ensures
            final(self).wf(),
            final(self)@ == old(self)@.insert(key.spec_bytes(), value),
            final(self).count() <= old(self).count() + 1,
            final(self).table_shape_ok(),
    {
        let hash = fnv_hash(key.as_bytes());
        self.insert_hashed(key, hash, value);
    }

    /// Stores `value` under the name bytes `kb`.
    pub fn insert_bytes(&mut self, kb: &[u8], value: V)
        requires
            old(self).wf(),
            old(self).count() < usize::MAX / 8,
        ensures
            final(self).wf(),
            final(self)@ == old(self)@.insert(kb@, value),
            final(self).count() <= old(self).count() + 1,
            final(self).table_shape_ok(),
    {
        let hash = fnv_hash(kb);
        self.insert_hashed_bytes(kb, hash, value);
    }

    /// The stored names, each once, in slot order.
    pub fn keys(&self) -> (r: Vec<Vec<u8>>)
        requires
            self.wf(),
        ensures
            forall|k: Seq<u8>|
                self@.contains_key(k) <==> exists|j: int| 0 <= j < r.len() && #[trigger] r@[j]@ == k,
            forall|a: int, b: int| 0 <= a < b < r.len() ==> r@[a]@ != r@[b]@,
            r@.len() == self.key_order().len(),
            forall|j: int| 0 <= j < r.len() ==> #[trigger] r@[j]@ == self.key_order()[j],
    {
        let ghost s = self.slots@;
        let mut r: Vec<Vec<u8>> = Vec::new();
        let ghost mut idx: Seq<int> = Seq::empty();
        let mut i: usize = 0;
        while i < self.slots.len()
            invariant
                s == self.slots@,
                table_ok(s),
                i <= s.len(),
                idx.len() == r.len(),
                forall|t: int|
                    0 <= t < idx.len() ==> 0 <= #[trigger] idx[t] < i && has_key(s, idx[t], r@[t]@),
                forall|a: int, b: int| 0 <= a < b < idx.len() ==> idx[a] < idx[b],
                forall|x: int|
                    0 <= x < i && #[trigger] s[x] is Some ==> exists|t: int|
                        0 <= t < idx.len() && idx[t] == x,
                r@.len() == slot_keys(s.take(i as int)).len(),
                forall|j: int| 0 <= j < r.len() ==> #[trigger] r@[j]@ == slot_keys(s.take(i as int))[j],
            decreases s.len() - i,
        {
            match &self.slots[i] {
                Some(entry) => {
                    let k = vstd::slice::slice_to_vec(entry.key.as_slice());
                    r.push(k);
                    proof {
                        let ghost old_idx = idx;
                        assert(forall|x: int|
                            0 <= x < i && #[trigger] s[x] is Some ==> exists|t: int|
                                0 <= t < old_idx.len() && old_idx[t] == x);
                        idx = idx.push(i as int);
                        assert forall|x: int|
                            0 <= x < i + 1 && #[trigger] s[x] is Some implies exists|t: int|
                                0 <= t < idx.len() && idx[t] == x by {
                            if x == i {
                                assert(idx[idx.len() - 1] == x);
                            } else {
                                assert(s[x] is Some);
                                let t = choose|t: int| 0 <= t < old_idx.len() && old_idx[t] == x;
                                assert(idx[t] == x);
                            }
                        }
                    }
                },
                None => {},
            }
            proof {
                assert(s.take(i + 1).drop_last() =~= s.take(i as int));
            }
            i += 1;
        }
        proof {
            assert(s.take(s.len() as int) =~= s);
            assert forall|k: Seq<u8>|
                self@.contains_key(k) <==> exists|j: int| 0 <= j < r.len() && #[trigger] r@[j]@ == k by {
                if self@.contains_key(k) {
                    let x = choose|x: int| has_key(s, x, k);
                    assert(s[x] is Some);
                    let t = choose|t: int| 0 <= t < idx.len() && idx[t] == x;
                    assert(r@[t]@ == k);
                }
                if exists|j: int| 0 <= j < r.len() && #[trigger] r@[j]@ == k {
                    let j = choose|j: int| 0 <= j < r.len() && #[trigger] r@[j]@ == k;
                    assert(has_key(s, idx[j], k));
                }
            }
            assert forall|a: int, b: int| 0 <= a < b < r.len() implies r@[a]@ != r@[b]@ by {
                assert(has_key(s, idx[a], r@[a]@));
                assert(has_key(s, idx[b], r@[b]@));
                assert(s[idx[a]]->0.key@ != s[idx[b]]->0.key@);
            }
        }
        r
    }
}

impl<V> Default for IvarMap<V> {
    fn default() -> (r: Self)
        ensures
            r.wf(),
            r@ == Map::<Seq<u8>, V>::empty(),
            r.count() == 0,
    {
        Self::new()
    }
}

/// A lookup after `insert(key, value)` finds `value` under `key`, and every
/// other name keeps what it had.
pub proof fn law_lookup_after_insert<V>(
    before: IvarMap<V>,
    after: IvarMap<V>,
    key: Seq<u8>,
    value: V,
    other: Seq<u8>,
)
    requires
        after@ == before@.insert(key, value),
    ensures
        after@.contains_key(key),
        after@[key] == value,
        other != key ==> after@.contains_key(other) == before@.contains_key(other),
        other != key && before@.contains_key(other) ==> after@[other] == before@[other],
{
}

} // verus!
