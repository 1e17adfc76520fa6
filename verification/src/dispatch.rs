//! Method dispatch over a class table held as plain values: the lookup
//! chain of a class (its module, its mixins depth first, the modules a
//! singleton was extended with, then its superclass's chain, each module
//! once), the method a send reaches (or `method_missing`), the send-site
//! cache, and the method `super` reaches.

use vstd::prelude::*;
use crate::value::SendLayout;

verus! {

/// A module: its methods (method name id, method id) and the modules mixed
/// into it, in order.
pub struct ModuleInfo {
    pub methods: Vec<(u32, usize)>,
    pub mixins: Vec<usize>,
}

/// A class: the module holding its methods, whether it is a singleton
/// class, the modules a singleton was extended with, and its superclass.
pub struct ClassInfo {
    pub module: usize,
    pub is_singleton: bool,
    pub extended: Vec<usize>,
    pub superclass: Option<usize>,
}

/// Modules and classes, numbered by their position. A superclass is defined
/// before its subclass, so it has the smaller number.
pub struct ClassTable {
    pub modules: Vec<ModuleInfo>,
    pub classes: Vec<ClassInfo>,
}

impl ClassTable {
    /// Every reference names an existing module or an earlier class.
    pub open spec fn wf(&self) -> bool {
        let nm = self.modules@.len();
        &&& forall|m: int, j: int|
            0 <= m < nm && 0 <= j < self.modules@[m].mixins@.len() ==> #[trigger] self.modules@[m].mixins@[j]
                < nm
        &&& forall|c: int|
            0 <= c < self.classes@.len() ==> (#[trigger] self.classes@[c]).module < nm && (
            self.classes@[c].superclass matches Some(p) ==> p < c) && forall|j: int|
                0 <= j < self.classes@[c].extended@.len() ==> #[trigger] self.classes@[c].extended@[j]
                    < nm
    }
}

/// The lookup walk: the chain so far and which modules it holds.
pub type Walk = (Seq<usize>, Seq<bool>);

/// Visiting module `m`: unless already on the chain, it joins the chain and
/// its mixins are visited in order. `fuel` bounds the nesting; it never runs
/// out when it is at least the number of modules.
pub open spec fn walk_module(t: ClassTable, m: int, st: Walk, fuel: nat) -> Walk
    decreases fuel, 0int, 0int,
{
    if fuel == 0 || !(0 <= m < st.1.len()) || !(0 <= m < t.modules@.len()) || st.1[m] {
        st
    } else {
        walk_list(
            t,
            t.modules@[m].mixins@,
            0,
            (st.0.push(m as usize), st.1.update(m, true)),
            (fuel - 1) as nat,
        )
    }
}

/// Visiting the modules `list[i..]` in order.
pub open spec fn walk_list(t: ClassTable, list: Seq<usize>, i: int, st: Walk, fuel: nat) -> Walk
    decreases fuel, 1int, list.len() - i,
{
    if i < 0 || i >= list.len() {
        st
    } else {
        walk_list(t, list, i + 1, walk_module(t, list[i] as int, st, fuel), fuel)
    }
}

/// Visiting class `c`: its module, then (for a singleton) the modules it was
/// extended with, then its superclass.
pub open spec fn walk_class(t: ClassTable, c: int, st: Walk) -> Walk
    decreases c,
{
    if !(0 <= c < t.classes@.len()) {
        st
    } else {
        let info = t.classes@[c];
        let fuel = t.modules@.len();
        let s1 = walk_module(t, info.module as int, st, fuel);
        let s2 = if info.is_singleton {
            walk_list(t, info.extended@, 0, s1, fuel)
        } else {
            s1
        };
        match info.superclass {
            Some(p) => if p < c {
                walk_class(t, p as int, s2)
            } else {
                s2
            },
            None => s2,
        }
    }
}

/// The lookup chain of class `c`: each module once, in the order a method
/// lookup tries them.
pub open spec fn lookup_chain(t: ClassTable, c: int) -> Seq<usize> {
    walk_class(t, c, (Seq::empty(), Seq::new(t.modules@.len(), |i: int| false))).0
}

fn walk_module_exec(t: &ClassTable, m: usize, chain: &mut Vec<usize>, visited: &mut Vec<bool>, fuel: usize)
    requires
        t.wf(),
        old(visited)@.len() == t.modules@.len(),
    ensures
        (final(chain)@, final(visited)@) == walk_module(*t, m as int, (old(chain)@, old(visited)@), fuel as nat),
        final(visited)@.len() == old(visited)@.len(),
    decreases fuel, 0int, 0int,
{
    if fuel == 0 || m >= visited.len() || visited[m] {
        return;
    }
    chain.push(m);
    visited.set(m, true);
    walk_list_exec(t, &t.modules[m].mixins, 0, chain, visited, fuel - 1);
}

fn walk_list_exec(
    t: &ClassTable,
    list: &Vec<usize>,
    i: usize,
    chain: &mut Vec<usize>,
    visited: &mut Vec<bool>,
    fuel: usize,
)
    requires
        t.wf(),
        old(visited)@.len() == t.modules@.len(),
    ensures
        (final(chain)@, final(visited)@) == walk_list(*t, list@, i as int, (old(chain)@, old(visited)@), fuel as nat),
        final(visited)@.len() == old(visited)@.len(),
    decreases fuel, 1int, list@.len() - i,
{
    if i >= list.len() {
        return;
    }
    walk_module_exec(t, list[i], chain, visited, fuel);
    walk_list_exec(t, list, i + 1, chain, visited, fuel);
}

fn walk_class_exec(t: &ClassTable, c: usize, chain: &mut Vec<usize>, visited: &mut Vec<bool>)
    requires
        t.wf(),
        old(visited)@.len() == t.modules@.len(),
    ensures
        (final(chain)@, final(visited)@) == walk_class(*t, c as int, (old(chain)@, old(visited)@)),
        final(visited)@.len() == old(visited)@.len(),
    decreases c,
{
    if c >= t.classes.len() {
        return;
    }
    let info = &t.classes[c];
    let fuel = t.modules.len();
    walk_module_exec(t, info.module, chain, visited, fuel);
    if info.is_singleton {
        walk_list_exec(t, &info.extended, 0, chain, visited, fuel);
    }
    match info.superclass {
        Some(p) => if p < c {
            walk_class_exec(t, p, chain, visited);
        },
        None => {},
    }
}

/// The lookup chain of class `c`.
pub fn build_lookup_chain(t: &ClassTable, c: usize) -> (r: Vec<usize>)
    requires
        t.wf(),
    ensures
        r@ == lookup_chain(*t, c as int),
{
    let mut chain: Vec<usize> = Vec::new();
    let mut visited: Vec<bool> = Vec::new();
    while visited.len() < t.modules.len()
        invariant
            visited.len() <= t.modules.len(),
            forall|i: int| 0 <= i < visited.len() ==> !visited@[i],
        decreases t.modules.len() - visited.len(),
    {
        visited.push(false);
    }
    assert(visited@ =~= Seq::new(t.modules@.len(), |i: int| false));
    walk_class_exec(t, c, &mut chain, &mut visited);
    chain
}

/// The method module `m` defines under `name`: the first entry of its table
/// with that name.
pub open spec fn method_in(methods: Seq<(u32, usize)>, name: u32, from: int) -> Option<usize>
    decreases methods.len() - from,
{
    if from < 0 || from >= methods.len() {
        None
    } else if methods[from].0 == name {
        Some(methods[from].1)
    } else {
        method_in(methods, name, from + 1)
    }
}

/// The first module of `chain[from..]` that defines `name`, with the method.
pub open spec fn resolve_in(t: ClassTable, chain: Seq<usize>, name: u32, from: int) -> Option<(usize, usize)>
    decreases chain.len() - from,
{
    if from < 0 || from >= chain.len() {
        None
    } else {
        let m = chain[from] as int;
        match if 0 <= m < t.modules@.len() {
            method_in(t.modules@[m].methods@, name, 0)
        } else {
            None
        } {
            Some(f) => Some((chain[from], f)),
            None => resolve_in(t, chain, name, from + 1),
        }
    }
}

fn method_in_exec(methods: &Vec<(u32, usize)>, name: u32) -> (r: Option<usize>)
    ensures
        r == method_in(methods@, name, 0),
{
    let mut i: usize = 0;
    while i < methods.len()
        invariant
            i <= methods.len(),
            method_in(methods@, name, 0) == method_in(methods@, name, i as int),
        decreases methods.len() - i,
    {
        if methods[i].0 == name {
            return Some(methods[i].1);
        }
        i += 1;
    }
    None
}

fn resolve_in_exec(t: &ClassTable, chain: &Vec<usize>, name: u32, from: usize) -> (r: Option<(usize, usize)>)
    ensures
        r == resolve_in(*t, chain@, name, from as int),
{
    let mut i: usize = from;
    while i < chain.len()
        invariant
            from <= i <= chain.len() || (i == from && from > chain.len()),
            resolve_in(*t, chain@, name, from as int) == resolve_in(*t, chain@, name, i as int),
        decreases chain.len() - i,
    {
        let m = chain[i];
        let found = if m < t.modules.len() {
            method_in_exec(&t.modules[m].methods, name)
        } else {
            None
        };
        match found {
            Some(f) => {
                return Some((m, f));
            },
            None => {},
        }
        i += 1;
    }
    None
}

/// `Class#instance_method`-style lookup: the module and method a call of
/// `name` on an instance of class `c` reaches, if any.
pub fn resolve_method(t: &ClassTable, c: usize, name: u32) -> (r: Option<(usize, usize)>)
    requires
        t.wf(),
    ensures
        r == resolve_in(*t, lookup_chain(*t, c as int), name, 0),
{
    let chain = build_lookup_chain(t, c);
    resolve_in_exec(t, &chain, name, 0)
}

/// Position of `owner` in `chain`, from `from` on.
pub open spec fn index_in(chain: Seq<usize>, owner: usize, from: int) -> Option<int>
    decreases chain.len() - from,
{
    if from < 0 || from >= chain.len() {
        None
    } else if chain[from] == owner {
        Some(from)
    } else {
        index_in(chain, owner, from + 1)
    }
}

/// What `super` reaches from a method that `owner` defines, called on an
/// instance of `c`: the first module after `owner` in the lookup chain that
/// defines `name`; nothing when `owner` is not on the chain.
pub open spec fn spec_resolve_next(t: ClassTable, c: int, name: u32, owner: usize) -> Option<(usize, usize)> {
    let chain = lookup_chain(t, c);
    match index_in(chain, owner, 0) {
        Some(i) => resolve_in(t, chain, name, i + 1),
        None => None,
    }
}

pub fn resolve_next_method(t: &ClassTable, c: usize, name: u32, owner: usize) -> (r: Option<(usize, usize)>)
    requires
        t.wf(),
    ensures
        r == spec_resolve_next(*t, c as int, name, owner),
{
    let chain = build_lookup_chain(t, c);
    let mut i: usize = 0;
    while i < chain.len()
        invariant
            i <= chain.len(),
            chain@ == lookup_chain(*t, c as int),
            index_in(chain@, owner, 0) == index_in(chain@, owner, i as int),
        decreases chain.len() - i,
    {
        if chain[i] == owner {
            return resolve_in_exec(t, &chain, name, i + 1);
        }
        i += 1;
    }
    None
}

/// A send-site cache entry: the method version and receiver class it was
/// filled under, and the module and method it found.
#[derive(Debug, Clone, Copy, PartialEq, Eq, Structural)]
pub struct CacheEntry {
    pub version: u64,
    pub class: usize,
    pub owner: usize,
    pub method: usize,
}

/// How a send proceeds.
#[derive(Debug, Clone, Copy, PartialEq, Eq, Structural)]
pub enum SendTarget {
    /// The cached method, still valid.
    Cached { owner: usize, method: usize },
    /// The method found by lookup; the site's cache takes it.
    Found { owner: usize, method: usize },
    /// No method of that name: `method_missing` runs with the name
    /// prepended, so one more positional argument.
    MethodMissing { owner: usize, method: usize, n: usize },
    /// Not even `method_missing` is defined (an interpreter error).
    NoMethodMissing,
}

/// The plan of one send: where it goes, and whether the inline numeric fast
/// path may run (the site's cache slot was filled, with no keywords and no
/// block).
#[derive(Debug, Clone, Copy, PartialEq, Eq, Structural)]
pub struct SendPlan {
    pub target: SendTarget,
    pub fast_path: bool,
}

pub open spec fn spec_resolve_send(
    t: ClassTable,
    c: int,
    name: u32,
    missing: u32,
    l: SendLayout,
    has_block: bool,
    slot: Option<CacheEntry>,
    version: u64,
) -> SendPlan {
    let chain = lookup_chain(t, c);
    let target = match slot {
        Some(e) => if e.version == version && e.class as int == c {
            SendTarget::Cached { owner: e.owner, method: e.method }
        } else {
            lookup_target(t, chain, name, missing, l)
        },
        None => lookup_target(t, chain, name, missing, l),
    };
    SendPlan { target, fast_path: slot is Some && l.k == 0 && !has_block }
}

pub open spec fn lookup_target(t: ClassTable, chain: Seq<usize>, name: u32, missing: u32, l: SendLayout) -> SendTarget {
    match resolve_in(t, chain, name, 0) {
        Some((o, f)) => SendTarget::Found { owner: o, method: f },
        None => match resolve_in(t, chain, missing, 0) {
            Some((o, f)) => SendTarget::MethodMissing { owner: o, method: f, n: (l.n + 1) as usize },
            None => SendTarget::NoMethodMissing,
        },
    }
}

/// Resolves a send of `name` (laid out as `l`) to an instance of class `c`,
/// with the site's cache `slot` and the current method `version`; `missing`
/// is the name id of `method_missing`.
pub fn resolve_send(
    t: &ClassTable,
    c: usize,
    name: u32,
    missing: u32,
    l: SendLayout,
    has_block: bool,
    slot: Option<CacheEntry>,
    version: u64,
) -> (r: SendPlan)
    requires
        t.wf(),
        l.n < usize::MAX,
    ensures
        r == spec_resolve_send(*t, c as int, name, missing, l, has_block, slot, version),
{
    let fast_path = slot.is_some() && l.k == 0 && !has_block;
    let hit = match slot {
        Some(e) => if e.version == version && e.class == c {
            Some(SendTarget::Cached { owner: e.owner, method: e.method })
        } else {
            None
        },
        None => None,
    };
    let target = match hit {
        Some(h) => h,
        None => {
            let chain = build_lookup_chain(t, c);
            match resolve_in_exec(t, &chain, name, 0) {
                Some((o, f)) => SendTarget::Found { owner: o, method: f },
                None => match resolve_in_exec(t, &chain, missing, 0) {
                    Some((o, f)) => SendTarget::MethodMissing { owner: o, method: f, n: l.n + 1 },
                    None => SendTarget::NoMethodMissing,
                },
            }
        },
    };
    SendPlan { target, fast_path }
}

/// The cache entry a send leaves at its site: a method found by lookup is
/// recorded; a cached or `method_missing` target leaves the slot as it was.
pub open spec fn spec_cache_after(plan: SendPlan, slot: Option<CacheEntry>, c: usize, version: u64) -> Option<CacheEntry> {
    match plan.target {
        SendTarget::Found { owner, method } => Some(CacheEntry { version, class: c, owner, method }),
        _ => slot,
    }
}

pub fn cache_after(plan: SendPlan, slot: Option<CacheEntry>, c: usize, version: u64) -> (r: Option<CacheEntry>)
    ensures
        r == spec_cache_after(plan, slot, c, version),
{
    match plan.target {
        SendTarget::Found { owner, method } => Some(CacheEntry { version, class: c, owner, method }),
        _ => slot,
    }
}

/// A cache entry is only ever used for the class and method version it was
/// filled under, and it then names what lookup found at that time.
pub proof fn law_cache_hit_matches_lookup(
    t: ClassTable,
    c: int,
    name: u32,
    missing: u32,
    l: SendLayout,
    has_block: bool,
    v: u64,
    c2: int,
    v2: u64,
)
    requires
        0 <= c,
        c <= usize::MAX,
        spec_resolve_send(t, c, name, missing, l, has_block, None, v).target is Found,
    ensures
        ({
            let first = spec_resolve_send(t, c, name, missing, l, has_block, None, v);
            let entry = spec_cache_after(first, None, c as usize, v);
            let again = spec_resolve_send(t, c2, name, missing, l, has_block, entry, v2);
            &&& (c2 == c && v2 == v) ==> again.target == (SendTarget::Cached {
                owner: first.target->Found_owner,
                method: first.target->Found_method,
            })
            &&& !(c2 == c && v2 == v) ==> again.target == lookup_target(t, lookup_chain(t, c2), name, missing, l)
        }),
{
}

/// A walk state is consistent: the chain holds no module twice and every
/// module on it is marked.
pub open spec fn walk_ok(st: Walk) -> bool {
    &&& forall|i: int, j: int| 0 <= i < j < st.0.len() ==> st.0[i] != st.0[j]
    &&& forall|i: int| 0 <= i < st.0.len() ==> (#[trigger] st.0[i]) < st.1.len() && st.1[st.0[i] as int]
}

proof fn lemma_walk_module(t: ClassTable, m: int, st: Walk, fuel: nat)
    requires
        walk_ok(st),
        st.1.len() <= usize::MAX,
    ensures
        walk_ok(walk_module(t, m, st, fuel)),
        walk_module(t, m, st, fuel).1.len() == st.1.len(),
    decreases fuel, 0int, 0int,
{
    if !(fuel == 0 || !(0 <= m < st.1.len()) || !(0 <= m < t.modules@.len()) || st.1[m]) {
        let st2 = (st.0.push(m as usize), st.1.update(m, true));
        assert forall|i: int, j: int| 0 <= i < j < st2.0.len() implies st2.0[i] != st2.0[j] by {
            assert(st2.0[i] == st.0[i]);
            if j == st.0.len() {
                assert(st2.0[j] == m as usize);
                assert(st.0[i] < st.1.len() && st.1[st.0[i] as int]);
            } else {
                assert(st2.0[j] == st.0[j]);
            }
        }
        assert forall|i: int| 0 <= i < st2.0.len() implies (#[trigger] st2.0[i]) < st2.1.len() && st2.1[st2.0[i] as int] by {
            if i < st.0.len() {
                assert(st2.0[i] == st.0[i]);
                assert(st.0[i] < st.1.len() && st.1[st.0[i] as int]);
            } else {
                assert(st2.0[i] == m as usize);
            }
        }
        lemma_walk_list(t, t.modules@[m].mixins@, 0, st2, (fuel - 1) as nat);
    }
}

proof fn lemma_walk_list(t: ClassTable, list: Seq<usize>, i: int, st: Walk, fuel: nat)
    requires
        walk_ok(st),
        st.1.len() <= usize::MAX,
    ensures
        walk_ok(walk_list(t, list, i, st, fuel)),
        walk_list(t, list, i, st, fuel).1.len() == st.1.len(),
    decreases fuel, 1int, list.len() - i,
{
    if !(i < 0 || i >= list.len()) {
        lemma_walk_module(t, list[i] as int, st, fuel);
        lemma_walk_list(t, list, i + 1, walk_module(t, list[i] as int, st, fuel), fuel);
    }
}

proof fn lemma_walk_class(t: ClassTable, c: int, st: Walk)
    requires
        walk_ok(st),
        st.1.len() <= usize::MAX,
    ensures
        walk_ok(walk_class(t, c, st)),
        walk_class(t, c, st).1.len() == st.1.len(),
    decreases c,
{
    if 0 <= c < t.classes@.len() {
        let info = t.classes@[c];
        let fuel = t.modules@.len();
        lemma_walk_module(t, info.module as int, st, fuel);
        let s1 = walk_module(t, info.module as int, st, fuel);
        if info.is_singleton {
            lemma_walk_list(t, info.extended@, 0, s1, fuel);
        }
        let s2 = if info.is_singleton {
            walk_list(t, info.extended@, 0, s1, fuel)
        } else {
            s1
        };
        if let Some(p) = info.superclass {
            if p < c {
                lemma_walk_class(t, p as int, s2);
            }
        }
    }
}

/// The lookup chain of a class names each module at most once.
pub proof fn law_lookup_chain_has_no_repeats(t: ClassTable, c: int, i: int, j: int)
    requires
        t.modules@.len() <= usize::MAX,
        0 <= i < j < lookup_chain(t, c).len(),
    ensures
        lookup_chain(t, c)[i] != lookup_chain(t, c)[j],
{
    lemma_walk_class(t, c, (Seq::empty(), Seq::new(t.modules@.len(), |k: int| false)));
}

} // verus!

