//! Modules and substrate records.
//!
//! A population is stored coarsely as modules, patterns of disposition, and
//! a record of aggregate attributes selects the modules it falls in. Modules
//! are patterns, never persons.

use vstd::prelude::*;
use crate::graph::{ContactGraph, Position, contains, increasing, sorted_positions};
use crate::text::same_text;

verus! {

broadcast use vstd::seq_lib::group_seq_properties;

/// Whether no two entries share a key.
pub open spec fn distinct_keys(es: Seq<(String, String)>) -> bool {
    forall|i: int, j: int| 0 <= i < j < es.len() ==> (#[trigger] es[i]).0@ != (#[trigger] es[j]).0@
}

/// Whether some entry has key `k`.
pub open spec fn has_key(es: Seq<(String, String)>, k: Seq<char>) -> bool {
    exists|i: int| 0 <= i < es.len() && (#[trigger] es[i]).0@ == k
}

/// The entries as a map from key to value.
pub open spec fn map_of(es: Seq<(String, String)>) -> Map<Seq<char>, Seq<char>> {
    Map::new(
        |k: Seq<char>| has_key(es, k),
        |k: Seq<char>| es[choose|i: int| 0 <= i < es.len() && (#[trigger] es[i]).0@ == k].1@,
    )
}

proof fn lemma_value_at(es: Seq<(String, String)>, i: int)
    requires
        distinct_keys(es),
        0 <= i < es.len(),
    ensures
        map_of(es).dom().contains(es[i].0@),
        map_of(es)[es[i].0@] == es[i].1@,
{
    let k = es[i].0@;
    assert(has_key(es, k));
    let j = choose|j: int| 0 <= j < es.len() && (#[trigger] es[j]).0@ == k;
    if j != i {
        if j < i {
            assert(es[j].0@ != es[i].0@);
        } else {
            assert(es[i].0@ != es[j].0@);
        }
    }
}

/// Attribute values by key: at most one value per key, the keys in the
/// order they were first set.
#[derive(Debug)]
pub struct Attributes {
    entries: Vec<(String, String)>,
}

impl Attributes {
    #[verifier::type_invariant]
    closed spec fn keyed(&self) -> bool {
        distinct_keys(self.entries@)
    }

    /// The entries, in the order their keys were first set.
    pub closed spec fn pairs(&self) -> Seq<(String, String)> {
        self.entries@
    }

    /// The attributes as a map.
    pub open spec fn view_map(&self) -> Map<Seq<char>, Seq<char>> {
        map_of(self.pairs())
    }

    /// No attributes.
    pub fn new() -> (a: Self)
        ensures
            a.pairs() == Seq::<(String, String)>::empty(),
            a.view_map() == Map::<Seq<char>, Seq<char>>::empty(),
    {
        let a = Attributes { entries: Vec::new() };
        assert(a.view_map() =~= Map::<Seq<char>, Seq<char>>::empty());
        a
    }

    fn find(&self, key: &str) -> (r: Option<usize>)
        ensures
            match r {
                Some(i) => i < self.pairs().len() && self.pairs()[i as int].0@ == key@,
                None => !has_key(self.pairs(), key@),
            },
    {
        let mut i: usize = 0;
        while i < self.entries.len()
            invariant
                i <= self.entries@.len(),
                forall|j: int| 0 <= j < i ==> (#[trigger] self.entries@[j]).0@ != key@,
            decreases self.entries@.len() - i,
        {
            if same_text(self.entries[i].0.as_str(), key) {
                return Some(i);
            }
            i += 1;
        }
        None
    }

    /// The value under `key`, if any.
    pub fn get(&self, key: &str) -> (v: Option<&String>)
        ensures
            match v {
                Some(s) => self.view_map().dom().contains(key@) && self.view_map()[key@] == s@,
                None => !self.view_map().dom().contains(key@),
            },
    {
        proof { use_type_invariant(self); }
        match self.find(key) {
            Some(i) => {
                proof { lemma_value_at(self.entries@, i as int); }
                Some(&self.entries[i].1)
            },
            None => None,
        }
    }

    /// Whether `key` has a value.
    pub fn contains_key(&self, key: &str) -> (b: bool)
        ensures
            b == self.view_map().dom().contains(key@),
    {
        self.find(key).is_some()
    }

    /// How many keys have a value.
    pub fn len(&self) -> (n: usize)
        ensures
            n == self.pairs().len(),
    {
        self.entries.len()
    }

    /// Whether no key has a value.
    pub fn is_empty(&self) -> (b: bool)
        ensures
            b == (self.pairs().len() == 0),
    {
        self.entries.len() == 0
    }

    /// Every entry, in the order its key was first set.
    pub fn entries(&self) -> (es: &[(String, String)])
        ensures
            es@ == self.pairs(),
    {
        self.entries.as_slice()
    }

    /// Set `key` to `value`. A key already present keeps its place and
    /// takes the new value; a new key goes last.
    pub fn insert(&mut self, key: String, value: String)
        ensures
            final(self).view_map() == old(self).view_map().insert(key@, value@),
            has_key(old(self).pairs(), key@) ==> final(self).pairs().len() == old(self).pairs().len(),
            !has_key(old(self).pairs(), key@) ==> final(self).pairs() == old(self).pairs().push((key, value)),
    {
        proof { use_type_invariant(&*self); }
        let ghost before = self.entries@;
        match self.find(key.as_str()) {
            Some(i) => {
                let mut current = Attributes { entries: Vec::new() };
                std::mem::swap(&mut current, self);
                let mut entries = current.entries;
                entries.set(i, (key, value));
                proof {
                    assert(distinct_keys(entries@)) by {
                        assert forall|a: int, b: int| 0 <= a < b < entries@.len() implies (#[trigger] entries@[a]).0@ != (#[trigger] entries@[b]).0@ by {
                            assert(before[a].0@ != before[b].0@);
                        }
                    }
                    assert(map_of(entries@) =~= map_of(before).insert(key@, value@)) by {
                        assert forall|k: Seq<char>| #[trigger] map_of(entries@).dom().contains(k) <==> map_of(before).insert(key@, value@).dom().contains(k) by {
                            if has_key(entries@, k) {
                                let j = choose|j: int| 0 <= j < entries@.len() && (#[trigger] entries@[j]).0@ == k;
                                if j != i {
                                    assert(before[j].0@ == k);
                                }
                            }
                            if has_key(before, k) {
                                let j = choose|j: int| 0 <= j < before.len() && (#[trigger] before[j]).0@ == k;
                                assert(entries@[j].0@ == k);
                            }
                        }
                        assert forall|k: Seq<char>| #[trigger] map_of(entries@).dom().contains(k) implies map_of(entries@)[k] == map_of(before).insert(key@, value@)[k] by {
                            let j = choose|j: int| 0 <= j < entries@.len() && (#[trigger] entries@[j]).0@ == k;
                            lemma_value_at(entries@, j);
                            if j != i {
                                lemma_value_at(before, j);
                            }
                        }
                    }
                }
                *self = Attributes { entries };
            },
            None => {
                let mut current = Attributes { entries: Vec::new() };
                std::mem::swap(&mut current, self);
                let mut entries = current.entries;
                entries.push((key, value));
                proof {
                    let n = before.len() as int;
                    assert(distinct_keys(entries@)) by {
                        assert forall|a: int, b: int| 0 <= a < b < entries@.len() implies (#[trigger] entries@[a]).0@ != (#[trigger] entries@[b]).0@ by {
                            if b == n {
                                assert(entries@[a] == before[a]);
                            }
                        }
                    }
                    assert(map_of(entries@) =~= map_of(before).insert(key@, value@)) by {
                        assert forall|k: Seq<char>| #[trigger] map_of(entries@).dom().contains(k) <==> map_of(before).insert(key@, value@).dom().contains(k) by {
                            if has_key(entries@, k) {
                                let j = choose|j: int| 0 <= j < entries@.len() && (#[trigger] entries@[j]).0@ == k;
                                if j != n {
                                    assert(before[j].0@ == k);
                                }
                            }
                            if has_key(before, k) {
                                let j = choose|j: int| 0 <= j < before.len() && (#[trigger] before[j]).0@ == k;
                                assert(entries@[j].0@ == k);
                            }
                            if k == key@ {
                                assert(entries@[n].0@ == k);
                            }
                        }
                        assert forall|k: Seq<char>| #[trigger] map_of(entries@).dom().contains(k) implies map_of(entries@)[k] == map_of(before).insert(key@, value@)[k] by {
                            let j = choose|j: int| 0 <= j < entries@.len() && (#[trigger] entries@[j]).0@ == k;
                            lemma_value_at(entries@, j);
                            if j != n {
                                lemma_value_at(before, j);
                            }
                        }
                    }
                }
                *self = Attributes { entries };
            },
        }
    }
}

/// A record drawn from the substrate: the aggregate attributes against
/// which modules are matched. Coarse, and never an identifier.
pub type SubstrateRecord = Attributes;

/// A thought-pattern region: a class of disposition, not a person.
#[derive(Debug)]
pub struct Module {
    /// Stable handle.
    pub name: String,
    /// The positions this pattern spans in the shared graph.
    pub members: Vec<Position>,
    /// Attribute constraints a record must satisfy to match, as
    /// `(key, allowed values)`. All constraints must hold.
    pub matches: Vec<(String, Vec<String>)>,
}

/// Whether one of `allowed` is `v`.
pub open spec fn allows(allowed: Seq<String>, v: Seq<char>) -> bool {
    exists|j: int| 0 <= j < allowed.len() && (#[trigger] allowed[j])@ == v
}

/// Whether a record with attributes `r` satisfies every constraint.
pub open spec fn satisfies(matches: Seq<(String, Vec<String>)>, r: Map<Seq<char>, Seq<char>>) -> bool {
    forall|i: int| 0 <= i < matches.len() ==> {
        &&& r.dom().contains((#[trigger] matches[i]).0@)
        &&& allows(matches[i].1@, r[matches[i].0@])
    }
}

fn allowed_in(allowed: &Vec<String>, v: &String) -> (b: bool)
    ensures
        b == allows(allowed@, v@),
{
    let mut j: usize = 0;
    while j < allowed.len()
        invariant
            j <= allowed@.len(),
            forall|t: int| 0 <= t < j ==> (#[trigger] allowed@[t])@ != v@,
        decreases allowed@.len() - j,
    {
        if allowed[j] == *v {
            return true;
        }
        j += 1;
    }
    false
}

impl Module {
    /// Whether a substrate record falls in this pattern: every constraint's
    /// key has a value in the record, and the value is one it allows.
    pub fn admits(&self, record: &SubstrateRecord) -> (b: bool)
        ensures
            b == satisfies(self.matches@, record.view_map()),
    {
        let mut i: usize = 0;
        while i < self.matches.len()
            invariant
                i <= self.matches@.len(),
                satisfies(self.matches@.take(i as int), record.view_map()),
            decreases self.matches@.len() - i,
        {
            let ok = match record.get(self.matches[i].0.as_str()) {
                Some(v) => allowed_in(&self.matches[i].1, v),
                None => false,
            };
            if !ok {
                assert(!satisfies(self.matches@, record.view_map())) by {
                    assert(self.matches@[i as int] == self.matches@[i as int]);
                }
                return false;
            }
            proof {
                assert forall|t: int| 0 <= t < i + 1 implies {
                    &&& record.view_map().dom().contains((#[trigger] self.matches@.take(i + 1)[t]).0@)
                    &&& allows(self.matches@.take(i + 1)[t].1@, record.view_map()[self.matches@.take(i + 1)[t].0@])
                } by {
                    if t < i {
                        assert(self.matches@.take(i + 1)[t] == self.matches@.take(i as int)[t]);
                    }
                }
            }
            i += 1;
        }
        assert(self.matches@.take(self.matches@.len() as int) =~= self.matches@);
        true
    }
}

/// The coarse population, plus the shared graph individuals are cut from.
#[derive(Debug)]
pub struct Population<W> {
    /// The modules covering this city.
    pub modules: Vec<Module>,
    /// The shared contact graph.
    pub shared: ContactGraph<W>,
}

impl<W> Population<W> {
    /// Names of the modules a record falls in, in module order. A session
    /// may show which patterns were in play without exposing an identity.
    pub fn matching_modules(&self, record: &SubstrateRecord) -> (names: Vec<&str>)
        ensures
            names@.map_values(|s: &str| s@) == self.modules@.filter(|m: Module| satisfies(m.matches@, record.view_map())).map_values(|m: Module| m.name@),
    {
        let mut out: Vec<&str> = Vec::new();
        let mut i: usize = 0;
        while i < self.modules.len()
            invariant
                i <= self.modules@.len(),
                out@.map_values(|s: &str| s@) == self.modules@.take(i as int).filter(|m: Module| satisfies(m.matches@, record.view_map())).map_values(|m: Module| m.name@),
            decreases self.modules@.len() - i,
        {
            proof {
                reveal(Seq::filter);
                assert(self.modules@.take(i + 1).drop_last() =~= self.modules@.take(i as int));
            }
            let ghost before = out@;
            if self.modules[i].admits(record) {
                out.push(self.modules[i].name.as_str());
                assert(out@.map_values(|s: &str| s@) =~= before.map_values(|s: &str| s@).push(self.modules@[i as int].name@));
                assert(self.modules@.take(i + 1).filter(|m: Module| satisfies(m.matches@, record.view_map())) =~= self.modules@.take(i as int).filter(|m: Module| satisfies(m.matches@, record.view_map())).push(self.modules@[i as int]));
            }
            i += 1;
        }
        assert(self.modules@.take(self.modules@.len() as int) =~= self.modules@);
        out
    }
}

/// The members an individual pruned for a record with attributes `r` is
/// cut from, after the modules `mods` in turn: the members of the first
/// module the record falls in, narrowed to their overlap with each later
/// one it falls in, except where that overlap would be empty. `None` when
/// the record falls in no module.
pub open spec fn narrowed(mods: Seq<Module>, r: Map<Seq<char>, Seq<char>>) -> Option<Set<Position>>
    decreases mods.len(),
{
    if mods.len() == 0 {
        None
    } else {
        let prev = narrowed(mods.drop_last(), r);
        let m = mods.last();
        if !falls_in(m, r) {
            prev
        } else {
            match prev {
                None => Some(m.members@.to_set()),
                Some(ms) => {
                    let o = ms.intersect(m.members@.to_set());
                    if o == Set::<Position>::empty() { Some(ms) } else { Some(o) }
                },
            }
        }
    }
}

/// A record falls in a pattern by meeting each of its constraints in turn:
/// a pattern with no constraints takes every record, and one more
/// constraint takes exactly the records the rest take that hold its key
/// with one of its allowed values. A record missing a constrained key, or
/// holding a value not allowed, falls outside.
pub proof fn a_record_must_meet_every_constraint(
    matches: Seq<(String, Vec<String>)>,
    c: (String, Vec<String>),
    r: Map<Seq<char>, Seq<char>>,
)
    ensures
        satisfies(Seq::empty(), r),
        satisfies(matches.push(c), r) <==> (satisfies(matches, r) && r.dom().contains(c.0@)
            && exists|j: int| 0 <= j < c.1@.len() && (#[trigger] c.1@[j])@ == r[c.0@]),
        !r.dom().contains(c.0@) ==> !satisfies(matches.push(c), r),
{
    let m2 = matches.push(c);
    assert(m2[matches.len() as int] == c);
    if satisfies(matches, r) && r.dom().contains(c.0@) && allows(c.1@, r[c.0@]) {
        assert forall|i: int| 0 <= i < m2.len() implies {
            &&& r.dom().contains((#[trigger] m2[i]).0@)
            &&& allows(m2[i].1@, r[m2[i].0@])
        } by {
            if i < matches.len() {
                assert(m2[i] == matches[i]);
            }
        }
    }
    if satisfies(m2, r) {
        assert forall|i: int| 0 <= i < matches.len() implies {
            &&& r.dom().contains((#[trigger] matches[i]).0@)
            &&& allows(matches[i].1@, r[matches[i].0@])
        } by {
            assert(m2[i] == matches[i]);
        }
    }
}

/// Whether a record with attributes `r` falls in module `m`.
pub open spec fn falls_in(m: Module, r: Map<Seq<char>, Seq<char>>) -> bool {
    satisfies(m.matches@, r)
}

/// Whether `f` is the first of `mods` a record with attributes `r` falls in.
pub open spec fn first_fallen_in(mods: Seq<Module>, r: Map<Seq<char>, Seq<char>>, f: int) -> bool {
    &&& 0 <= f < mods.len()
    &&& falls_in(mods[f], r)
    &&& forall|j: int| 0 <= j < f ==> !falls_in(#[trigger] mods[j], r)
}

proof fn lemma_pruning_needs_a_module(mods: Seq<Module>, r: Map<Seq<char>, Seq<char>>)
    ensures
        narrowed(mods, r) is None <==> forall|i: int| 0 <= i < mods.len() ==> !falls_in(#[trigger] mods[i], r),
    decreases mods.len(),
{
    if mods.len() > 0 {
        let pre = mods.drop_last();
        lemma_pruning_needs_a_module(pre, r);
        assert forall|i: int| 0 <= i < pre.len() implies #[trigger] pre[i] == mods[i] by {}
        if narrowed(mods, r) is None {
            assert forall|i: int| 0 <= i < mods.len() implies !falls_in(#[trigger] mods[i], r) by {
                if i < pre.len() {
                    assert(pre[i] == mods[i]);
                }
            }
        } else if narrowed(pre, r) is Some {
            let i0 = choose|i: int| 0 <= i < pre.len() && falls_in(#[trigger] pre[i], r);
            assert(mods[i0] == pre[i0]);
        } else {
            assert(falls_in(mods[mods.len() - 1], r));
        }
    }
}

proof fn lemma_pruning_keeps_within_the_first(mods: Seq<Module>, r: Map<Seq<char>, Seq<char>>, f: int)
    requires
        first_fallen_in(mods, r, f),
    ensures
        narrowed(mods, r) is Some,
        narrowed(mods, r)->Some_0.subset_of(mods[f].members@.to_set()),
        mods[f].members@.len() > 0 ==> narrowed(mods, r)->Some_0 != Set::<Position>::empty(),
    decreases mods.len(),
{
    let pre = mods.drop_last();
    let m = mods.last();
    let ms = m.members@.to_set();
    assert(m == mods[mods.len() - 1]);
    if m.members@.len() > 0 {
        assert(ms.contains(m.members@[0]));
    }
    if f < pre.len() {
        assert(pre[f] == mods[f]);
        assert forall|j: int| 0 <= j < f implies !falls_in(#[trigger] pre[j], r) by {
            assert(pre[j] == mods[j]);
        }
        lemma_pruning_keeps_within_the_first(pre, r, f);
        let v = narrowed(pre, r)->Some_0;
        if falls_in(m, r) {
            let o = v.intersect(ms);
            if o != Set::<Position>::empty() {
                assert(narrowed(mods, r) == Some(o));
            } else {
                assert(narrowed(mods, r) == Some(v));
            }
        } else {
            assert(narrowed(mods, r) == narrowed(pre, r));
        }
    } else {
        assert(f == mods.len() - 1);
        lemma_pruning_needs_a_module(pre, r);
        assert forall|j: int| 0 <= j < pre.len() implies !falls_in(#[trigger] pre[j], r) by {
            assert(pre[j] == mods[j]);
        }
        assert(narrowed(mods, r) == Some(ms));
    }
}

proof fn lemma_pruning_is_all_or_nothing(mods: Seq<Module>, r: Map<Seq<char>, Seq<char>>, i: int)
    requires
        0 <= i < mods.len(),
        falls_in(mods[i], r),
    ensures
        narrowed(mods, r) is Some,
        narrowed(mods, r)->Some_0.subset_of(mods[i].members@.to_set())
            || narrowed(mods, r)->Some_0.intersect(mods[i].members@.to_set()) == Set::<Position>::empty(),
    decreases mods.len(),
{
    let pre = mods.drop_last();
    let m = mods.last();
    let ms = m.members@.to_set();
    let mi = mods[i].members@.to_set();
    assert(m == mods[mods.len() - 1]);
    if i < pre.len() {
        assert(pre[i] == mods[i]);
        lemma_pruning_is_all_or_nothing(pre, r, i);
        let v = narrowed(pre, r)->Some_0;
        if falls_in(m, r) {
            let o = v.intersect(ms);
            if o != Set::<Position>::empty() {
                assert(narrowed(mods, r) == Some(o));
                if !v.subset_of(mi) {
                    assert(o.intersect(mi) =~= Set::<Position>::empty());
                }
            } else {
                assert(narrowed(mods, r) == Some(v));
            }
        } else {
            assert(narrowed(mods, r) == narrowed(pre, r));
        }
    } else {
        match narrowed(pre, r) {
            None => {
                assert(narrowed(mods, r) == Some(ms));
            },
            Some(v) => {
                let o = v.intersect(ms);
                if o == Set::<Position>::empty() {
                    assert(narrowed(mods, r) == Some(v));
                } else {
                    assert(narrowed(mods, r) == Some(o));
                }
            },
        }
    }
}

/// Pruning keeps to the modules a record falls in: it gives nothing exactly
/// when the record falls in none; otherwise the members it keeps lie among
/// those of the first module the record falls in (and some are kept when
/// that module has any), and each module the record falls in holds either
/// all of the kept members or none of them.
pub proof fn pruning_keeps_within_the_first_module_it_falls_in(mods: Seq<Module>, r: Map<Seq<char>, Seq<char>>)
    ensures
        narrowed(mods, r) is None <==> forall|i: int| 0 <= i < mods.len() ==> !falls_in(#[trigger] mods[i], r),
        forall|f: int| #[trigger] first_fallen_in(mods, r, f) ==> {
            &&& narrowed(mods, r) is Some
            &&& narrowed(mods, r)->Some_0.subset_of(mods[f].members@.to_set())
            &&& (mods[f].members@.len() > 0 ==> narrowed(mods, r)->Some_0 != Set::<Position>::empty())
        },
        forall|i: int| 0 <= i < mods.len() && falls_in(#[trigger] mods[i], r) ==> {
            ||| narrowed(mods, r)->Some_0.subset_of(mods[i].members@.to_set())
            ||| narrowed(mods, r)->Some_0.intersect(mods[i].members@.to_set()) == Set::<Position>::empty()
        },
{
    lemma_pruning_needs_a_module(mods, r);
    assert forall|f: int| #[trigger] first_fallen_in(mods, r, f) implies {
        &&& narrowed(mods, r) is Some
        &&& narrowed(mods, r)->Some_0.subset_of(mods[f].members@.to_set())
        &&& (mods[f].members@.len() > 0 ==> narrowed(mods, r)->Some_0 != Set::<Position>::empty())
    } by {
        lemma_pruning_keeps_within_the_first(mods, r, f);
    }
    assert forall|i: int| 0 <= i < mods.len() && falls_in(#[trigger] mods[i], r) implies {
        ||| narrowed(mods, r)->Some_0.subset_of(mods[i].members@.to_set())
        ||| narrowed(mods, r)->Some_0.intersect(mods[i].members@.to_set()) == Set::<Position>::empty()
    } by {
        lemma_pruning_is_all_or_nothing(mods, r, i);
    }
}

impl<W> Population<W> {
    /// The positions an individual pruned for `record` is cut from, in
    /// increasing order: see [`narrowed`]. `None` when the record falls in
    /// no module. The weights of the individual are the caller's.
    pub fn prune_members(&self, record: &SubstrateRecord) -> (r: Option<Vec<Position>>)
        ensures
            match r {
                None => narrowed(self.modules@, record.view_map()) is None,
                Some(v) => increasing(v@) && narrowed(self.modules@, record.view_map()) == Some(v@.to_set()),
            },
    {
        let mut cur: Option<Vec<Position>> = None;
        let mut i: usize = 0;
        while i < self.modules.len()
            invariant
                i <= self.modules@.len(),
                match cur {
                    None => narrowed(self.modules@.take(i as int), record.view_map()) is None,
                    Some(v) => narrowed(self.modules@.take(i as int), record.view_map()) == Some(v@.to_set()),
                },
            decreases self.modules@.len() - i,
        {
            proof {
                assert(self.modules@.take(i + 1).drop_last() =~= self.modules@.take(i as int));
                assert(self.modules@.take(i + 1).last() == self.modules@[i as int]);
            }
            if self.modules[i].admits(record) {
                let members = &self.modules[i].members;
                match cur {
                    None => {
                        cur = Some(members.clone());
                        proof {
                            assert(cur->Some_0@ =~= members@);
                        }
                    },
                    Some(v) => {
                        let mut o: Vec<Position> = Vec::new();
                        let mut j: usize = 0;
                        while j < v.len()
                            invariant
                                j <= v@.len(),
                                o@.to_set() == v@.take(j as int).to_set().intersect(members@.to_set()),
                            decreases v@.len() - j,
                        {
                            proof {
                                assert(v@.take(j + 1) =~= v@.take(j as int).push(v@[j as int]));
                            }
                            let ghost ob = o@;
                            if contains(members, v[j]) {
                                o.push(v[j]);
                                assert(o@.to_set() =~= v@.take(j + 1).to_set().intersect(members@.to_set())) by {
                                    assert(o@ =~= ob.push(v@[j as int]));
                                    assert(v@.take(j + 1).to_set() =~= v@.take(j as int).to_set().insert(v@[j as int]));
                                    assert(o@.to_set() =~= ob.to_set().insert(v@[j as int]));
                                }
                            } else {
                                assert(o@.to_set() =~= v@.take(j + 1).to_set().intersect(members@.to_set())) by {
                                    assert(v@.take(j + 1).to_set() =~= v@.take(j as int).to_set().insert(v@[j as int]));
                                }
                            }
                            j += 1;
                        }
                        proof {
                            assert(v@.take(v@.len() as int) =~= v@);
                        }
                        if o.len() > 0 {
                            proof {
                                assert(o@.to_set().contains(o@[0]));
                                assert(o@.to_set() != Set::<Position>::empty());
                            }
                            cur = Some(o);
                        } else {
                            proof {
                                assert(o@.to_set() =~= Set::<Position>::empty());
                            }
                            cur = Some(v);
                        }
                    },
                }
            }
            i += 1;
        }
        proof {
            assert(self.modules@.take(self.modules@.len() as int) =~= self.modules@);
        }
        match cur {
            None => None,
            Some(v) => Some(sorted_positions(v.as_slice())),
        }
    }
}

} // verus!
