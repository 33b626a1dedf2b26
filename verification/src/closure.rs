//! Considerations, reach, and closure.
//!
//! A [`Consideration`] carries a `provenance` label and a `veridical` flag,
//! and no function here reads either: every verdict is a function of the
//! resolutions alone, which the contracts below state.

use vstd::prelude::*;
use std::collections::BTreeMap;
use crate::graph::{Position, increasing, sorted_positions};

verus! {

broadcast use vstd::seq_lib::group_seq_properties;

/// A sufficient region: the set of positions a consideration resolves into,
/// held in increasing order, each once. A [`Reach`] is a set of regions
/// ordered by these increasing lists, lexicographically, which is the order
/// the regions are listed in.
#[derive(Debug)]
pub struct Region {
    positions: Vec<Position>,
}

impl View for Region {
    type V = Set<Position>;

    closed spec fn view(&self) -> Set<Position> {
        self.positions@.to_set()
    }
}

impl Clone for Region {
    fn clone(&self) -> (r: Self)
        ensures
            r@ == self@,
    {
        proof { use_type_invariant(self); }
        let ps = self.positions.clone();
        assert(ps@ =~= self.positions@);
        Region { positions: ps }
    }
}

impl Region {
    #[verifier::type_invariant]
    closed spec fn sorted(&self) -> bool {
        increasing(self.positions@)
    }

    /// The region formed by `positions`.
    pub fn new(positions: &[Position]) -> (r: Region)
        ensures
            r@ == positions@.to_set(),
    {
        Region { positions: sorted_positions(positions) }
    }

    /// The positions of the region, in the order they are held.
    pub closed spec fn in_order(&self) -> Seq<Position> {
        self.positions@
    }

    /// The positions of the region, in increasing order, each once.
    pub fn positions(&self) -> (ps: &[Position])
        ensures
            ps@ == self.in_order(),
            increasing(ps@),
            ps@.to_set() == self@,
    {
        proof { use_type_invariant(self); }
        self.positions.as_slice()
    }

    /// Whether `p` belongs to the region.
    pub fn contains(&self, p: Position) -> (b: bool)
        ensures
            b == self@.contains(p),
    {
        let mut i: usize = 0;
        while i < self.positions.len()
            invariant
                i <= self.positions.len(),
                forall|j: int| 0 <= j < i ==> self.positions@[j] != p,
            decreases self.positions.len() - i,
        {
            if self.positions[i] == p {
                assert(self.positions@.contains(p));
                return true;
            }
            i += 1;
        }
        false
    }

    /// Whether every position of `self` lies in `other`.
    fn within(&self, other: &Region) -> (b: bool)
        ensures
            b == self@.subset_of(other@),
    {
        let mut i: usize = 0;
        while i < self.positions.len()
            invariant
                i <= self.positions.len(),
                forall|j: int| 0 <= j < i ==> other@.contains(#[trigger] self.positions@[j]),
            decreases self.positions.len() - i,
        {
            if !other.contains(self.positions[i]) {
                assert(self@.contains(self.positions@[i as int]));
                return false;
            }
            i += 1;
        }
        assert forall|p: Position| self@.contains(p) implies other@.contains(p) by {
            let j = choose|j: int| 0 <= j < self.positions@.len() && self.positions@[j] == p;
            assert(other@.contains(self.positions@[j]));
        }
        true
    }

    /// Whether the two regions hold the same positions.
    pub fn same_as(&self, other: &Region) -> (b: bool)
        ensures
            b == (self@ == other@),
    {
        let r = self.within(other) && other.within(self);
        if r {
            assert(self@ =~= other@);
        }
        r
    }
}

/// A means of advancing an inquiry.
#[derive(Debug)]
pub struct Consideration {
    /// Stable name, used for bookkeeping only.
    pub name: String,
    /// Where the resolution came from. Read by nothing.
    pub provenance: String,
    /// The region invoking this consideration reaches, per seed.
    pub resolution: BTreeMap<Position, Region>,
    /// Whether the resolution is correct. Read by nothing.
    pub veridical: bool,
    /// Event type, used by the type-averaged test. Never read here.
    pub ctype: String,
}

impl Clone for Consideration {
    fn clone(&self) -> (c: Self)
        ensures
            c.name@ == self.name@,
            c.provenance@ == self.provenance@,
            c.veridical == self.veridical,
            c.ctype@ == self.ctype@,
            c.resolution@ == self.resolution@,
            forall|s: Position| #[trigger] c.resolves(s) == self.resolves(s),
    {
        Consideration {
            name: self.name.clone(),
            provenance: self.provenance.clone(),
            resolution: self.resolution.clone(),
            veridical: self.veridical,
            ctype: self.ctype.clone(),
        }
    }
}

impl Consideration {
    /// The region this consideration reaches from `seed`, as a set.
    pub open spec fn resolves(&self, seed: Position) -> Option<Set<Position>> {
        if self.resolution@.contains_key(seed) {
            Some(self.resolution@[seed]@)
        } else {
            None
        }
    }

    /// A consideration resolving `seed` into `region`.
    pub fn new(name: &str, seed: Position, region: Region) -> (c: Self)
        ensures
            c.name@ == name@,
            c.provenance@ == "unspecified"@,
            c.veridical,
            c.ctype@ == "generic"@,
            c.resolution@.dom() == set![seed],
            c.resolution@[seed]@ == region@,
            forall|s: Position| #[trigger] c.resolves(s) == if s == seed {
                Some(region@)
            } else {
                None::<Set<Position>>
            },
    {
        let mut resolution: BTreeMap<Position, Region> = BTreeMap::new();
        resolution.insert(seed, region);
        assert(resolution@.dom() =~= set![seed]);
        Consideration {
            name: String::from_str(name),
            provenance: String::from_str("unspecified"),
            resolution,
            veridical: true,
            ctype: String::from_str("generic"),
        }
    }

    /// Attach a provenance label. Changes no verdict.
    pub fn with_provenance(self, p: &str) -> (c: Self)
        ensures
            c.provenance@ == p@,
            c.name == self.name,
            c.resolution == self.resolution,
            c.veridical == self.veridical,
            c.ctype == self.ctype,
    {
        Consideration { provenance: String::from_str(p), ..self }
    }

    /// Mark the resolution true or false. Changes no verdict.
    pub fn with_veridical(self, v: bool) -> (c: Self)
        ensures
            c.veridical == v,
            c.name == self.name,
            c.provenance == self.provenance,
            c.resolution == self.resolution,
            c.ctype == self.ctype,
    {
        Consideration { veridical: v, ..self }
    }

    /// The region this consideration reaches from `seed`, if any.
    pub fn resolve(&self, seed: Position) -> (r: Option<&Region>)
        ensures
            match r {
                Some(region) => self.resolves(seed) == Some(region@),
                None => self.resolves(seed) is None,
            },
    {
        self.resolution.get(&seed)
    }
}

/// Strict lexicographic order on position sequences: the order of sets of
/// positions, each listed in increasing order.
pub open spec fn positions_lt(a: Seq<Position>, b: Seq<Position>) -> bool
    decreases a.len(),
{
    if a.len() == 0 {
        b.len() > 0
    } else if b.len() == 0 {
        false
    } else if a[0] < b[0] {
        true
    } else if a[0] > b[0] {
        false
    } else {
        positions_lt(a.drop_first(), b.drop_first())
    }
}

proof fn lemma_positions_lt_irreflexive(a: Seq<Position>)
    ensures
        !positions_lt(a, a),
    decreases a.len(),
{
    if a.len() > 0 {
        lemma_positions_lt_irreflexive(a.drop_first());
    }
}

proof fn lemma_positions_lt_transitive(a: Seq<Position>, b: Seq<Position>, c: Seq<Position>)
    requires
        positions_lt(a, b),
        positions_lt(b, c),
    ensures
        positions_lt(a, c),
    decreases a.len(),
{
    if a.len() > 0 && b.len() > 0 && c.len() > 0 && a[0] == b[0] && b[0] == c[0] {
        lemma_positions_lt_transitive(a.drop_first(), b.drop_first(), c.drop_first());
    }
}

proof fn lemma_positions_lt_total(a: Seq<Position>, b: Seq<Position>)
    requires
        a != b,
    ensures
        positions_lt(a, b) || positions_lt(b, a),
    decreases a.len(),
{
    if a.len() > 0 && b.len() > 0 && a[0] == b[0] {
        if a.drop_first() == b.drop_first() {
            assert(a =~= seq![a[0]] + a.drop_first());
            assert(b =~= seq![b[0]] + b.drop_first());
        }
        lemma_positions_lt_total(a.drop_first(), b.drop_first());
    } else if a.len() == 0 && b.len() == 0 {
        assert(a =~= b);
    }
}

/// Two increasing sequences of the same positions are the same sequence.
pub(crate) proof fn lemma_increasing_unique(a: Seq<Position>, b: Seq<Position>)
    requires
        increasing(a),
        increasing(b),
        a.to_set() == b.to_set(),
    ensures
        a == b,
    decreases a.len(),
{
    if a.len() == 0 {
        if b.len() > 0 {
            assert(b.to_set().contains(b[0]));
        }
        assert(a =~= b);
    } else if b.len() == 0 {
        assert(a.to_set().contains(a[0]));
    } else {
        assert(a.to_set().contains(a[0]));
        assert(b.to_set().contains(b[0]));
        let i = choose|i: int| 0 <= i < b.len() && b[i] == a[0];
        let j = choose|j: int| 0 <= j < a.len() && a[j] == b[0];
        if a[0] != b[0] {
            assert(i > 0 && j > 0);
            assert(b[0] < b[i]);
            assert(a[0] < a[j]);
        }
        let ra = a.drop_first();
        let rb = b.drop_first();
        assert(increasing(ra)) by {
            assert forall|x: int, y: int| 0 <= x < y < ra.len() implies #[trigger] ra[x] < #[trigger] ra[y] by {
                assert(ra[x] == a[x + 1] && ra[y] == a[y + 1]);
            }
        }
        assert(increasing(rb)) by {
            assert forall|x: int, y: int| 0 <= x < y < rb.len() implies #[trigger] rb[x] < #[trigger] rb[y] by {
                assert(rb[x] == b[x + 1] && rb[y] == b[y + 1]);
            }
        }
        assert(ra.to_set() =~= rb.to_set()) by {
            assert forall|p: Position| ra.to_set().contains(p) <==> rb.to_set().contains(p) by {
                if ra.to_set().contains(p) {
                    let x = choose|x: int| 0 <= x < ra.len() && ra[x] == p;
                    assert(a[0] < a[x + 1]);
                    assert(a.to_set().contains(p));
                    let y = choose|y: int| 0 <= y < b.len() && b[y] == p;
                    assert(y != 0);
                    assert(rb[y - 1] == p);
                }
                if rb.to_set().contains(p) {
                    let x = choose|x: int| 0 <= x < rb.len() && rb[x] == p;
                    assert(b[0] < b[x + 1]);
                    assert(b.to_set().contains(p));
                    let y = choose|y: int| 0 <= y < a.len() && a[y] == p;
                    assert(y != 0);
                    assert(ra[y - 1] == p);
                }
            }
        }
        lemma_increasing_unique(ra, rb);
        assert(a =~= seq![a[0]] + ra);
        assert(b =~= seq![b[0]] + rb);
    }
}

fn positions_less(a: &[Position], b: &[Position]) -> (r: bool)
    ensures
        r == positions_lt(a@, b@),
{
    let mut i: usize = 0;
    while i < a.len() && i < b.len() && a[i] == b[i]
        invariant
            i <= a@.len(),
            i <= b@.len(),
            positions_lt(a@, b@) == positions_lt(a@.skip(i as int), b@.skip(i as int)),
        decreases a@.len() - i,
    {
        assert(a@.skip(i as int).drop_first() =~= a@.skip(i + 1));
        assert(b@.skip(i as int).drop_first() =~= b@.skip(i + 1));
        i += 1;
    }
    if i == a.len() {
        i < b.len()
    } else if i == b.len() {
        false
    } else {
        a[i] < b[i]
    }
}

/// `Reach(seed, cs)`: the set of regions the considerations resolve into.
pub open spec fn reach_of(seed: Position, cs: Seq<Consideration>) -> Set<Set<Position>> {
    Set::new(
        |r: Set<Position>| exists|i: int| 0 <= i < cs.len() && #[trigger] cs[i].resolves(seed) == Some(r),
    )
}

/// A set of regions, each held once, in increasing order of their
/// positions.
#[derive(Debug)]
pub struct Reach {
    regions: Vec<Region>,
}

impl Reach {
    /// The regions, as sets of positions.
    pub closed spec fn view_regions(&self) -> Seq<Set<Position>> {
        self.regions@.map_values(|r: Region| r@)
    }

    #[verifier::type_invariant]
    closed spec fn distinct(&self) -> bool {
        &&& self.view_regions().no_duplicates()
        &&& forall|k: int| 0 <= k < self.regions@.len() ==> increasing(#[trigger] self.regions@[k].positions@)
        &&& forall|i: int, j: int| 0 <= i < j < self.regions@.len() ==> positions_lt(#[trigger] self.regions@[i].positions@, #[trigger] self.regions@[j].positions@)
    }
}

impl View for Reach {
    type V = Set<Set<Position>>;

    closed spec fn view(&self) -> Set<Set<Position>> {
        self.view_regions().to_set()
    }
}

impl Reach {
    /// The empty reach.
    pub fn empty() -> (r: Reach)
        ensures
            r@ == Set::<Set<Position>>::empty(),
    {
        let r = Reach { regions: Vec::new() };
        assert(r@ =~= Set::<Set<Position>>::empty());
        r
    }

    /// Whether `region` is one of the regions reached.
    pub fn contains(&self, region: &Region) -> (b: bool)
        ensures
            b == self@.contains(region@),
    {
        let mut i: usize = 0;
        while i < self.regions.len()
            invariant
                i <= self.regions.len(),
                forall|j: int| 0 <= j < i ==> self.view_regions()[j] != region@,
            decreases self.regions.len() - i,
        {
            if self.regions[i].same_as(region) {
                assert(self.view_regions()[i as int] == region@);
                return true;
            }
            i += 1;
        }
        false
    }

    /// Add `region` if it is not already reached, in its place in the order.
    pub fn insert(&mut self, region: Region)
        ensures
            final(self)@ == old(self)@.insert(region@),
    {
        proof {
            use_type_invariant(&*self);
            use_type_invariant(&region);
        }
        if !self.contains(&region) {
            let ghost rs = self.regions@;
            let ghost before = self.view_regions();
            let ghost key = region.positions@;
            let mut i: usize = 0;
            while i < self.regions.len() && positions_less(self.regions[i].positions.as_slice(), region.positions.as_slice())
                invariant
                    self.regions@ == rs,
                    key == region.positions@,
                    i <= rs.len(),
                    forall|k: int| 0 <= k < i ==> positions_lt(#[trigger] rs[k].positions@, key),
                decreases rs.len() - i,
            {
                i += 1;
            }
            proof {
                assert forall|k: int| 0 <= k < rs.len() implies #[trigger] rs[k].positions@ != key by {
                    if rs[k].positions@ == key {
                        assert(before[k] == rs[k]@);
                        assert(rs[k]@ == region@);
                        assert(self@.contains(region@));
                    }
                }
                if i < rs.len() {
                    lemma_positions_lt_total(rs[i as int].positions@, key);
                    assert(positions_lt(key, rs[i as int].positions@));
                    assert forall|k: int| i <= k < rs.len() implies positions_lt(key, #[trigger] rs[k].positions@) by {
                        if k > i {
                            lemma_positions_lt_transitive(key, rs[i as int].positions@, rs[k].positions@);
                        }
                    }
                }
            }
            let mut regions: Vec<Region> = Vec::new();
            std::mem::swap(&mut regions, &mut self.regions);
            regions.insert(i, region);
            proof {
                let ns = regions@;
                assert(ns == rs.insert(i as int, ns[i as int]));
                assert(ns.map_values(|r: Region| r@) =~= before.insert(i as int, ns[i as int]@));
                assert(!before.contains(ns[i as int]@));
                assert(ns.map_values(|r: Region| r@).no_duplicates()) by {
                    let nv = ns.map_values(|r: Region| r@);
                    assert forall|a: int, b: int| 0 <= a < b < nv.len() implies nv[a] != nv[b] by {
                        if a < i && b < i {
                            assert(nv[a] == before[a] && nv[b] == before[b]);
                        } else if a < i && b == i {
                            assert(nv[a] == before[a]);
                        } else if a < i {
                            assert(nv[a] == before[a] && nv[b] == before[b - 1]);
                        } else if a == i {
                            assert(nv[b] == before[b - 1]);
                        } else {
                            assert(nv[a] == before[a - 1] && nv[b] == before[b - 1]);
                        }
                    }
                }
                assert forall|k: int| 0 <= k < ns.len() implies increasing(#[trigger] ns[k].positions@) by {
                    if k < i {
                        assert(ns[k] == rs[k]);
                    } else if k > i {
                        assert(ns[k] == rs[k - 1]);
                    }
                }
                assert forall|a: int, b: int| 0 <= a < b < ns.len() implies positions_lt(#[trigger] ns[a].positions@, #[trigger] ns[b].positions@) by {
                    if a < i && b < i {
                        assert(ns[a] == rs[a] && ns[b] == rs[b]);
                    } else if a < i && b == i {
                        assert(ns[a] == rs[a]);
                    } else if a < i {
                        assert(ns[a] == rs[a] && ns[b] == rs[b - 1]);
                        assert(positions_lt(rs[a].positions@, key));
                        assert(positions_lt(key, rs[b - 1].positions@));
                        lemma_positions_lt_transitive(rs[a].positions@, key, rs[b - 1].positions@);
                    } else if a == i {
                        assert(ns[b] == rs[b - 1]);
                    } else {
                        assert(ns[a] == rs[a - 1] && ns[b] == rs[b - 1]);
                    }
                }
            }
            self.regions = regions;
        }
        assert(self@ =~= old(self)@.insert(region@));
    }

    /// How many distinct regions are reached.
    pub fn len(&self) -> (n: usize)
        ensures
            n == self@.len(),
    {
        proof {
            use_type_invariant(self);
            self.view_regions().unique_seq_to_set();
        }
        self.regions.len()
    }

    /// The regions reached, each once, in increasing order of their
    /// positions.
    pub fn regions(&self) -> (rs: &[Region])
        ensures
            rs@.map_values(|r: Region| r@).to_set() == self@,
            rs@.map_values(|r: Region| r@).no_duplicates(),
            forall|i: int, j: int| 0 <= i < j < rs@.len() ==> positions_lt(#[trigger] rs@[i].in_order(), #[trigger] rs@[j].in_order()),
    {
        proof { use_type_invariant(self); }
        self.regions.as_slice()
    }

    /// Whether the two reaches hold the same regions.
    pub fn same_as(&self, other: &Reach) -> (b: bool)
        ensures
            b == (self@ == other@),
    {
        let r = self.within(other) && other.within(self);
        if r {
            assert(self@ =~= other@);
        }
        r
    }

    fn within(&self, other: &Reach) -> (b: bool)
        ensures
            b == self@.subset_of(other@),
    {
        let mut i: usize = 0;
        while i < self.regions.len()
            invariant
                i <= self.regions.len(),
                forall|j: int| 0 <= j < i ==> other@.contains(#[trigger] self.view_regions()[j]),
            decreases self.regions.len() - i,
        {
            if !other.contains(&self.regions[i]) {
                assert(self@.contains(self.view_regions()[i as int]));
                return false;
            }
            i += 1;
        }
        assert forall|r: Set<Position>| self@.contains(r) implies other@.contains(r) by {
            let j = choose|j: int| 0 <= j < self.view_regions().len() && self.view_regions()[j] == r;
            assert(other@.contains(self.view_regions()[j]));
        }
        true
    }
}

/// `Reach(seed, considerations)`: the set of regions the considerations
/// resolve into from `seed`.
pub fn reach(seed: Position, considerations: &[Consideration]) -> (r: Reach)
    ensures
        r@ == reach_of(seed, considerations@),
{
    let mut out = Reach::empty();
    let mut i: usize = 0;
    while i < considerations.len()
        invariant
            i <= considerations.len(),
            out@ == reach_of(seed, considerations@.take(i as int)),
        decreases considerations.len() - i,
    {
        let ghost before = out@;
        let c = &considerations[i];
        match c.resolve(seed) {
            Some(region) => {
                out.insert(region.clone());
            },
            None => {},
        }
        proof {
            let cs0 = considerations@.take(i as int);
            let cs1 = considerations@.take(i + 1);
            assert forall|r: Set<Position>| out@.contains(r) == reach_of(seed, cs1).contains(r) by {
                if out@.contains(r) {
                    if before.contains(r) {
                        let k = choose|k: int| 0 <= k < cs0.len() && #[trigger] cs0[k].resolves(seed) == Some(r);
                        assert(cs1[k] == cs0[k]);
                    } else {
                        assert(cs1[i as int] == considerations@[i as int]);
                    }
                }
                if reach_of(seed, cs1).contains(r) {
                    let k = choose|k: int| 0 <= k < cs1.len() && #[trigger] cs1[k].resolves(seed) == Some(r);
                    if k < i {
                        assert(cs0[k] == cs1[k]);
                    }
                }
            }
            assert(out@ =~= reach_of(seed, cs1));
        }
        i += 1;
    }
    assert(considerations@.take(considerations.len() as int) =~= considerations@);
    out
}

/// Whether the search from `seed` is closed: every available consideration
/// resolves into a region the invoked ones already reach.
pub open spec fn closed_at(seed: Position, invoked: Seq<Consideration>, available: Seq<Consideration>) -> bool {
    reach_of(seed, available).subset_of(reach_of(seed, invoked))
}

/// `Cl(seed, invoked, available)`: whether every region the available
/// considerations reach is one the invoked ones already reach.
pub fn is_closed(seed: Position, invoked: &[Consideration], available: &[Consideration]) -> (b: bool)
    ensures
        b == closed_at(seed, invoked@, available@),
{
    let a = reach(seed, invoked);
    let b = reach(seed, available);
    b.within(&a)
}

/// Whether an agent commits to `region`: the search is closed and the
/// invoked considerations reach `region`.
pub fn commits_to(
    seed: Position,
    region: &Region,
    invoked: &[Consideration],
    available: &[Consideration],
) -> (b: bool)
    ensures
        b == (closed_at(seed, invoked@, available@) && reach_of(seed, invoked@).contains(region@)),
{
    is_closed(seed, invoked, available) && reach(seed, invoked).contains(region)
}

/// Verdicts read resolutions and nothing else: two searches whose
/// considerations resolve alike from `seed`, one by one, close alike and
/// commit to the same regions, whatever their names, provenance labels and
/// truth flags.
pub proof fn verdicts_read_only_resolutions(
    seed: Position,
    invoked: Seq<Consideration>,
    available: Seq<Consideration>,
    invoked2: Seq<Consideration>,
    available2: Seq<Consideration>,
)
    requires
        invoked.len() == invoked2.len(),
        available.len() == available2.len(),
        forall|i: int| 0 <= i < invoked.len() ==> (#[trigger] invoked[i]).resolves(seed) == invoked2[i].resolves(seed),
        forall|i: int| 0 <= i < available.len() ==> (#[trigger] available[i]).resolves(seed) == available2[i].resolves(seed),
    ensures
        reach_of(seed, invoked) == reach_of(seed, invoked2),
        reach_of(seed, available) == reach_of(seed, available2),
        closed_at(seed, invoked, available) == closed_at(seed, invoked2, available2),
{
    assert(reach_of(seed, invoked) =~= reach_of(seed, invoked2)) by {
        assert forall|r: Set<Position>| reach_of(seed, invoked).contains(r) <==> reach_of(seed, invoked2).contains(r) by {
            if reach_of(seed, invoked).contains(r) {
                let i = choose|i: int| 0 <= i < invoked.len() && #[trigger] invoked[i].resolves(seed) == Some(r);
                assert(invoked2[i].resolves(seed) == Some(r));
            }
            if reach_of(seed, invoked2).contains(r) {
                let i = choose|i: int| 0 <= i < invoked2.len() && #[trigger] invoked2[i].resolves(seed) == Some(r);
                assert(invoked[i].resolves(seed) == Some(r));
            }
        }
    }
    assert(reach_of(seed, available) =~= reach_of(seed, available2)) by {
        assert forall|r: Set<Position>| reach_of(seed, available).contains(r) <==> reach_of(seed, available2).contains(r) by {
            if reach_of(seed, available).contains(r) {
                let i = choose|i: int| 0 <= i < available.len() && #[trigger] available[i].resolves(seed) == Some(r);
                assert(available2[i].resolves(seed) == Some(r));
            }
            if reach_of(seed, available2).contains(r) {
                let i = choose|i: int| 0 <= i < available2.len() && #[trigger] available2[i].resolves(seed) == Some(r);
                assert(available[i].resolves(seed) == Some(r));
            }
        }
    }
}

/// Availability is not monotone: a closed search is no longer closed once
/// a consideration reaching a region that nothing invoked reaches becomes
/// available, though nothing already considered changed.
pub proof fn a_newcomer_reopens_the_search(
    seed: Position,
    invoked: Seq<Consideration>,
    available: Seq<Consideration>,
    newcomer: Consideration,
)
    requires
        closed_at(seed, invoked, available),
        newcomer.resolves(seed) is Some,
        !reach_of(seed, invoked).contains(newcomer.resolves(seed)->Some_0),
    ensures
        !closed_at(seed, invoked, available.push(newcomer)),
{
    let r = newcomer.resolves(seed)->Some_0;
    let grown = available.push(newcomer);
    assert(grown[available.len() as int] == newcomer);
    assert(reach_of(seed, grown).contains(r));
    assert(!reach_of(seed, invoked).contains(r));
}

} // verus!
