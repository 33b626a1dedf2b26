//! Moderators, their caps, and identities asked on demand.
//!
//! A subgroup holds one character, a moderator, cut from the city as the
//! subgraph its region induces. When a user settles on a voice, each
//! moderator the voice was audible to caps itself to the voice's footprint.
//! Identity is then asked attribute by attribute, and an attribute exists
//! only once something has asked for it.
//!
//! Everything here that computes with weights (separation costs, gaps, the
//! blunting of a split) is done by the caller; this module decides which
//! positions and which contacts are involved.

use vstd::prelude::*;
use crate::graph::{ContactGraph, Position, increasing, index_of, induced_from, key, sorted_positions};
use crate::identity::{Agent, Phase, Record};
use crate::population::{Attributes, has_key};
use vstd::string::StringSliceAdditionalSpecFns;
use crate::text::{FNV_OFFSET, be_bytes, fnv, fnv_feed, to_be_bytes};

verus! {

broadcast use vstd::seq_lib::group_seq_properties;

/// A handle for one instance of a moderator.
#[derive(Debug, Clone, Copy, PartialEq, Eq, Structural, PartialOrd, Ord, Hash)]
pub struct InstanceId(pub u32);

/// One character, holding a region of the city and a goal it cannot reach.
#[derive(Debug)]
pub struct Moderator<W> {
    region: Vec<Position>,
    graph: ContactGraph<W>,
    goal: W,
}

impl<W> Moderator<W> {
    /// The region this character occupies.
    pub closed spec fn region_of(&self) -> Seq<Position> {
        self.region@
    }

    /// The character's own graph.
    pub closed spec fn graph_of(&self) -> ContactGraph<W> {
        self.graph
    }

    /// What the character is trying to resolve and cannot.
    pub closed spec fn goal_of(&self) -> W {
        self.goal
    }

    /// The region this character occupies.
    pub fn region(&self) -> (r: &[Position])
        ensures
            r@ == self.region_of(),
    {
        self.region.as_slice()
    }

    /// The character's own graph.
    pub fn graph(&self) -> (g: &ContactGraph<W>)
        ensures
            *g == self.graph_of(),
    {
        &self.graph
    }
}

impl<W: Copy> Moderator<W> {
    /// A moderator over `region`, cut from `city`: its graph is the
    /// subgraph `region` induces, and its goal is what `goal_for` makes of
    /// that graph. `None` when `goal_for` finds no goal there, which is the
    /// case of a region too thin to tell anything apart.
    pub fn new<F: FnOnce(&ContactGraph<W>) -> Option<W>>(city: &ContactGraph<W>, region: Vec<Position>, goal_for: F) -> (m: Option<Self>)
        requires
            region@.len() < u32::MAX,
            forall|g: &ContactGraph<W>| goal_for.requires((g,)),
        ensures
            match m {
                Some(m) => {
                    &&& m.region_of() == region@
                    &&& induced_from(m.graph_of(), *city, region@)
                    &&& goal_for.ensures((&m.graph_of(),), Some(m.goal_of()))
                },
                None => exists|g: ContactGraph<W>| induced_from(g, *city, region@) && goal_for.ensures((&g,), None::<W>),
            },
    {
        let graph = city.induced(region.as_slice());
        match goal_for(&graph) {
            Some(goal) => Some(Moderator { region, graph, goal }),
            None => None,
        }
    }

    /// The resolution the character is reaching for and will not reach.
    pub fn goal(&self) -> (g: W)
        ensures
            g == self.goal_of(),
    {
        self.goal
    }
}

/// One split of a moderator: the same character, short of itself.
#[derive(Debug)]
pub struct Instance<W> {
    /// Which split this is.
    pub id: InstanceId,
    /// What this instance can tell apart: the moderator's contacts, some
    /// read blunt.
    pub graph: ContactGraph<W>,
    goal: W,
}

impl<W> Instance<W> {
    /// The goal, inherited unchanged.
    pub closed spec fn goal_of(&self) -> W {
        self.goal
    }

    /// Which split this is.
    pub closed spec fn id_of(&self) -> InstanceId {
        self.id
    }

    /// The instance's graph.
    pub closed spec fn graph_of(&self) -> ContactGraph<W> {
        self.graph
    }
}

impl<W: Copy> Instance<W> {
    /// The goal, inherited unchanged from the character.
    pub fn goal(&self) -> (g: W)
        ensures
            g == self.goal_of(),
    {
        self.goal
    }
}

/// Whether instance `k` of `n` reads contact `i` of `m` blunt: every `n`-th
/// contact, offset by `k`, when there is more than one contact to share.
pub open spec fn blunt_in(m: nat, n: nat, i: int, k: int) -> bool {
    m > 1 && i % (n as int) == k
}

/// Whether `inst` is instance `k` of an `n`-way split of a character with
/// contacts `cs` and goal `goal`: same positions, same contacts, each read
/// through `blunt` where instance `k` reads it blunt and as it is elsewhere.
pub open spec fn split_from<W, F: Fn(W) -> W>(inst: Instance<W>, order: u32, cs: Seq<(Position, Position, W)>, goal: W, n: nat, k: int, blunt: F) -> bool {
    &&& inst.id_of() == InstanceId(k as u32)
    &&& inst.goal_of() == goal
    &&& inst.graph_of().order_of() == order
    &&& inst.graph_of().contact_list().len() == cs.len()
    &&& forall|i: int| 0 <= i < cs.len() ==> {
        let c = #[trigger] inst.graph_of().contact_list()[i];
        &&& c.0 == cs[i].0
        &&& c.1 == cs[i].1
        &&& if blunt_in(cs.len(), n, i, k) { blunt.ensures((cs[i].2,), c.2) } else { c.2 == cs[i].2 }
    }
}

impl<W: Copy> Moderator<W> {
    /// Split into `n` instances. Every instance keeps every position and
    /// every contact; instance `k` reads every `n`-th contact blunt, offset
    /// by `k`, through `blunt`, so what one instance reads blunt another
    /// reads sharp. Deterministic in the character and `n`.
    pub fn split<F: Fn(W) -> W>(&self, n: u32, blunt: F) -> (parts: Vec<Instance<W>>)
        requires
            forall|w: W| #[trigger] blunt.requires((w,)),
            self.graph_of().contact_list().len() <= u32::MAX,
        ensures
            parts@.len() == n,
            forall|k: int| 0 <= k < n ==> #[trigger] split_from(parts@[k], self.graph_of().order_of(), self.graph_of().contact_list(), self.goal_of(), n as nat, k, blunt),
    {
        let cs = self.graph.edges();
        let mut parts: Vec<Instance<W>> = Vec::new();
        let mut k: u32 = 0;
        while k < n
            invariant
                k <= n,
                cs@ == self.graph_of().contact_list(),
                cs@.len() <= u32::MAX,
                crate::graph::canonical_contacts(cs@),
                forall|w: W| #[trigger] blunt.requires((w,)),
                parts@.len() == k,
                forall|j: int| 0 <= j < k ==> #[trigger] split_from(parts@[j], self.graph_of().order_of(), cs@, self.goal_of(), n as nat, j, blunt),
            decreases n - k,
        {
            let mut g: ContactGraph<W> = ContactGraph::new(self.graph.order());
            let mut i: usize = 0;
            while i < cs.len()
                invariant
                    k < n,
                    cs@.len() <= u32::MAX,
                    i <= cs@.len(),
                    crate::graph::canonical_contacts(cs@),
                    forall|w: W| #[trigger] blunt.requires((w,)),
                    g.order_of() == self.graph_of().order_of(),
                    g.contact_list().len() == i,
                    forall|j: int| 0 <= j < i ==> {
                        let c = #[trigger] g.contact_list()[j];
                        &&& c.0 == cs@[j].0
                        &&& c.1 == cs@[j].1
                        &&& if blunt_in(cs@.len(), n as nat, j, k as int) { blunt.ensures((cs@[j].2,), c.2) } else { c.2 == cs@[j].2 }
                    },
                decreases cs@.len() - i,
            {
                let (u, v, w) = cs[i];
                proof {
                    if i > 0 {
                        assert(crate::graph::key_lt(crate::graph::pair(cs@[i - 1]), crate::graph::pair(cs@[i as int])));
                        assert(g.contact_list().last() == g.contact_list()[i - 1]);
                    }
                }
                let is_blunt = cs.len() > 1 && (i as u32) % n == k;
                let x = if is_blunt { blunt(w) } else { w };
                g.push_contact(u, v, x);
                i += 1;
            }
            parts.push(Instance { id: InstanceId(k), graph: g, goal: self.goal });
            k += 1;
        }
        parts
    }
}

/// Every contact of a character split two or more ways is read as it is
/// by some instance: the character is distributed, not diminished.
pub proof fn a_blunted_contact_is_sharp_for_a_sibling(m: nat, n: nat, i: int)
    requires
        n >= 2,
        0 <= i < m,
    ensures
        exists|k: int| 0 <= k < n && !#[trigger] blunt_in(m, n, i, k),
{
    let k = (i + 1) % (n as int);
    assert(k != i % (n as int)) by (nonlinear_arith)
        requires
            n >= 2,
            0 <= i,
            k == (i + 1) % (n as int),
    {
        assert(0 <= i % (n as int) < n);
    }
    assert(!blunt_in(m, n, i, k));
}

/// In an `n`-way split of a character with `m` contacts, each contact is
/// read blunt by exactly one instance when there is more than one contact
/// (the instance it falls to counting round the instances from the first),
/// and by none when there is only one.
pub proof fn each_contact_is_blunt_in_exactly_one_instance(m: nat, n: nat, i: int)
    requires
        n >= 1,
        0 <= i < m,
    ensures
        m > 1 ==> 0 <= i % (n as int) < n && blunt_in(m, n, i, i % (n as int)),
        forall|k1: int, k2: int| 0 <= k1 < n && 0 <= k2 < n && #[trigger] blunt_in(m, n, i, k1) && #[trigger] blunt_in(m, n, i, k2) ==> k1 == k2,
        m <= 1 ==> forall|k: int| !#[trigger] blunt_in(m, n, i, k),
{
    assert(0 <= i % (n as int) < n) by (nonlinear_arith)
        requires
            n >= 1,
            0 <= i,
    {
    }
}

/// Instance `k` of an `n`-way split of a character with more than one
/// contact reads contacts `k`, `k + n`, `k + 2n`, ... blunt.
pub proof fn instance_k_blunts_every_nth_contact_from_k(m: nat, n: nat, k: int, q: int)
    requires
        n >= 1,
        m > 1,
        0 <= k < n,
        0 <= q,
        k + q * n < m,
    ensures
        blunt_in(m, n, k + q * n, k),
{
    vstd::arithmetic::div_mod::lemma_fundamental_div_mod_converse(k + q * n, n as int, q, k);
}

/// The instances of an `n`-way split read each contact as the character
/// does, except the one instance it falls to, which reads it through
/// `blunt`: when there is more than one contact, contact `i` is blunt in
/// instance `i mod n` and sharp in every other; a lone contact is sharp in
/// every instance.
pub proof fn a_split_blunts_each_contact_once<W, F: Fn(W) -> W>(
    parts: Seq<Instance<W>>,
    order: u32,
    cs: Seq<(Position, Position, W)>,
    goal: W,
    n: nat,
    blunt: F,
)
    requires
        n >= 1,
        parts.len() == n,
        forall|k: int| 0 <= k < n ==> #[trigger] split_from(parts[k], order, cs, goal, n, k, blunt),
    ensures
        forall|i: int| 0 <= i < cs.len() && cs.len() > 1 ==> blunt.ensures((cs[i].2,), #[trigger] parts[i % (n as int)].graph_of().contact_list()[i].2),
        forall|i: int, k: int| 0 <= i < cs.len() && 0 <= k < n && (cs.len() <= 1 || k != i % (n as int))
            ==> #[trigger] parts[k].graph_of().contact_list()[i].2 == cs[i].2,
{
    assert forall|i: int| 0 <= i < cs.len() && cs.len() > 1 implies blunt.ensures((cs[i].2,), #[trigger] parts[i % (n as int)].graph_of().contact_list()[i].2) by {
        each_contact_is_blunt_in_exactly_one_instance(cs.len(), n, i);
        assert(split_from(parts[i % (n as int)], order, cs, goal, n, i % (n as int), blunt));
    }
    assert forall|i: int, k: int| 0 <= i < cs.len() && 0 <= k < n && (cs.len() <= 1 || k != i % (n as int))
        implies #[trigger] parts[k].graph_of().contact_list()[i].2 == cs[i].2 by {
        assert(split_from(parts[k], order, cs, goal, n, k, blunt));
        assert(!blunt_in(cs.len(), n, i, k));
    }
}

/// The cap a moderator makes of itself for one region: the positions kept,
/// in increasing order, and the contacts of the city wholly among them.
#[derive(Debug)]
pub struct Cap<W> {
    /// The region capped to.
    pub region: Vec<Position>,
    /// The contacts retained, as `(u, v, w)` with `u < v`, in city
    /// coordinates and in the city's order.
    pub contacts: Vec<(Position, Position, W)>,
}

/// Whether `c` is the cap of moderator `m` to the positions `keep`: the
/// positions of its region in `keep`, in increasing order, and the
/// contacts of `city` wholly among them.
pub open spec fn capped<W>(c: Cap<W>, m: Moderator<W>, city: ContactGraph<W>, keep: Set<Position>) -> bool {
    &&& increasing(c.region@)
    &&& c.region@.to_set() == m.region_of().to_set().intersect(keep)
    &&& c.contacts@ == city.contact_list().filter(|e: (Position, Position, W)| within(c.region@.to_set(), e))
}

/// Whether both ends of contact `c` lie in `keep`.
pub open spec fn within<W>(keep: Set<Position>, c: (Position, Position, W)) -> bool {
    keep.contains(c.0) && keep.contains(c.1)
}

impl<W: Copy> Moderator<W> {
    /// Cap this character's knowledge to `region`: keep the positions of
    /// its own region that lie in `region`, and the contacts of `city`
    /// wholly inside what is kept.
    pub fn cap(&self, city: &ContactGraph<W>, region: &[Position]) -> (c: Cap<W>)
        ensures
            capped(c, *self, *city, region@.to_set()),
            c.region@.len() <= region@.len(),
    {
        let mut both: Vec<Position> = Vec::new();
        let mut i: usize = 0;
        while i < self.region.len()
            invariant
                i <= self.region@.len(),
                both@.to_set() == self.region@.take(i as int).to_set().intersect(region@.to_set()),
            decreases self.region@.len() - i,
        {
            let x = self.region[i];
            let ghost before = both@;
            let mut k: usize = 0;
            let mut found = false;
            while k < region.len()
                invariant
                    k <= region@.len(),
                    found == (exists|t: int| 0 <= t < k && region@[t] == x),
                decreases region@.len() - k,
            {
                if region[k] == x {
                    found = true;
                }
                k += 1;
            }
            if found {
                both.push(x);
            }
            proof {
                assert(self.region@.take(i + 1) =~= self.region@.take(i as int).push(x));
                assert(self.region@.take(i + 1).to_set() =~= self.region@.take(i as int).to_set().insert(x));
                if found {
                    assert(region@.to_set().contains(x));
                    assert(both@ =~= before.push(x));
                    assert(both@.to_set() =~= before.to_set().insert(x));
                } else {
                    assert(!region@.to_set().contains(x));
                }
                assert(both@.to_set() =~= self.region@.take(i + 1).to_set().intersect(region@.to_set()));
            }
            i += 1;
        }
        assert(self.region@.take(self.region@.len() as int) =~= self.region@);
        let keep = sorted_positions(both.as_slice());
        let cs = city.edges();
        let ghost ks = keep@.to_set();
        let mut contacts: Vec<(Position, Position, W)> = Vec::new();
        let mut t: usize = 0;
        while t < cs.len()
            invariant
                t <= cs@.len(),
                ks == keep@.to_set(),
                contacts@ == cs@.take(t as int).filter(|e: (Position, Position, W)| within(ks, e)),
            decreases cs@.len() - t,
        {
            proof {
                reveal(Seq::filter);
                assert(cs@.take(t + 1).drop_last() =~= cs@.take(t as int));
            }
            let (u, v, w) = cs[t];
            if crate::graph::contains(&keep, u) && crate::graph::contains(&keep, v) {
                contacts.push((u, v, w));
            }
            t += 1;
        }
        assert(cs@.take(cs@.len() as int) =~= cs@);
        proof {
            crate::graph::lemma_increasing_len(keep@, region@);
        }
        Cap { region: keep, contacts }
    }
}

/// Every contact of `caps`, cap by cap, each cap's in its own order.
pub open spec fn all_contacts<W>(caps: Seq<Cap<W>>) -> Seq<(Position, Position, W)>
    decreases caps.len(),
{
    if caps.len() == 0 {
        Seq::empty()
    } else {
        all_contacts(caps.drop_last()) + caps.last().contacts@
    }
}

/// Every position of the caps' regions.
pub open spec fn all_members<W>(caps: Seq<Cap<W>>) -> Set<Position> {
    Set::new(|p: Position| exists|i: int| 0 <= i < caps.len() && (#[trigger] caps[i]).region@.contains(p))
}


/// The contacts of `cs` joining two distinct positions of `ms`,
/// renumbered by their index in `ms`.
pub open spec fn among<W>(cs: Seq<(Position, Position, W)>, ms: Seq<Position>) -> Seq<(Position, Position, W)>
    decreases cs.len(),
{
    if cs.len() == 0 {
        Seq::empty()
    } else {
        let rest = among(cs.drop_last(), ms);
        let c = cs.last();
        if ms.contains(c.0) && ms.contains(c.1) && c.0 != c.1 {
            rest.push((ms.index_of(c.0) as Position, ms.index_of(c.1) as Position, c.2))
        } else {
            rest
        }
    }
}

/// Whether some contact of `cs` has both ends in `ms`.
pub open spec fn touches_members<W>(cs: Seq<(Position, Position, W)>, ms: Seq<Position>) -> bool {
    exists|i: int| 0 <= i < cs.len() && ms.contains((#[trigger] cs[i]).0) && ms.contains(cs[i].1)
}

/// The weights `es` carries for the pair `k`, in order.
pub open spec fn weights_for<W>(es: Seq<(Position, Position, W)>, k: (Position, Position)) -> Seq<W>
    decreases es.len(),
{
    if es.len() == 0 {
        Seq::empty()
    } else if key(es.last().0, es.last().1) == k {
        weights_for(es.drop_last(), k).push(es.last().2)
    } else {
        weights_for(es.drop_last(), k)
    }
}

/// Whether `join` can return `r` for the weights `a` and `b`.
#[verifier::opaque]
pub open spec fn joins<W, F: Fn(W, W) -> W>(join: F, a: W, b: W, r: W) -> bool {
    join.ensures((a, b), r)
}

/// Whether `rs` are the running results of combining the weights `ws` in
/// order with `join`: the first is the first weight, and each further one
/// is `join` of the one before and the next weight.
pub open spec fn running<W, F: Fn(W, W) -> W>(join: F, ws: Seq<W>, rs: Seq<W>) -> bool {
    &&& ws.len() > 0
    &&& rs.len() == ws.len()
    &&& rs[0] == ws[0]
    &&& forall|i: int| 1 <= i < ws.len() ==> #[trigger] joins(join, rs[i - 1], ws[i], rs[i])
}

/// Whether combining the weights `ws` in order with `join` can give `r`.
pub open spec fn combines_to<W, F: Fn(W, W) -> W>(join: F, ws: Seq<W>, r: W) -> bool {
    exists|rs: Seq<W>| #[trigger] running(join, ws, rs) && rs.last() == r
}

/// Whether `g` is what the contacts `es` amalgamate to: a contact for
/// every pair `es` names, weighted by combining that pair's weights.
pub open spec fn amalgam_of<W, F: Fn(W, W) -> W>(g: ContactGraph<W>, es: Seq<(Position, Position, W)>, join: F) -> bool {
    &&& forall|k: (Position, Position)| #[trigger] g.weights().dom().contains(k) <==> weights_for(es, k).len() > 0
    &&& forall|k: (Position, Position)| #[trigger] g.weights().dom().contains(k) ==> combines_to(join, weights_for(es, k), g.weights()[k])
}

proof fn lemma_index_unique(ms: Seq<Position>, i: int)
    requires
        increasing(ms),
        0 <= i < ms.len(),
    ensures
        ms.contains(ms[i]),
        ms.index_of(ms[i]) == i,
{
    assert(ms.contains(ms[i]));
    let j = ms.index_of(ms[i]);
    if j != i {
        if j < i { assert(ms[j] < ms[i]); } else { assert(ms[i] < ms[j]); }
    }
}

/// Combine caps from several moderators into one character graph.
///
/// Its positions are every position of the caps' regions, renumbered from
/// zero in increasing order. A contact of any cap joining two of them is
/// kept; where several caps carry the same contact, their weights are
/// combined in cap order by `join`, which is handed the weight so far and
/// the next one. `None` when fewer than two positions are involved or no
/// contact of any cap lies among them: there is no character there.
pub fn amalgamate<W: Copy, F: Fn(W, W) -> W>(caps: &[Cap<W>], join: F) -> (r: Option<ContactGraph<W>>)
    requires
        all_members(caps@).len() < u32::MAX,
        forall|a: W, b: W| #[trigger] join.requires((a, b)),
    ensures
        exists|ms: Seq<Position>| {
            &&& increasing(ms)
            &&& #[trigger] ms.to_set() == all_members(caps@)
            &&& match r {
                None => ms.len() < 2 || !touches_members(all_contacts(caps@), ms),
                Some(g) => {
                    &&& ms.len() >= 2
                    &&& touches_members(all_contacts(caps@), ms)
                    &&& g.order_of() == ms.len()
                    &&& amalgam_of(g, among(all_contacts(caps@), ms), join)
                },
            }
        },
{
    let mut both: Vec<Position> = Vec::new();
    let mut ci: usize = 0;
    while ci < caps.len()
        invariant
            ci <= caps@.len(),
            both@.to_set() == all_members(caps@.take(ci as int)),
        decreases caps@.len() - ci,
    {
        let ghost before = both@;
        let region = &caps[ci].region;
        let mut j: usize = 0;
        while j < region.len()
            invariant
                j <= region@.len(),
                both@ == before + region@.take(j as int),
            decreases region@.len() - j,
        {
            both.push(region[j]);
            j += 1;
            assert(both@ =~= before + region@.take(j as int));
        }
        proof {
            assert(region@.take(region@.len() as int) =~= region@);
            let t1 = caps@.take(ci + 1);
            assert(t1.drop_last() =~= caps@.take(ci as int));
            assert(both@.to_set() =~= all_members(t1)) by {
                assert forall|p: Position| both@.to_set().contains(p) <==> all_members(t1).contains(p) by {
                    if both@.to_set().contains(p) {
                        let k = choose|k: int| 0 <= k < both@.len() && both@[k] == p;
                        if k < before.len() {
                            assert(before.to_set().contains(p));
                            let i = choose|i: int| 0 <= i < caps@.take(ci as int).len() && (#[trigger] caps@.take(ci as int)[i]).region@.contains(p);
                            assert(t1[i] == caps@.take(ci as int)[i]);
                        } else {
                            assert(region@[k - before.len()] == p);
                            assert(t1[ci as int].region@.contains(p));
                        }
                    }
                    if all_members(t1).contains(p) {
                        let i = choose|i: int| 0 <= i < t1.len() && (#[trigger] t1[i]).region@.contains(p);
                        if i < ci {
                            assert(caps@.take(ci as int)[i] == t1[i]);
                            assert(all_members(caps@.take(ci as int)).contains(p));
                            let k = choose|k: int| 0 <= k < before.len() && before[k] == p;
                            assert(both@[k] == p);
                        } else {
                            let k = choose|k: int| 0 <= k < region@.len() && region@[k] == p;
                            assert(both@[before.len() + k] == p);
                        }
                    }
                }
            }
        }
        ci += 1;
    }
    assert(caps@.take(caps@.len() as int) =~= caps@);
    let ms = sorted_positions(both.as_slice());
    proof {
        assert(ms@.no_duplicates()) by {
            assert forall|a: int, b: int| 0 <= a < ms@.len() && 0 <= b < ms@.len() && a != b implies ms@[a] != ms@[b] by {
                if a < b { assert(ms@[a] < ms@[b]); } else { assert(ms@[b] < ms@[a]); }
            }
        }
        ms@.unique_seq_to_set();
    }
    if ms.len() < 2 {
        return None;
    }
    let n = ms.len() as u32;
    let mut g: ContactGraph<W> = ContactGraph::new(n);
    let mut any = false;
    let ghost msv = ms@;
    proof {
        assert(all_contacts(caps@.take(0)) =~= Seq::<(Position, Position, W)>::empty());
        assert(g.weights() == Map::<(Position, Position), W>::empty());
    }
    let mut ci: usize = 0;
    while ci < caps.len()
        invariant
            msv == ms@,
            increasing(msv),
            msv.len() <= u32::MAX,
            forall|a: W, b: W| #[trigger] join.requires((a, b)),
            ci <= caps@.len(),
            g.order_of() == msv.len(),
            any == touches_members(all_contacts(caps@.take(ci as int)), msv),
            amalgam_of(g, among(all_contacts(caps@.take(ci as int)), msv), join),
        decreases caps@.len() - ci,
    {
        let contacts = &caps[ci].contacts;
        let ghost done = all_contacts(caps@.take(ci as int));
        let mut t: usize = 0;
        while t < contacts.len()
            invariant
                msv == ms@,
                increasing(msv),
                msv.len() <= u32::MAX,
                forall|a: W, b: W| #[trigger] join.requires((a, b)),
                t <= contacts@.len(),
                g.order_of() == msv.len(),
                any == touches_members(done + contacts@.take(t as int), msv),
                amalgam_of(g, among(done + contacts@.take(t as int), msv), join),
            decreases contacts@.len() - t,
        {
            let (u, v, w) = contacts[t];
            let ghost prefix = done + contacts@.take(t as int);
            let ghost next = done + contacts@.take(t + 1);
            proof {
                assert(next =~= prefix.push((u, v, w)));
                assert(next.drop_last() =~= prefix);
            }
            let iu = index_of(&ms, u);
            let iv = index_of(&ms, v);
            match (iu, iv) {
                (Some(a), Some(b)) => {
                    proof {
                        lemma_index_unique(msv, a as int);
                        lemma_index_unique(msv, b as int);
                        assert(touches_members(next, msv)) by {
                            assert(next[next.len() - 1] == (u, v, w));
                        }
                    }
                    any = true;
                    if a != b {
                        let ghost old_w = g.weights();
                        let ghost es = among(prefix, msv);
                        let ghost kk = key(a, b);
                        proof {
                            assert(among(next, msv) == es.push((a, b, w)));
                        }
                        let (x, y) = if a < b { (a, b) } else { (b, a) };
                        assert((x, y) == kk);
                        match g.weight(x, y) {
                            Some(prev) => {
                                let joined = join(prev, w);
                                let _ = g.add_contact(x, y, joined);
                                proof {
                                    lemma_amalgam_step(old_w, g.weights(), es, (a, b, w), join, Some(prev), joined);
                                }
                            },
                            None => {
                                let _ = g.add_contact(x, y, w);
                                proof {
                                    lemma_amalgam_step(old_w, g.weights(), es, (a, b, w), join, None, w);
                                }
                            },
                        }
                    } else {
                        proof {
                            assert(u == v);
                            assert(among(next, msv) == among(prefix, msv));
                        }
                    }
                },
                _ => {
                    proof {
                        assert(among(next, msv) == among(prefix, msv));
                        assert(touches_members(next, msv) == touches_members(prefix, msv)) by {
                            if touches_members(next, msv) {
                                let i = choose|i: int| 0 <= i < next.len() && msv.contains((#[trigger] next[i]).0) && msv.contains(next[i].1);
                                if i < prefix.len() {
                                    assert(prefix[i] == next[i]);
                                }
                            }
                            if touches_members(prefix, msv) {
                                let i = choose|i: int| 0 <= i < prefix.len() && msv.contains((#[trigger] prefix[i]).0) && msv.contains(prefix[i].1);
                                assert(next[i] == prefix[i]);
                            }
                        }
                    }
                },
            }
            proof {
                if touches_members(prefix, msv) {
                    let i = choose|i: int| 0 <= i < prefix.len() && msv.contains((#[trigger] prefix[i]).0) && msv.contains(prefix[i].1);
                    assert(next[i] == prefix[i]);
                }
            }
            t += 1;
        }
        proof {
            assert(contacts@.take(contacts@.len() as int) =~= contacts@);
            assert(caps@.take(ci + 1).drop_last() =~= caps@.take(ci as int));
            assert(all_contacts(caps@.take(ci + 1)) == done + contacts@);
        }
        ci += 1;
    }
    if !any {
        return None;
    }
    Some(g)
}

proof fn lemma_amalgam_step<W, F: Fn(W, W) -> W>(
    before: Map<(Position, Position), W>,
    after: Map<(Position, Position), W>,
    es: Seq<(Position, Position, W)>,
    e: (Position, Position, W),
    join: F,
    prev: Option<W>,
    r: W,
)
    requires
        forall|k: (Position, Position)| #[trigger] before.dom().contains(k) <==> weights_for(es, k).len() > 0,
        forall|k: (Position, Position)| #[trigger] before.dom().contains(k) ==> combines_to(join, weights_for(es, k), before[k]),
        after == before.insert(key(e.0, e.1), r),
        prev == (if before.dom().contains(key(e.0, e.1)) { Some(before[key(e.0, e.1)]) } else { None::<W> }),
        match prev {
            Some(p) => join.ensures((p, e.2), r),
            None => r == e.2,
        },
    ensures
        forall|k: (Position, Position)| #[trigger] after.dom().contains(k) <==> weights_for(es.push(e), k).len() > 0,
        forall|k: (Position, Position)| #[trigger] after.dom().contains(k) ==> combines_to(join, weights_for(es.push(e), k), after[k]),
{
    let ke = key(e.0, e.1);
    let es2 = es.push(e);
    assert(es2.drop_last() =~= es);
    assert forall|k: (Position, Position)| #[trigger] after.dom().contains(k) <==> weights_for(es2, k).len() > 0 by {
        assert(weights_for(es2, k) == if ke == k { weights_for(es, k).push(e.2) } else { weights_for(es, k) });
    }
    assert forall|k: (Position, Position)| #[trigger] after.dom().contains(k) implies combines_to(join, weights_for(es2, k), after[k]) by {
        assert(weights_for(es2, k) == if ke == k { weights_for(es, k).push(e.2) } else { weights_for(es, k) });
        if k == ke {
            let ws = weights_for(es, k);
            let ws2 = ws.push(e.2);
            assert(ws2.drop_last() =~= ws);
            match prev {
                Some(p) => {
                    assert(combines_to(join, ws, p));
                    let rs = choose|rs: Seq<W>| #[trigger] running(join, ws, rs) && rs.last() == p;
                    let rs2 = rs.push(after[k]);
                    assert(joins(join, p, e.2, after[k])) by { reveal(joins); }
                    assert forall|i: int| 1 <= i < ws2.len() implies #[trigger] joins(join, rs2[i - 1], ws2[i], rs2[i]) by {
                        if i < ws.len() {
                            assert(rs2[i - 1] == rs[i - 1] && rs2[i] == rs[i] && ws2[i] == ws[i]);
                            assert(joins(join, rs[i - 1], ws[i], rs[i]));
                        } else {
                            assert(rs2[i - 1] == p && ws2[i] == e.2 && rs2[i] == after[k]);
                        }
                    }
                    assert(running(join, ws2, rs2));
                    assert(combines_to(join, ws2, after[k]));
                },
                None => {
                    assert(ws.len() == 0);
                    assert(ws2.len() == 1);
                    assert(ws2[0] == e.2);
                    assert(after[k] == r);
                    let rs2 = seq![r];
                    assert(running(join, ws2, rs2));
                },
            }
        }
    }
}

/// Whether `c` is the character the caps `caps` reassemble to with `join`:
/// nothing when fewer than two positions or no contact among them, and
/// otherwise their amalgam with nothing settled about who would have it.
pub open spec fn amalgamated_into<W, F: Fn(W, W) -> W>(c: Option<Character<W>>, caps: Seq<Cap<W>>, join: F) -> bool {
    exists|ms: Seq<Position>| {
        &&& increasing(ms)
        &&& #[trigger] ms.to_set() == all_members(caps)
        &&& match c {
            None => ms.len() < 2 || !touches_members(all_contacts(caps), ms),
            Some(ch) => {
                &&& ms.len() >= 2
                &&& ch.graph.order_of() == ms.len()
                &&& amalgam_of(ch.graph, among(all_contacts(caps), ms), join)
                &&& ch.identity.settled_map() == Map::<Seq<char>, Seq<char>>::empty()
            },
        }
    }
}

/// A character reassembled from caps, plus whatever identity has been
/// asked of it.
#[derive(Debug)]
pub struct Character<W> {
    /// The amalgamated graph: the invariant-bearing part.
    pub graph: ContactGraph<W>,
    /// What has been settled about who would have this character.
    pub identity: Identity,
}

impl<W: Copy> Character<W> {
    /// Reassemble a character from regional caps, with nothing settled
    /// about who would have it; `None` when the caps amalgamate to nothing.
    pub fn amalgamated<F: Fn(W, W) -> W>(caps: &[Cap<W>], join: F) -> (c: Option<Self>)
        requires
            all_members(caps@).len() < u32::MAX,
            forall|a: W, b: W| #[trigger] join.requires((a, b)),
        ensures
            amalgamated_into(c, caps@, join),
    {
        match amalgamate(caps, join) {
            Some(graph) => Some(Character { graph, identity: Identity::new() }),
            None => None,
        }
    }

    /// Prune an agent carrying this character, whose invariant is `chi`:
    /// its record starts at zero.
    pub fn prune(&self, id: &str, chi: Option<W>) -> (a: Agent<W>)
        ensures
            a.id_of()@ == id@,
            a.graph_of().order_of() == self.graph.order_of(),
            a.graph_of().contact_list() == self.graph.contact_list(),
            a.chi_of() == chi,
            a.record_of().count() == 0,
            a.phase_of() == Phase::Commitment,
    {
        Agent::new(id.to_owned(), self.graph.clone(), chi)
    }
}

/// What has been settled about who would have a character.
///
/// Deliberately partial: an attribute is added only when something asks
/// for it, and before that no operation could have returned one.
#[derive(Debug)]
pub struct Identity {
    settled: Attributes,
}

/// The bytes an answer is drawn by: the question's key, then the eight
/// bytes of the character invariant, most significant first.
pub open spec fn answer_hash(key: Seq<u8>, chi_bits: u64) -> u64 {
    fnv(fnv(FNV_OFFSET, key), be_bytes(chi_bits))
}

impl Identity {
    /// Everything settled so far, as a map.
    pub open spec fn settled_map(&self) -> Map<Seq<char>, Seq<char>> {
        self.settled_of().view_map()
    }

    /// Everything settled so far.
    pub closed spec fn settled_of(&self) -> Attributes {
        self.settled
    }

    /// An identity with nothing settled.
    pub fn new() -> (i: Self)
        ensures
            i.settled_of().pairs() == Seq::<(String, String)>::empty(),
            i.settled_map() == Map::<Seq<char>, Seq<char>>::empty(),
    {
        Identity { settled: Attributes::new() }
    }

    /// What has been settled so far, in the order it was asked for.
    pub fn settled(&self) -> (a: &Attributes)
        ensures
            *a == self.settled_of(),
    {
        &self.settled
    }

    /// Whether `key` has been asked for yet.
    pub fn has(&self, key: &str) -> (b: bool)
        ensures
            b == self.settled_map().dom().contains(key@),
    {
        self.settled.contains_key(key)
    }

    /// How many attributes exist.
    pub fn len(&self) -> (n: usize)
        ensures
            n == self.settled_of().pairs().len(),
    {
        self.settled.len()
    }

    /// Whether nothing has been asked yet.
    pub fn is_empty(&self) -> (b: bool)
        ensures
            b == (self.settled_of().pairs().len() == 0),
    {
        self.settled.is_empty()
    }

    /// Settle `key`, drawing it if this is the first time it was asked.
    ///
    /// A key already settled answers what was settled. Otherwise the answer
    /// is drawn from `options` by the FNV-1a hash of the key's bytes
    /// followed by `chi_bits`, the bit pattern of the character's
    /// invariant, and settled. Nothing is drawn when there are no options,
    /// or when the character has no invariant (`chi_bits` is `None`).
    pub fn ask(&mut self, chi_bits: Option<u64>, key: &str, options: &[&str]) -> (r: Option<String>)
        ensures
            old(self).settled_map().dom().contains(key@) ==> {
                &&& r is Some
                &&& r->Some_0@ == old(self).settled_map()[key@]
                &&& final(self).settled_of() == old(self).settled_of()
            },
            !old(self).settled_map().dom().contains(key@) && (options@.len() == 0 || chi_bits is None) ==> {
                &&& r is None
                &&& final(self).settled_of() == old(self).settled_of()
            },
            !old(self).settled_map().dom().contains(key@) && options@.len() > 0 && chi_bits is Some ==> {
                let pick = options@[(answer_hash(key.spec_bytes(), chi_bits->Some_0) % (options@.len() as u64)) as int]@;
                &&& r is Some
                &&& r->Some_0@ == pick
                &&& final(self).settled_map() == old(self).settled_map().insert(key@, pick)
                &&& final(self).settled_of().pairs().len() == old(self).settled_of().pairs().len() + 1
            },
    {
        match self.settled.get(key) {
            Some(v) => {
                return Some(v.clone());
            },
            None => {},
        }
        if options.len() == 0 {
            return None;
        }
        let chi = match chi_bits {
            Some(c) => c,
            None => {
                return None;
            },
        };
        let h = fnv_feed(FNV_OFFSET, key.as_bytes());
        let bits = to_be_bytes(chi);
        let h = fnv_feed(h, bits.as_slice());
        let n = options.len() as u64;
        let pick_at = (h % n) as usize;
        let pick = options[pick_at].to_owned();
        proof {
            assert(!has_key(self.settled_of().pairs(), key@));
        }
        self.settled.insert(key.to_owned(), pick.clone());
        Some(pick)
    }
}

impl Default for Identity {
    fn default() -> (i: Self)
        ensures
            i.settled_map() == Map::<Seq<char>, Seq<char>>::empty(),
    {
        Identity::new()
    }
}

/// An answer is drawn from the options offered, by the question's key and
/// the character's invariant alone: for any non-empty options, the index
/// `ask` draws by names one of them, so two identities that have not
/// settled the key, asked the same question of the same character, settle
/// the same option.
pub proof fn an_answer_is_one_of_the_options(key: Seq<u8>, chi_bits: u64, options: Seq<&str>)
    requires
        0 < options.len() <= usize::MAX,
    ensures
        0 <= answer_hash(key, chi_bits) % (options.len() as u64) < options.len(),
        options.contains(options[(answer_hash(key, chi_bits) % (options.len() as u64)) as int]),
{
    let i = (answer_hash(key, chi_bits) % (options.len() as u64)) as int;
    assert(0 <= i < options.len());
}

/// A record that has not been touched: the record of an instance's post.
pub fn fresh() -> (r: Record)
    ensures
        r.count() == 0,
{
    Record::new()
}

} // verus!
