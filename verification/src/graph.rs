//! Contact graphs: positions and the contacts between them.
//!
//! A contact between two positions carries a weight, the cost of telling
//! them apart. The weight type is a parameter: this module stores weights
//! and hands them back, and never computes with them, so everything it does
//! is a statement about which positions are in contact.

use vstd::prelude::*;

verus! {

broadcast use vstd::seq_lib::group_seq_properties;

/// A position in a contact graph.
pub type Position = u32;

/// The medium vertex, adjacent to every position: represented as the
/// position one past the end of the underlying graph.
#[derive(Debug, Clone, Copy, PartialEq, Eq, Structural, PartialOrd, Ord, Hash)]
pub struct Medium(pub Position);

/// The unordered pair `{u, v}`, written with the smaller position first.
pub open spec fn key(u: Position, v: Position) -> (Position, Position) {
    if u < v {
        (u, v)
    } else {
        (v, u)
    }
}

/// The pair of a contact.
pub open spec fn pair<W>(c: (Position, Position, W)) -> (Position, Position) {
    (c.0, c.1)
}

/// Lexicographic order on pairs.
pub open spec fn key_lt(a: (Position, Position), b: (Position, Position)) -> bool {
    a.0 < b.0 || (a.0 == b.0 && a.1 < b.1)
}

/// Whether the contact list is in canonical form: each pair written smaller
/// first, strictly increasing in lexicographic order.
pub open spec fn canonical_contacts<W>(cs: Seq<(Position, Position, W)>) -> bool {
    &&& forall|i: int| 0 <= i < cs.len() ==> #[trigger] cs[i].0 < cs[i].1
    &&& forall|i: int, j: int|
        0 <= i < j < cs.len() ==> key_lt(pair(#[trigger] cs[i]), pair(#[trigger] cs[j]))
}

/// Whether some contact of the list has pair `k`.
pub open spec fn has_pair<W>(cs: Seq<(Position, Position, W)>, k: (Position, Position)) -> bool {
    exists|i: int| 0 <= i < cs.len() && pair(#[trigger] cs[i]) == k
}

/// The contacts as a map from pair to weight.
pub open spec fn weights_of<W>(cs: Seq<(Position, Position, W)>) -> Map<(Position, Position), W> {
    Map::new(
        |k: (Position, Position)| has_pair(cs, k),
        |k: (Position, Position)| cs[choose|i: int| 0 <= i < cs.len() && pair(#[trigger] cs[i]) == k].2,
    )
}

proof fn lemma_weight_at<W>(cs: Seq<(Position, Position, W)>, i: int)
    requires
        canonical_contacts(cs),
        0 <= i < cs.len(),
    ensures
        weights_of(cs).dom().contains(pair(cs[i])),
        weights_of(cs)[pair(cs[i])] == cs[i].2,
{
    let k = pair(cs[i]);
    assert(has_pair(cs, k));
    let j = choose|j: int| 0 <= j < cs.len() && pair(#[trigger] cs[j]) == k;
    if j < i {
        assert(key_lt(pair(cs[j]), pair(cs[i])));
    } else if j > i {
        assert(key_lt(pair(cs[i]), pair(cs[j])));
    }
}

/// A finite simple graph on positions `0..order`, with a weight per contact.
#[derive(Debug)]
pub struct ContactGraph<W> {
    order: u32,
    contacts: Vec<(Position, Position, W)>,
}

impl<W> ContactGraph<W> {
    #[verifier::type_invariant]
    closed spec fn well_formed(&self) -> bool {
        canonical_contacts(self.contacts@)
    }

    /// The number of positions.
    pub closed spec fn order_of(&self) -> u32 {
        self.order
    }

    /// Every contact, as `(u, v, w)` with `u < v`, in increasing order of
    /// `(u, v)`.
    pub closed spec fn contact_list(&self) -> Seq<(Position, Position, W)> {
        self.contacts@
    }

    /// The contacts, as a map from pair `(u, v)` with `u < v` to weight.
    pub open spec fn weights(&self) -> Map<(Position, Position), W> {
        weights_of(self.contact_list())
    }

    /// Whether `{u, v}` is a contact.
    pub open spec fn adjacent(&self, u: Position, v: Position) -> bool {
        self.weights().dom().contains(key(u, v))
    }

    /// An empty graph on `order` positions.
    pub fn new(order: u32) -> (g: Self)
        ensures
            g.order_of() == order,
            g.contact_list() == Seq::<(Position, Position, W)>::empty(),
            g.weights() == Map::<(Position, Position), W>::empty(),
    {
        let g = ContactGraph { order, contacts: Vec::new() };
        assert(g.weights() =~= Map::<(Position, Position), W>::empty());
        g
    }

    /// Number of positions.
    pub fn order(&self) -> (n: u32)
        ensures
            n == self.order_of(),
    {
        self.order
    }

    /// Add the contact `{u, v}` with weight `w`, replacing the weight if the
    /// contact exists. Rejects a self-loop: contact graphs are simple.
    ///
    /// The weight is not examined here.
    #[verifier::rlimit(60)]
    pub fn add_contact(&mut self, u: Position, v: Position, w: W) -> (r: Result<(), crate::Error>)
        ensures
            final(self).order_of() == old(self).order_of(),
            u == v ==> (r matches Err(crate::Error::Graph(m)) && m@ == "contact graphs are simple"@),
            u == v ==> final(self).weights() == old(self).weights(),
            u != v ==> r is Ok && final(self).weights() == old(self).weights().insert(key(u, v), w),
    {
        if u == v {
            return Err(crate::Error::Graph(String::from_str("contact graphs are simple")));
        }
        proof { use_type_invariant(&*self); }
        let (a, b) = if u < v { (u, v) } else { (v, u) };
        let mut cs: Vec<(Position, Position, W)> = Vec::new();
        std::mem::swap(&mut cs, &mut self.contacts);
        let ghost before = cs@;
        let mut i: usize = 0;
        while i < cs.len() && (cs[i].0 < a || (cs[i].0 == a && cs[i].1 < b))
            invariant
                i <= cs@.len(),
                cs@ == before,
                canonical_contacts(before),
                forall|j: int| 0 <= j < i ==> key_lt(pair(#[trigger] before[j]), (a, b)),
            decreases cs@.len() - i,
        {
            i += 1;
        }
        let ghost k = (a, b);
        assert(forall|j: int| i <= j < before.len() ==> !key_lt(pair(#[trigger] before[j]), k)) by {
            assert forall|j: int| i <= j < before.len() implies !key_lt(pair(#[trigger] before[j]), k) by {
                if j > i {
                    assert(key_lt(pair(before[i as int]), pair(before[j])));
                }
            }
        }
        if i < cs.len() && cs[i].0 == a && cs[i].1 == b {
            cs.set(i, (a, b, w));
            proof {
                let after = cs@;
                assert(after == before.update(i as int, (a, b, w)));
                assert(canonical_contacts(after)) by {
                    assert forall|x: int, y: int| 0 <= x < y < after.len() implies key_lt(pair(#[trigger] after[x]), pair(#[trigger] after[y])) by {
                        assert(pair(after[x]) == pair(before[x]));
                        assert(pair(after[y]) == pair(before[y]));
                    }
                }
                assert forall|kk: (Position, Position)| #[trigger] has_pair(after, kk) == (has_pair(before, kk) || kk == k) by {
                    if has_pair(before, kk) {
                        let j = choose|j: int| 0 <= j < before.len() && pair(#[trigger] before[j]) == kk;
                        assert(pair(after[j]) == kk);
                    }
                    if has_pair(after, kk) {
                        let j = choose|j: int| 0 <= j < after.len() && pair(#[trigger] after[j]) == kk;
                        assert(pair(before[j]) == kk);
                    }
                    if kk == k {
                        assert(pair(after[i as int]) == kk);
                    }
                }
                assert forall|kk: (Position, Position)| has_pair(after, kk) implies weights_of(after)[kk] == (
                if kk == k { w } else { weights_of(before)[kk] }) by {
                    let j = choose|j: int| 0 <= j < after.len() && pair(#[trigger] after[j]) == kk;
                    lemma_weight_at(after, j);
                    if j != i {
                        lemma_weight_at(before, j);
                    }
                }
                assert(weights_of(after) =~= weights_of(before).insert(k, w));
            }
        } else {
            cs.insert(i, (a, b, w));
            proof {
                let after = cs@;
                assert(after == before.insert(i as int, (a, b, w)));
                assert forall|j: int| i <= j < before.len() implies key_lt(k, pair(#[trigger] before[j])) by {
                    if j == i {
                        assert(pair(before[j]) != k);
                    } else {
                        assert(key_lt(pair(before[i as int]), pair(before[j])));
                        assert(pair(before[i as int]) != k || !key_lt(pair(before[i as int]), k));
                    }
                }
                assert(canonical_contacts(after)) by {
                    assert forall|x: int| 0 <= x < after.len() implies #[trigger] after[x].0 < after[x].1 by {
                        if x > i {
                            assert(after[x] == before[x - 1]);
                        } else if x < i {
                            assert(after[x] == before[x]);
                        }
                    }
                    assert forall|x: int, y: int| 0 <= x < y < after.len() implies key_lt(pair(#[trigger] after[x]), pair(#[trigger] after[y])) by {
                        if y < i {
                            assert(after[x] == before[x] && after[y] == before[y]);
                        } else if y == i {
                            assert(after[x] == before[x]);
                        } else if x < i {
                            assert(after[x] == before[x] && after[y] == before[y - 1]);
                            assert(key_lt(pair(before[x]), k));
                        } else if x == i {
                            assert(after[y] == before[y - 1]);
                        } else {
                            assert(after[x] == before[x - 1] && after[y] == before[y - 1]);
                        }
                    }
                }
                assert(!has_pair(before, k)) by {
                    if has_pair(before, k) {
                        let j = choose|j: int| 0 <= j < before.len() && pair(#[trigger] before[j]) == k;
                        if j < i {
                            assert(key_lt(pair(before[j]), k));
                        } else {
                            assert(key_lt(k, pair(before[j])));
                        }
                    }
                }
                assert forall|kk: (Position, Position)| #[trigger] has_pair(after, kk) == (has_pair(before, kk) || kk == k) by {
                    if has_pair(before, kk) {
                        let j = choose|j: int| 0 <= j < before.len() && pair(#[trigger] before[j]) == kk;
                        if j < i {
                            assert(pair(after[j]) == kk);
                        } else {
                            assert(pair(after[j + 1]) == kk);
                        }
                    }
                    if has_pair(after, kk) {
                        let j = choose|j: int| 0 <= j < after.len() && pair(#[trigger] after[j]) == kk;
                        if j < i {
                            assert(pair(before[j]) == kk);
                        } else if j > i {
                            assert(pair(before[j - 1]) == kk);
                        }
                    }
                    if kk == k {
                        assert(pair(after[i as int]) == kk);
                    }
                }
                assert forall|kk: (Position, Position)| has_pair(after, kk) implies weights_of(after)[kk] == (
                if kk == k { w } else { weights_of(before)[kk] }) by {
                    let j = choose|j: int| 0 <= j < after.len() && pair(#[trigger] after[j]) == kk;
                    lemma_weight_at(after, j);
                    if j < i {
                        lemma_weight_at(before, j);
                    } else if j > i {
                        lemma_weight_at(before, j - 1);
                    }
                }
                assert(weights_of(after) =~= weights_of(before).insert(k, w));
            }
        }
        self.contacts = cs;
        Ok(())
    }
}

impl<W> ContactGraph<W> {
    /// Append the contact `{u, v}`, `u < v`, which comes after every
    /// contact already held.
    pub(crate) fn push_contact(&mut self, u: Position, v: Position, w: W)
        requires
            u < v,
            old(self).contact_list().len() > 0 ==> key_lt(pair(old(self).contact_list().last()), (u, v)),
        ensures
            final(self).order_of() == old(self).order_of(),
            final(self).contact_list() == old(self).contact_list().push((u, v, w)),
    {
        proof { use_type_invariant(&*self); }
        let mut current = ContactGraph { order: self.order, contacts: Vec::new() };
        std::mem::swap(&mut current, self);
        let ContactGraph { order, mut contacts } = current;
        let ghost before = contacts@;
        contacts.push((u, v, w));
        proof {
            assert forall|i: int, j: int| 0 <= i < j < contacts@.len() implies key_lt(pair(#[trigger] contacts@[i]), pair(#[trigger] contacts@[j])) by {
                if j == before.len() {
                    if i < before.len() - 1 {
                        assert(key_lt(pair(before[i]), pair(before.last())));
                    }
                } else {
                    assert(contacts@[i] == before[i] && contacts@[j] == before[j]);
                }
            }
        }
        *self = ContactGraph { order, contacts };
    }
}

impl<W: Copy> ContactGraph<W> {
    /// Weight of the contact `{u, v}`, if it exists.
    pub fn weight(&self, u: Position, v: Position) -> (r: Option<W>)
        ensures
            r == (if self.adjacent(u, v) {
                Some(self.weights()[key(u, v)])
            } else {
                None::<W>
            }),
    {
        proof { use_type_invariant(self); }
        let (a, b) = if u < v { (u, v) } else { (v, u) };
        assert((a, b) == key(u, v));
        let ghost cs = self.contacts@;
        let mut i: usize = 0;
        while i < self.contacts.len()
            invariant
                cs == self.contacts@,
                canonical_contacts(cs),
                i <= cs.len(),
                (a, b) == key(u, v),
                forall|t: int| 0 <= t < i ==> pair(#[trigger] cs[t]) != (a, b),
            decreases cs.len() - i,
        {
            if self.contacts[i].0 == a && self.contacts[i].1 == b {
                proof {
                    lemma_weight_at(cs, i as int);
                    assert(pair(cs[i as int]) == key(u, v));
                }
                return Some(self.contacts[i].2);
            }
            i += 1;
        }
        proof {
            if has_pair(cs, (a, b)) {
                let t = choose|t: int| 0 <= t < cs.len() && pair(#[trigger] cs[t]) == (a, b);
            }
        }
        None
    }

    /// Every contact, as `(u, v, w)` with `u < v`, in increasing order of
    /// `(u, v)`.
    pub fn edges(&self) -> (es: Vec<(Position, Position, W)>)
        ensures
            es@ == self.contact_list(),
            canonical_contacts(es@),
            weights_of(es@) == self.weights(),
    {
        proof { use_type_invariant(self); }
        let mut es: Vec<(Position, Position, W)> = Vec::new();
        let mut i: usize = 0;
        while i < self.contacts.len()
            invariant
                i <= self.contacts@.len(),
                es@ == self.contacts@.take(i as int),
            decreases self.contacts@.len() - i,
        {
            es.push(self.contacts[i]);
            i += 1;
            assert(es@ =~= self.contacts@.take(i as int));
        }
        assert(self.contacts@.take(self.contacts@.len() as int) =~= self.contacts@);
        es
    }
}

impl<W: Copy> Clone for ContactGraph<W> {
    fn clone(&self) -> (g: Self)
        ensures
            g.order_of() == self.order_of(),
            g.contact_list() == self.contact_list(),
    {
        proof { use_type_invariant(self); }
        ContactGraph { order: self.order, contacts: self.edges() }
    }
}

/// Whether `s` is strictly increasing.
pub open spec fn increasing(s: Seq<Position>) -> bool {
    forall|i: int, j: int| 0 <= i < j < s.len() ==> #[trigger] s[i] < #[trigger] s[j]
}

/// The distinct positions of `v`, in increasing order.
pub fn sorted_positions(v: &[Position]) -> (r: Vec<Position>)
    ensures
        increasing(r@),
        r@.to_set() == v@.to_set(),
{
    let mut r: Vec<Position> = Vec::new();
    let mut i: usize = 0;
    while i < v.len()
        invariant
            i <= v@.len(),
            increasing(r@),
            r@.to_set() == v@.take(i as int).to_set(),
        decreases v@.len() - i,
    {
        let x = v[i];
        let ghost before = r@;
        let mut k: usize = 0;
        while k < r.len() && r[k] < x
            invariant
                k <= r@.len(),
                r@ == before,
                forall|t: int| 0 <= t < k ==> r@[t] < x,
            decreases r@.len() - k,
        {
            k += 1;
        }
        if k < r.len() && r[k] == x {
        } else {
            r.insert(k, x);
            proof {
                assert forall|a: int, b: int| 0 <= a < b < r@.len() implies #[trigger] r@[a] < #[trigger] r@[b] by {
                    if b < k {
                        assert(r@[a] == before[a] && r@[b] == before[b]);
                    } else if b == k {
                        assert(r@[a] == before[a]);
                    } else if a < k {
                        assert(r@[a] == before[a] && r@[b] == before[b - 1]);
                    } else if a == k {
                        assert(r@[b] == before[b - 1]);
                        assert(before[k as int] >= x);
                    } else {
                        assert(r@[a] == before[a - 1] && r@[b] == before[b - 1]);
                    }
                }
            }
        }
        proof {
            assert(v@.take(i + 1) =~= v@.take(i as int).push(x));
            assert(r@.to_set() =~= before.to_set().insert(x)) by {
                assert forall|y: Position| r@.to_set().contains(y) <==> before.to_set().insert(x).contains(y) by {
                    if r@.to_set().contains(y) {
                        let t = choose|t: int| 0 <= t < r@.len() && r@[t] == y;
                        if y != x {
                            if t < k {
                                assert(before[t] == y);
                            } else if before.len() < r@.len() {
                                assert(before[t - 1] == y);
                            } else {
                                assert(before[t] == y);
                            }
                        }
                    }
                    if before.to_set().contains(y) {
                        let t = choose|t: int| 0 <= t < before.len() && before[t] == y;
                        if before.len() < r@.len() {
                            if t < k {
                                assert(r@[t] == y);
                            } else {
                                assert(r@[t + 1] == y);
                            }
                        } else {
                            assert(r@[t] == y);
                        }
                    }
                    if y == x {
                        assert(r@[k as int] == x);
                    }
                }
            }
            assert(v@.take(i + 1).to_set() =~= v@.take(i as int).to_set().insert(x));
        }
        i += 1;
    }
    assert(v@.take(v@.len() as int) =~= v@);
    r
}

/// An increasing sequence of positions drawn from `t` is no longer than `t`.
pub proof fn lemma_increasing_len(s: Seq<Position>, t: Seq<Position>)
    requires
        increasing(s),
        s.to_set().subset_of(t.to_set()),
    ensures
        s.len() <= t.len(),
{
    assert(s.no_duplicates()) by {
        assert forall|a: int, b: int| 0 <= a < s.len() && 0 <= b < s.len() && a != b implies s[a] != s[b] by {
            if a < b { assert(s[a] < s[b]); } else { assert(s[b] < s[a]); }
        }
    }
    s.unique_seq_to_set();
    t.lemma_cardinality_of_set();
    vstd::set_lib::lemma_len_subset(s.to_set(), t.to_set());
}

/// Adding the next contact of a canonical list adds its pair to the map.
pub proof fn lemma_weights_push<W>(cs: Seq<(Position, Position, W)>, t: int)
    requires
        canonical_contacts(cs),
        0 <= t < cs.len(),
    ensures
        canonical_contacts(cs.take(t + 1)),
        weights_of(cs.take(t + 1)) == weights_of(cs.take(t)).insert(pair(cs[t]), cs[t].2),
{
    let a = cs.take(t);
    let b = cs.take(t + 1);
    assert(canonical_contacts(a)) by {
        assert forall|i: int, j: int| 0 <= i < j < a.len() implies key_lt(pair(#[trigger] a[i]), pair(#[trigger] a[j])) by {
            assert(a[i] == cs[i] && a[j] == cs[j]);
        }
    }
    assert(canonical_contacts(b)) by {
        assert forall|i: int, j: int| 0 <= i < j < b.len() implies key_lt(pair(#[trigger] b[i]), pair(#[trigger] b[j])) by {
            assert(b[i] == cs[i] && b[j] == cs[j]);
        }
    }
    let m = weights_of(a).insert(pair(cs[t]), cs[t].2);
    assert forall|k: (Position, Position)| #[trigger] weights_of(b).dom().contains(k) <==> m.dom().contains(k) by {
        if has_pair(b, k) {
            let i = choose|i: int| 0 <= i < b.len() && pair(#[trigger] b[i]) == k;
            if i < t {
                assert(a[i] == b[i]);
            }
        }
        if has_pair(a, k) {
            let i = choose|i: int| 0 <= i < a.len() && pair(#[trigger] a[i]) == k;
            assert(b[i] == a[i]);
        }
        if k == pair(cs[t]) {
            assert(b[t] == cs[t]);
        }
    }
    assert forall|k: (Position, Position)| #[trigger] weights_of(b).dom().contains(k) implies weights_of(b)[k] == m[k] by {
        let i = choose|i: int| 0 <= i < b.len() && pair(#[trigger] b[i]) == k;
        lemma_weight_at(b, i);
        if i < t {
            assert(a[i] == b[i]);
            lemma_weight_at(a, i);
            assert(key_lt(pair(cs[i]), pair(cs[t])));
        } else {
            assert(b[i] == cs[t]);
        }
    }
    assert(weights_of(b) =~= m);
}

/// The contacts among `ms`, renumbered by their index in `ms`: the pair
/// `(i, j)` is a contact exactly when `(ms[i], ms[j])` is one of `ws`, and
/// it carries the same weight.
pub open spec fn induced_weights<W>(ws: Map<(Position, Position), W>, ms: Seq<Position>) -> Map<(Position, Position), W> {
    Map::new(
        |k: (Position, Position)| 0 <= k.0 < ms.len() && 0 <= k.1 < ms.len() && ws.dom().contains((ms[k.0 as int], ms[k.1 as int])),
        |k: (Position, Position)| ws[(ms[k.0 as int], ms[k.1 as int])],
    )
}

/// Whether `g` is the subgraph of `city` induced on `members`, renumbered
/// from zero in increasing order of position.
pub open spec fn induced_from<W>(g: ContactGraph<W>, city: ContactGraph<W>, members: Seq<Position>) -> bool {
    exists|ms: Seq<Position>| {
        &&& increasing(ms)
        &&& ms.to_set() == members.to_set()
        &&& g.order_of() == ms.len()
        &&& g.weights() == #[trigger] induced_weights(city.weights(), ms)
    }
}

/// The index of `x` in `ms`, if it occurs.
pub fn index_of(ms: &Vec<Position>, x: Position) -> (r: Option<u32>)
    requires
        ms@.len() <= u32::MAX,
    ensures
        match r {
            Some(i) => i < ms@.len() && ms@[i as int] == x,
            None => !ms@.contains(x),
        },
{
    let mut i: usize = 0;
    while i < ms.len()
        invariant
            ms@.len() <= u32::MAX,
            i <= ms@.len(),
            forall|j: int| 0 <= j < i ==> ms@[j] != x,
        decreases ms@.len() - i,
    {
        if ms[i] == x {
            return Some(i as u32);
        }
        i += 1;
    }
    None
}

impl<W: Copy> ContactGraph<W> {
    /// The subgraph induced on `members`, renumbered from zero in
    /// increasing order of position: the `i`-th smallest member becomes
    /// position `i`, and a contact survives exactly when both its ends are
    /// members.
    pub fn induced(&self, members: &[Position]) -> (out: ContactGraph<W>)
        requires
            members@.len() < u32::MAX,
        ensures
            induced_from(out, *self, members@),
    {
        proof { use_type_invariant(self); }
        let ms = sorted_positions(members);
        proof {
            members@.lemma_cardinality_of_set();
            assert(ms@.no_duplicates()) by {
                assert forall|a: int, b: int| 0 <= a < ms@.len() && 0 <= b < ms@.len() && a != b implies ms@[a] != ms@[b] by {
                    if a < b { assert(ms@[a] < ms@[b]); } else { assert(ms@[b] < ms@[a]); }
                }
            }
            ms@.unique_seq_to_set();
        }
        let n = ms.len() as u32;
        let mut out: ContactGraph<W> = ContactGraph::new(n);
        let cs = self.edges();
        let mut t: usize = 0;
        while t < cs.len()
            invariant
                canonical_contacts(cs@),
                increasing(ms@),
                ms@.len() <= u32::MAX,
                out.order_of() == ms@.len(),
                t <= cs@.len(),
                weights_of(cs@) == self.weights(),
                out.weights() == induced_weights(weights_of(cs@.take(t as int)), ms@),
            decreases cs@.len() - t,
        {
            let (u, v, w) = cs[t];
            let ghost before = out.weights();
            proof { lemma_weights_push(cs@, t as int); }
            let iu = index_of(&ms, u);
            let iv = index_of(&ms, v);
            match (iu, iv) {
                (Some(i), Some(j)) => {
                    assert(i < j) by {
                        assert(u < v);
                        if j < i { assert(ms@[j as int] < ms@[i as int]); }
                    }
                    let _ = out.add_contact(i, j, w);
                    proof {
                        assert(out.weights() =~= induced_weights(weights_of(cs@.take(t + 1)), ms@)) by {
                            assert forall|k: (Position, Position)| #[trigger] out.weights().dom().contains(k) <==> induced_weights(weights_of(cs@.take(t + 1)), ms@).dom().contains(k) by {
                                if 0 <= k.0 < ms@.len() && 0 <= k.1 < ms@.len() && (ms@[k.0 as int], ms@[k.1 as int]) == (u, v) {
                                    if k.0 != i { if k.0 < i { assert(ms@[k.0 as int] < ms@[i as int]); } else { assert(ms@[i as int] < ms@[k.0 as int]); } }
                                    if k.1 != j { if k.1 < j { assert(ms@[k.1 as int] < ms@[j as int]); } else { assert(ms@[j as int] < ms@[k.1 as int]); } }
                                }
                            }
                            assert forall|k: (Position, Position)| #[trigger] out.weights().dom().contains(k) implies out.weights()[k] == induced_weights(weights_of(cs@.take(t + 1)), ms@)[k] by {
                                if 0 <= k.0 < ms@.len() && 0 <= k.1 < ms@.len() && (ms@[k.0 as int], ms@[k.1 as int]) == (u, v) {
                                    if k.0 != i { if k.0 < i { assert(ms@[k.0 as int] < ms@[i as int]); } else { assert(ms@[i as int] < ms@[k.0 as int]); } }
                                    if k.1 != j { if k.1 < j { assert(ms@[k.1 as int] < ms@[j as int]); } else { assert(ms@[j as int] < ms@[k.1 as int]); } }
                                }
                            }
                        }
                    }
                },
                _ => {
                    proof {
                        assert(out.weights() =~= induced_weights(weights_of(cs@.take(t + 1)), ms@)) by {
                            assert forall|k: (Position, Position)| #[trigger] induced_weights(weights_of(cs@.take(t + 1)), ms@).dom().contains(k) implies (ms@[k.0 as int], ms@[k.1 as int]) != (u, v) by {
                                assert(ms@.contains(ms@[k.0 as int]));
                                assert(ms@.contains(ms@[k.1 as int]));
                            }
                        }
                    }
                },
            }
            t += 1;
        }
        assert(cs@.take(cs@.len() as int) =~= cs@);
        assert(induced_weights(self.weights(), ms@) == out.weights());
        out
    }
}

/// The contacts of `ws` with every position `x` renamed `p[x]`.
pub open spec fn relabelled<W>(ws: Map<(Position, Position), W>, p: Seq<Position>) -> Map<(Position, Position), W> {
    Map::new(
        |k: (Position, Position)| exists|e: (Position, Position)| ws.dom().contains(e) && #[trigger] key(p[e.0 as int], p[e.1 as int]) == k,
        |k: (Position, Position)| ws[choose|e: (Position, Position)| ws.dom().contains(e) && #[trigger] key(p[e.0 as int], p[e.1 as int]) == k],
    )
}

/// Whether `p` names no two positions alike.
pub open spec fn injective(p: Seq<Position>) -> bool {
    forall|i: int, j: int| 0 <= i < p.len() && 0 <= j < p.len() && i != j ==> p[i] != p[j]
}

proof fn lemma_relabel_step<W>(m: Map<(Position, Position), W>, e: (Position, Position), w: W, p: Seq<Position>)
    requires
        injective(p),
        e.0 < e.1 < p.len(),
        !m.dom().contains(e),
        forall|d: (Position, Position)| #[trigger] m.dom().contains(d) ==> d.0 < d.1 < p.len(),
    ensures
        relabelled(m.insert(e, w), p) == relabelled(m, p).insert(key(p[e.0 as int], p[e.1 as int]), w),
{
    let a = relabelled(m.insert(e, w), p);
    let b = relabelled(m, p).insert(key(p[e.0 as int], p[e.1 as int]), w);
    let ke = key(p[e.0 as int], p[e.1 as int]);
    assert forall|d: (Position, Position)| m.dom().contains(d) implies #[trigger] key(p[d.0 as int], p[d.1 as int]) != ke by {
        if d.0 != e.0 {
            if d.0 != e.1 {
                assert(p[d.0 as int] != p[e.0 as int] && p[d.0 as int] != p[e.1 as int]);
            } else {
                assert(p[d.1 as int] != p[e.1 as int]);
                assert(p[d.1 as int] != p[e.0 as int]) by {
                    if d.1 == e.0 { assert(d.0 < d.1 && e.0 < e.1); }
                }
                assert(p[d.0 as int] != p[e.0 as int]);
            }
        } else {
            assert(d.1 != e.1);
            assert(p[d.1 as int] != p[e.1 as int]);
            assert(p[d.1 as int] != p[e.0 as int]);
        }
    }
    assert forall|k: (Position, Position)| #[trigger] a.dom().contains(k) <==> b.dom().contains(k) by {
        if a.dom().contains(k) {
            let d = choose|d: (Position, Position)| m.insert(e, w).dom().contains(d) && #[trigger] key(p[d.0 as int], p[d.1 as int]) == k;
            if d != e {
                assert(m.dom().contains(d));
                assert(relabelled(m, p).dom().contains(k));
            }
        }
        if relabelled(m, p).dom().contains(k) {
            let d = choose|d: (Position, Position)| m.dom().contains(d) && #[trigger] key(p[d.0 as int], p[d.1 as int]) == k;
            assert(m.insert(e, w).dom().contains(d));
        }
        if k == ke {
            assert(m.insert(e, w).dom().contains(e));
        }
    }
    assert forall|k: (Position, Position)| #[trigger] a.dom().contains(k) implies a[k] == b[k] by {
        let d = choose|d: (Position, Position)| m.insert(e, w).dom().contains(d) && #[trigger] key(p[d.0 as int], p[d.1 as int]) == k;
        if k == ke {
            if d != e {
                assert(m.dom().contains(d));
            }
        } else {
            assert(d != e);
            assert(m.dom().contains(d));
            let d2 = choose|d2: (Position, Position)| m.dom().contains(d2) && #[trigger] key(p[d2.0 as int], p[d2.1 as int]) == k;
            if d2 != d {
                if d2.0 != d.0 || d2.1 != d.1 {
                    assert(key(p[d.0 as int], p[d.1 as int]) == key(p[d2.0 as int], p[d2.1 as int]));
                    assert(d.0 < d.1 && d2.0 < d2.1);
                    if p[d.0 as int] < p[d.1 as int] {
                        if p[d2.0 as int] < p[d2.1 as int] {
                            assert(p[d.0 as int] == p[d2.0 as int]);
                        } else {
                            assert(p[d.0 as int] == p[d2.1 as int]);
                        }
                    } else {
                        if p[d2.0 as int] < p[d2.1 as int] {
                            assert(p[d.1 as int] == p[d2.0 as int]);
                        } else {
                            assert(p[d.1 as int] == p[d2.1 as int]);
                        }
                    }
                }
            }
        }
    }
    assert(a =~= b);
}

impl<W: Copy> ContactGraph<W> {
    /// Apply a relabelling of positions: every contact `{u, v}` becomes
    /// `{perm[u], perm[v]}` with the same weight. `perm` must name every
    /// position a contact touches, and no two alike.
    pub fn relabel(&self, perm: &[Position]) -> (g: ContactGraph<W>)
        requires
            forall|k: (Position, Position)| #[trigger] self.weights().dom().contains(k) ==> k.1 < perm@.len(),
            injective(perm@),
        ensures
            g.order_of() == self.order_of(),
            g.weights() == relabelled(self.weights(), perm@),
    {
        proof { use_type_invariant(self); }
        let mut g: ContactGraph<W> = ContactGraph::new(self.order);
        let cs = self.edges();
        proof {
            assert(relabelled(weights_of(cs@.take(0)), perm@) =~= Map::<(Position, Position), W>::empty()) by {
                assert(weights_of(cs@.take(0)) =~= Map::<(Position, Position), W>::empty());
            }
        }
        let mut t: usize = 0;
        while t < cs.len()
            invariant
                canonical_contacts(cs@),
                weights_of(cs@) == self.weights(),
                forall|k: (Position, Position)| #[trigger] self.weights().dom().contains(k) ==> k.1 < perm@.len(),
                injective(perm@),
                t <= cs@.len(),
                g.order_of() == self.order_of(),
                g.weights() == relabelled(weights_of(cs@.take(t as int)), perm@),
            decreases cs@.len() - t,
        {
            let (u, v, w) = cs[t];
            proof {
                lemma_weights_push(cs@, t as int);
                lemma_weight_at(cs@, t as int);
                let m = weights_of(cs@.take(t as int));
                assert(!m.dom().contains((u, v))) by {
                    if m.dom().contains((u, v)) {
                        let j = choose|j: int| 0 <= j < cs@.take(t as int).len() && pair(#[trigger] cs@.take(t as int)[j]) == (u, v);
                        assert(key_lt(pair(cs@[j]), pair(cs@[t as int])));
                    }
                }
                assert forall|d: (Position, Position)| #[trigger] m.dom().contains(d) implies d.0 < d.1 < perm@.len() by {
                    let j = choose|j: int| 0 <= j < cs@.take(t as int).len() && pair(#[trigger] cs@.take(t as int)[j]) == d;
                    lemma_weight_at(cs@, j);
                    assert(cs@[j].0 < cs@[j].1);
                }
                assert(self.weights().dom().contains((u, v)));
                lemma_relabel_step(m, (u, v), w, perm@);
            }
            let _ = g.add_contact(perm[u as usize], perm[v as usize], w);
            t += 1;
        }
        assert(cs@.take(cs@.len() as int) =~= cs@);
        g
    }
}

/// A relabelling keeps every contact and its weight: under an injective
/// relabelling, the contact `e` becomes the contact between the images of
/// its ends, carrying the same weight.
pub proof fn a_relabelling_keeps_every_weight<W>(ws: Map<(Position, Position), W>, p: Seq<Position>, e: (Position, Position))
    requires
        injective(p),
        forall|d: (Position, Position)| #[trigger] ws.dom().contains(d) ==> d.0 < d.1 < p.len(),
        ws.dom().contains(e),
    ensures
        relabelled(ws, p).dom().contains(key(p[e.0 as int], p[e.1 as int])),
        relabelled(ws, p)[key(p[e.0 as int], p[e.1 as int])] == ws[e],
{
    let k = key(p[e.0 as int], p[e.1 as int]);
    assert(ws.dom().contains(e) && key(p[e.0 as int], p[e.1 as int]) == k);
    let c = choose|c: (Position, Position)| ws.dom().contains(c) && #[trigger] key(p[c.0 as int], p[c.1 as int]) == k;
    assert(c.0 < c.1 < p.len());
    if c != e {
        if c.0 != e.0 {
            if c.0 != e.1 {
                assert(p[c.0 as int] != p[e.0 as int] && p[c.0 as int] != p[e.1 as int]);
            } else {
                assert(p[c.1 as int] != p[e.1 as int]);
                assert(p[c.1 as int] != p[e.0 as int]) by {
                    if c.1 == e.0 {
                        assert(c.0 < c.1 && e.0 < e.1);
                    }
                }
                assert(p[c.0 as int] != p[e.0 as int]);
            }
        } else {
            assert(c.1 != e.1);
            assert(p[c.1 as int] != p[e.1 as int]);
            assert(p[c.1 as int] != p[e.0 as int]);
        }
    }
}

/// Whether `p` is a walk through contacts starting at position 0.
pub open spec fn walk_from_origin<W>(g: &ContactGraph<W>, p: Seq<Position>) -> bool {
    &&& p.len() >= 1
    &&& p[0] == 0
    &&& forall|i: int| 0 <= i < p.len() - 1 ==> g.adjacent(#[trigger] p[i], p[i + 1])
}

/// Whether `x` is an endpoint of some contact.
pub open spec fn endpoint<W>(cs: Seq<(Position, Position, W)>, x: Position) -> bool {
    exists|t: int| #![trigger cs[t]] 0 <= t < cs.len() && (cs[t].0 == x || cs[t].1 == x)
}

/// A bound on how many positions can be reached: the origin and both ends
/// of every contact.
pub open spec fn endpoint_bound<W>(cs: Seq<(Position, Position, W)>) -> nat {
    2 * cs.len() + 1
}

proof fn lemma_seen_bounded<W>(cs: Seq<(Position, Position, W)>, seen: Seq<Position>)
    requires
        seen.no_duplicates(),
        forall|i: int| 0 <= i < seen.len() ==> (#[trigger] seen[i] == 0 || endpoint(cs, seen[i])),
    ensures
        seen.len() <= endpoint_bound(cs),
{
    broadcast use vstd::seq_lib::seq_to_set_is_finite;
    let n = cs.len() as int;
    let ends = Seq::new(
        (2 * n + 1) as nat,
        |k: int|
            if k < n {
                cs[k].0
            } else if k < 2 * n {
                cs[k - n].1
            } else {
                0u32
            },
    );
    assert(ends.len() == endpoint_bound(cs));
    assert(seen.to_set().subset_of(ends.to_set())) by {
        assert forall|x: Position| seen.to_set().contains(x) implies ends.to_set().contains(x) by {
            let i = choose|i: int| 0 <= i < seen.len() && seen[i] == x;
            if x == 0 {
                assert(ends[2 * n] == 0);
            } else {
                assert(endpoint(cs, x));
                let t = choose|t: int| #![trigger cs[t]] 0 <= t < cs.len() && (cs[t].0 == x || cs[t].1 == x);
                assert(0 <= t < n);
                if cs[t].0 == x {
                    assert(ends[t] == x);
                } else {
                    assert(ends[n + t] == x);
                }
            }
        }
    }
    seen.unique_seq_to_set();
    ends.lemma_cardinality_of_set();
    vstd::set_lib::lemma_len_subset(seen.to_set(), ends.to_set());
}

/// Whether `x` occurs in `v`.
pub fn contains(v: &Vec<Position>, x: Position) -> (b: bool)
    ensures
        b == v@.contains(x),
{
    let mut i: usize = 0;
    while i < v.len()
        invariant
            i <= v@.len(),
            forall|j: int| 0 <= j < i ==> v@[j] != x,
        decreases v@.len() - i,
    {
        if v[i] == x {
            return true;
        }
        i += 1;
    }
    false
}

impl<W> ContactGraph<W> {
    /// The positions a walk through contacts reaches from position 0.
    pub open spec fn reached(&self) -> Set<Position> {
        Set::new(|x: Position| exists|p: Seq<Position>| walk_from_origin(self, p) && p.last() == x)
    }

    /// Whether the graph is connected in the sense the check uses: it has a
    /// position, and as many positions are reached from position 0 as the
    /// graph has.
    pub open spec fn connected(&self) -> bool {
        self.order_of() > 0 && self.reached().len() == self.order_of()
    }

    /// The positions in contact with `x`, each once, in contact order.
    fn neighbours(&self, x: Position) -> (r: Vec<Position>)
        ensures
            forall|z: Position| r@.contains(z) <==> self.adjacent(x, z),
            forall|i: int| 0 <= i < r@.len() ==> endpoint(self.contact_list(), #[trigger] r@[i]),
    {
        proof { use_type_invariant(self); }
        let ghost cs = self.contacts@;
        let mut r: Vec<Position> = Vec::new();
        let mut j: usize = 0;
        while j < self.contacts.len()
            invariant
                cs == self.contacts@,
                canonical_contacts(cs),
                j <= cs.len(),
                forall|z: Position| r@.contains(z) <==> exists|t: int| 0 <= t < j && #[trigger] pair(cs[t]) == key(x, z),
                forall|i: int| 0 <= i < r@.len() ==> endpoint(cs, #[trigger] r@[i]),
            decreases cs.len() - j,
        {
            let u = self.contacts[j].0;
            let v = self.contacts[j].1;
            let ghost before = r@;
            if u == x {
                r.push(v);
            } else if v == x {
                r.push(u);
            }
            proof {
                assert forall|z: Position| r@.contains(z) implies exists|t: int| 0 <= t < j + 1 && #[trigger] pair(cs[t]) == key(x, z) by {
                    if !before.contains(z) {
                        assert(cs[j as int].0 < cs[j as int].1);
                        assert(pair(cs[j as int]) == key(x, z));
                    } else {
                        let t = choose|t: int| 0 <= t < j && #[trigger] pair(cs[t]) == key(x, z);
                        assert(0 <= t < j + 1 && pair(cs[t]) == key(x, z));
                    }
                }
                assert forall|z: Position| (exists|t: int| 0 <= t < j + 1 && #[trigger] pair(cs[t]) == key(x, z)) implies r@.contains(z) by {
                    let t = choose|t: int| 0 <= t < j + 1 && #[trigger] pair(cs[t]) == key(x, z);
                    if t == j {
                        assert(cs[j as int].0 < cs[j as int].1);
                        if u == x {
                            assert(z == v);
                        } else {
                            assert(z == u);
                        }
                        assert(r@.last() == z);
                    } else {
                        assert(before.contains(z));
                    }
                }
                assert forall|i: int| 0 <= i < r@.len() implies endpoint(cs, #[trigger] r@[i]) by {
                    if i == before.len() {
                        assert(cs[j as int].0 == r@[i] || cs[j as int].1 == r@[i]);
                    }
                }
            }
            j += 1;
        }
        proof {
            assert forall|z: Position| r@.contains(z) <==> self.adjacent(x, z) by {
                if self.adjacent(x, z) {
                    assert(has_pair(cs, key(x, z)));
                }
            }
        }
        r
    }

    /// Whether every position is reachable from position 0: as many
    /// positions are reached through contacts as the graph has.
    pub fn is_connected(&self) -> (b: bool)
        ensures
            b == self.connected(),
    {
        if self.order == 0 {
            return false;
        }
        let ghost cs = self.contact_list();
        let mut seen: Vec<Position> = Vec::new();
        seen.push(0);
        let mut stack: Vec<Position> = Vec::new();
        stack.push(0);
        proof {
            assert(walk_from_origin(self, seq![0u32]));
            assert(seq![0u32].last() == 0u32);
            assert(seen@[0] == 0);
        }
        loop
            invariant
                cs == self.contact_list(),
                seen@.no_duplicates(),
                seen@.contains(0u32),
                forall|i: int| 0 <= i < seen@.len() ==> self.reached().contains(#[trigger] seen@[i]),
                forall|i: int| 0 <= i < stack@.len() ==> seen@.contains(#[trigger] stack@[i]),
                forall|y: Position, z: Position|
                    seen@.contains(y) && !stack@.contains(y) && #[trigger] self.adjacent(y, z) ==> seen@.contains(z),
                forall|i: int| 0 <= i < seen@.len() ==> (#[trigger] seen@[i] == 0 || endpoint(cs, seen@[i])),
            ensures
                stack@.len() == 0,
            decreases endpoint_bound(cs) + 1 - seen@.len(), stack@.len(),
        {
            proof { lemma_seen_bounded(cs, seen@); }
            let ghost sb = stack@;
            match stack.pop() {
                None => {
                    break;
                },
                Some(x) => {
                    let ghost seen0 = seen@;
                    let ghost stack0 = stack@;
                    proof {
                        assert(sb =~= stack0.push(x));
                        assert(seen0.contains(x)) by {
                            assert(sb[sb.len() - 1] == x);
                        }
                    }
                    let nbrs = self.neighbours(x);
                    let mut k: usize = 0;
                    while k < nbrs.len()
                        invariant
                            cs == self.contact_list(),
                            k <= nbrs@.len(),
                            forall|z: Position| nbrs@.contains(z) <==> self.adjacent(x, z),
                            forall|i: int| 0 <= i < nbrs@.len() ==> endpoint(cs, #[trigger] nbrs@[i]),
                            seen@.no_duplicates(),
                            seen0.len() <= seen@.len(),
                            seen0.contains(x),
                            forall|y: Position| seen0.contains(y) ==> seen@.contains(y),
                            forall|i: int| 0 <= i < seen@.len() ==> self.reached().contains(#[trigger] seen@[i]),
                            forall|i: int| 0 <= i < stack@.len() ==> seen@.contains(#[trigger] stack@[i]),
                            forall|y: Position| stack0.contains(y) ==> stack@.contains(y),
                            forall|y: Position| seen@.contains(y) && !seen0.contains(y) ==> stack@.contains(y),
                            forall|i: int| 0 <= i < k ==> seen@.contains(#[trigger] nbrs@[i]),
                            stack@.len() - stack0.len() == seen@.len() - seen0.len(),
                            forall|i: int| 0 <= i < seen@.len() ==> (#[trigger] seen@[i] == 0 || endpoint(cs, seen@[i])),
                        decreases nbrs@.len() - k,
                    {
                        let n = nbrs[k];
                        if !contains(&seen, n) {
                            proof {
                                assert(nbrs@.contains(n));
                                assert(self.adjacent(x, n));
                                let xi = choose|i: int| 0 <= i < seen@.len() && seen@[i] == x;
                                assert(self.reached().contains(seen@[xi]));
                                let p = choose|p: Seq<Position>| walk_from_origin(self, p) && p.last() == x;
                                let q = p.push(n);
                                assert forall|i: int| 0 <= i < q.len() - 1 implies self.adjacent(#[trigger] q[i], q[i + 1]) by {
                                    if i < p.len() - 1 {
                                        assert(q[i] == p[i] && q[i + 1] == p[i + 1]);
                                    } else {
                                        assert(q[i] == x && q[i + 1] == n);
                                    }
                                }
                                assert(walk_from_origin(self, q));
                                assert(q.last() == n);
                                assert(self.reached().contains(n));
                            }
                            seen.push(n);
                            stack.push(n);
                        }
                        k += 1;
                    }
                    proof {
                        lemma_seen_bounded(cs, seen@);
                        assert forall|y: Position, z: Position|
                            seen@.contains(y) && !stack@.contains(y) && #[trigger] self.adjacent(y, z) implies seen@.contains(z) by {
                            if y == x {
                                assert(nbrs@.contains(z));
                                let i = choose|i: int| 0 <= i < nbrs@.len() && nbrs@[i] == z;
                            } else if seen0.contains(y) {
                                assert(!stack0.contains(y));
                                assert(sb =~= stack0.push(x));
                                assert(!sb.contains(y));
                            }
                        }
                    }
                },
            }
        }
        proof {
            self.lemma_closed_covers(seen@);
            seen@.unique_seq_to_set();
        }
        seen.len() == self.order as usize
    }

    proof fn lemma_closed_covers(&self, seen: Seq<Position>)
        requires
            seen.contains(0u32),
            forall|i: int| 0 <= i < seen.len() ==> self.reached().contains(#[trigger] seen[i]),
            forall|y: Position, z: Position| seen.contains(y) && #[trigger] self.adjacent(y, z) ==> seen.contains(z),
        ensures
            self.reached() == seen.to_set(),
    {
        assert forall|x: Position| self.reached().contains(x) implies seen.to_set().contains(x) by {
            let p = choose|p: Seq<Position>| walk_from_origin(self, p) && p.last() == x;
            self.lemma_walk_prefix(seen, p, p.len() - 1);
        }
        assert forall|x: Position| seen.to_set().contains(x) implies self.reached().contains(x) by {
            let i = choose|i: int| 0 <= i < seen.len() && seen[i] == x;
        }
        assert(self.reached() =~= seen.to_set());
    }

    proof fn lemma_walk_prefix(&self, seen: Seq<Position>, p: Seq<Position>, k: int)
        requires
            seen.contains(0u32),
            forall|y: Position, z: Position| seen.contains(y) && #[trigger] self.adjacent(y, z) ==> seen.contains(z),
            walk_from_origin(self, p),
            0 <= k < p.len(),
        ensures
            seen.contains(p[k]),
        decreases k,
    {
        if k > 0 {
            self.lemma_walk_prefix(seen, p, k - 1);
            assert(self.adjacent(p[k - 1], p[k]));
        }
    }
}

} // verus!
