//! Nodes, the operations on them, and the induced trajectory.
//!
//! The runtime's vocabulary is identify, read and emit, with convergence
//! and execution built from them. Values are opaque: the runtime stores and
//! transports them and never inspects their content, so it cannot compute
//! an exit code. Node names are held in increasing byte order, so that the
//! node set of a run, and its fingerprint, does not depend on the order in
//! which nodes were reached.

use vstd::prelude::*;
use vstd::string::StringSliceAdditionalSpecFns;
use vstd::utf8::encode_utf8;
use vstd::std_specs::cmp::PartialEqSpec;
use sha2::{Digest, Sha256};

verus! {

broadcast use vstd::seq_lib::group_seq_properties;

/// Strict lexicographic order on byte strings: the order of `str`.
pub open spec fn lex_lt(a: Seq<u8>, b: Seq<u8>) -> bool
    decreases a.len(),
{
    if a.len() == 0 {
        b.len() > 0
    } else if b.len() == 0 {
        false
    } else if a[0] < b[0] {
        true
    } else if a[0] > b[0] {
        false
    } else {
        lex_lt(a.drop_first(), b.drop_first())
    }
}

/// No byte string precedes itself.
pub proof fn lemma_lex_irreflexive(a: Seq<u8>)
    ensures
        !lex_lt(a, a),
    decreases a.len(),
{
    if a.len() > 0 {
        lemma_lex_irreflexive(a.drop_first());
    }
}

/// The order is transitive.
pub proof fn lemma_lex_transitive(a: Seq<u8>, b: Seq<u8>, c: Seq<u8>)
    requires
        lex_lt(a, b),
        lex_lt(b, c),
    ensures
        lex_lt(a, c),
    decreases a.len(),
{
    if a.len() > 0 && b.len() > 0 && c.len() > 0 && a[0] == b[0] && b[0] == c[0] {
        lemma_lex_transitive(a.drop_first(), b.drop_first(), c.drop_first());
    }
}

/// Two different byte strings are ordered one way or the other.
pub proof fn lemma_lex_total(a: Seq<u8>, b: Seq<u8>)
    requires
        a != b,
    ensures
        lex_lt(a, b) || lex_lt(b, a),
    decreases a.len(),
{
    if a.len() > 0 && b.len() > 0 && a[0] == b[0] {
        if a.drop_first() == b.drop_first() {
            assert(a =~= seq![a[0]] + a.drop_first());
            assert(b =~= seq![b[0]] + b.drop_first());
        }
        lemma_lex_total(a.drop_first(), b.drop_first());
    } else if a.len() == 0 && b.len() == 0 {
        assert(a =~= b);
    }
}

/// Whether `s` is strictly increasing in byte order.
pub open spec fn ascending(s: Seq<Seq<u8>>) -> bool {
    forall|i: int, j: int| 0 <= i < j < s.len() ==> lex_lt(#[trigger] s[i], #[trigger] s[j])
}

/// Two strictly increasing sequences holding the same strings are the same
/// sequence.
pub proof fn lemma_ascending_unique(a: Seq<Seq<u8>>, b: Seq<Seq<u8>>)
    requires
        ascending(a),
        ascending(b),
        a.to_set() == b.to_set(),
    ensures
        a == b,
    decreases a.len(),
{
    if a.len() == 0 {
        if b.len() > 0 {
            assert(b.to_set().contains(b[0]));
        }
        assert(a =~= b);
    } else if b.len() == 0 {
        assert(a.to_set().contains(a[0]));
    } else {
        assert(a.to_set().contains(a[0]));
        assert(b.to_set().contains(b[0]));
        let i = choose|i: int| 0 <= i < b.len() && b[i] == a[0];
        let j = choose|j: int| 0 <= j < a.len() && a[j] == b[0];
        if a[0] != b[0] {
            assert(i > 0 && j > 0);
            assert(lex_lt(b[0], b[i]));
            assert(lex_lt(a[0], a[j]));
            lemma_lex_transitive(a[0], b[0], a[0]);
            lemma_lex_irreflexive(a[0]);
        }
        let ra = a.drop_first();
        let rb = b.drop_first();
        assert(ascending(ra)) by {
            assert forall|x: int, y: int| 0 <= x < y < ra.len() implies lex_lt(#[trigger] ra[x], #[trigger] ra[y]) by {
                assert(ra[x] == a[x + 1] && ra[y] == a[y + 1]);
            }
        }
        assert(ascending(rb)) by {
            assert forall|x: int, y: int| 0 <= x < y < rb.len() implies lex_lt(#[trigger] rb[x], #[trigger] rb[y]) by {
                assert(rb[x] == b[x + 1] && rb[y] == b[y + 1]);
            }
        }
        assert(ra.to_set() =~= rb.to_set()) by {
            assert forall|s: Seq<u8>| ra.to_set().contains(s) <==> rb.to_set().contains(s) by {
                if ra.to_set().contains(s) {
                    let x = choose|x: int| 0 <= x < ra.len() && ra[x] == s;
                    assert(lex_lt(a[0], a[x + 1]));
                    assert(a.to_set().contains(s));
                    let y = choose|y: int| 0 <= y < b.len() && b[y] == s;
                    if y == 0 {
                        lemma_lex_irreflexive(a[0]);
                    }
                    assert(rb[y - 1] == s);
                }
                if rb.to_set().contains(s) {
                    let x = choose|x: int| 0 <= x < rb.len() && rb[x] == s;
                    assert(lex_lt(b[0], b[x + 1]));
                    assert(b.to_set().contains(s));
                    let y = choose|y: int| 0 <= y < a.len() && a[y] == s;
                    if y == 0 {
                        lemma_lex_irreflexive(b[0]);
                    }
                    assert(ra[y - 1] == s);
                }
            }
        }
        lemma_ascending_unique(ra, rb);
        assert(a =~= seq![a[0]] + ra);
        assert(b =~= seq![b[0]] + rb);
    }
}

/// `lex_lt(a, b)`, computed.
pub fn bytes_lt(a: &[u8], b: &[u8]) -> (r: bool)
    ensures
        r == lex_lt(a@, b@),
{
    let mut i: usize = 0;
    while i < a.len() && i < b.len() && a[i] == b[i]
        invariant
            i <= a@.len(),
            i <= b@.len(),
            a@.take(i as int) == b@.take(i as int),
            lex_lt(a@, b@) == lex_lt(a@.skip(i as int), b@.skip(i as int)),
        decreases a@.len() - i,
    {
        assert(a@.skip(i as int).drop_first() =~= a@.skip(i + 1));
        assert(b@.skip(i as int).drop_first() =~= b@.skip(i + 1));
        assert(a@.take(i + 1) =~= a@.take(i as int).push(a@[i as int]));
        assert(b@.take(i + 1) =~= b@.take(i as int).push(b@[i as int]));
        i += 1;
    }
    if i == a.len() {
        i < b.len()
    } else if i == b.len() {
        false
    } else {
        a[i] < b[i]
    }
}

/// Whether two byte strings are equal, computed.
pub fn bytes_eq(a: &[u8], b: &[u8]) -> (r: bool)
    ensures
        r == (a@ == b@),
{
    if a.len() != b.len() {
        return false;
    }
    let mut i: usize = 0;
    while i < a.len()
        invariant
            a@.len() == b@.len(),
            i <= a@.len(),
            forall|j: int| 0 <= j < i ==> a@[j] == b@[j],
        decreases a@.len() - i,
    {
        if a[i] != b[i] {
            return false;
        }
        i += 1;
    }
    assert(a@ =~= b@);
    true
}

/// The SHA-256 digest of a byte string.
pub uninterp spec fn sha256(data: Seq<u8>) -> Seq<u8>;

/// `sha2::Sha256::digest`: the SHA-256 digest of `data`, which is
/// thirty-two bytes long. Hashing a message fed in several updates gives
/// the digest of their concatenation, which is why one call over the
/// joined bytes stands for the updates.
#[verifier::external_body]
fn sha256_digest(data: &[u8]) -> (d: Vec<u8>)
    ensures
        d@ == sha256(data@),
        d@.len() == 32,
{
    Sha256::digest(data).to_vec()
}

/// The lower-case hexadecimal digit for `d < 16`.
pub open spec fn hex_digit(d: u8) -> char {
    if d < 10 {
        (('0' as u8) + d) as char
    } else {
        (('a' as u8) + (d - 10)) as char
    }
}

/// The lower-case hexadecimal form of `bytes`, two digits per byte.
pub open spec fn hex(bytes: Seq<u8>) -> Seq<char>
    decreases bytes.len(),
{
    if bytes.len() == 0 {
        Seq::empty()
    } else {
        hex(bytes.drop_last()).push(hex_digit(bytes.last() / 16)).push(hex_digit(bytes.last() % 16))
    }
}

fn hex_char(d: u8) -> (c: char)
    requires
        d < 16,
    ensures
        c == hex_digit(d),
{
    if d < 10 {
        ((48u8 + d) as char)
    } else {
        ((97u8 + (d - 10)) as char)
    }
}

/// The names of a node set joined for hashing: each name followed by a
/// zero byte.
pub open spec fn joined(names: Seq<Seq<u8>>) -> Seq<u8>
    decreases names.len(),
{
    if names.len() == 0 {
        Seq::empty()
    } else {
        joined(names.drop_last()) + names.last() + seq![0u8]
    }
}

/// The fingerprint of a node set with these names, in order: the first
/// sixteen hexadecimal digits of the SHA-256 digest of the joined names.
pub open spec fn fingerprint_of(names: Seq<Seq<u8>>) -> Seq<char> {
    hex(sha256(joined(names))).take(16)
}

/// A unit of work: a subtask identity, the values emitted there, and how
/// many chunks realise it.
#[derive(Debug)]
pub struct Node<V> {
    /// The subtask identity. Nodes are individuated by this alone.
    pub theta: String,
    /// Values emitted here, in order. Grows; never replaced.
    pub values: Vec<V>,
    /// How many chunks this node carries.
    pub chunk_count: usize,
}

impl<V> Node<V> {
    /// The node's name, as bytes.
    pub open spec fn name(&self) -> Seq<u8> {
        encode_utf8(self.theta@)
    }
}

/// The chunks a node carries after a contribution of `chunks` onto a node
/// carrying `held`: the larger of the two.
pub open spec fn joined_chunks(held: nat, chunks: nat) -> nat {
    if chunks > held { chunks } else { held }
}

/// The values a merge leaves on a node holding `existing` when `incoming`
/// arrives: each incoming value in turn is adjoined unless an equal value
/// is already there.
pub open spec fn merged<V: PartialEq>(existing: Seq<V>, incoming: Seq<V>) -> Seq<V>
    decreases incoming.len(),
{
    if incoming.len() == 0 {
        existing
    } else {
        let m = merged(existing, incoming.drop_last());
        if exists|j: int| 0 <= j < m.len() && (#[trigger] m[j]).eq_spec(&incoming.last()) {
            m
        } else {
            m.push(incoming.last())
        }
    }
}

/// The bytes of an induced edge.
pub open spec fn edge_bytes(e: (String, String)) -> (Seq<u8>, Seq<u8>) {
    (encode_utf8(e.0@), encode_utf8(e.1@))
}

/// The semantically inert runtime: a node set in increasing order of name,
/// the causal edges a run has induced, and a count of emissions.
#[derive(Debug)]
pub struct Runtime<V> {
    nodes: Vec<Node<V>>,
    edges: Vec<(String, String)>,
    record: u64,
}

impl<V> Runtime<V> {
    #[verifier::type_invariant]
    closed spec fn well_formed(&self) -> bool {
        &&& ascending(self.nodes@.map_values(|n: Node<V>| n.name()))
        &&& forall|i: int, j: int| 0 <= i < j < self.edges@.len() ==> edge_bytes(#[trigger] self.edges@[i]) != edge_bytes(#[trigger] self.edges@[j])
    }

    /// The nodes, in increasing order of name.
    pub closed spec fn nodes_of(&self) -> Seq<Node<V>> {
        self.nodes@
    }

    /// The node names, in increasing byte order.
    pub open spec fn names(&self) -> Seq<Seq<u8>> {
        self.nodes_of().map_values(|n: Node<V>| n.name())
    }

    /// The induced edges, as pairs of names.
    pub closed spec fn edge_set(&self) -> Set<(Seq<u8>, Seq<u8>)> {
        self.edges@.map_values(|e: (String, String)| edge_bytes(e)).to_set()
    }

    /// Total emissions.
    pub closed spec fn record_of(&self) -> u64 {
        self.record
    }

    /// The node named `t`, if there is one.
    pub open spec fn node_at(&self, t: Seq<u8>) -> Option<Node<V>> {
        if self.names().contains(t) {
            Some(self.nodes_of()[self.names().index_of(t)])
        } else {
            None
        }
    }

    /// The values on the node named `t`; none if there is no such node.
    pub open spec fn values_at(&self, t: Seq<u8>) -> Seq<V> {
        match self.node_at(t) {
            Some(n) => n.values@,
            None => Seq::empty(),
        }
    }

    /// The chunk count of the node named `t`; zero if there is no such node.
    pub open spec fn chunks_at(&self, t: Seq<u8>) -> nat {
        match self.node_at(t) {
            Some(n) => n.chunk_count as nat,
            None => 0,
        }
    }

    /// The fingerprint of the node set.
    pub open spec fn fingerprint(&self) -> Seq<char> {
        fingerprint_of(self.names())
    }

    proof fn lemma_node_at(&self, i: int)
        requires
            ascending(self.names()),
            0 <= i < self.names().len(),
        ensures
            self.node_at(self.names()[i]) == Some(self.nodes_of()[i]),
    {
        let t = self.names()[i];
        assert(self.names().contains(t));
        let j = self.names().index_of(t);
        if j != i {
            if j < i {
                assert(lex_lt(self.names()[j], self.names()[i]));
            } else {
                assert(lex_lt(self.names()[i], self.names()[j]));
            }
            lemma_lex_irreflexive(t);
        }
    }

    /// A runtime with no nodes.
    pub fn new() -> (r: Self)
        ensures
            ascending(r.names()),
            r.names() == Seq::<Seq<u8>>::empty(),
            r.edge_set() == Set::<(Seq<u8>, Seq<u8>)>::empty(),
            r.record_of() == 0,
    {
        let r = Runtime { nodes: Vec::new(), edges: Vec::new(), record: 0 };
        assert(r.names() =~= Seq::<Seq<u8>>::empty());
        assert(r.edge_set() =~= Set::<(Seq<u8>, Seq<u8>)>::empty());
        r
    }

    /// Where `t` stands among the names: its index if present, and
    /// otherwise the index it would be inserted at.
    fn locate(&self, t: &[u8]) -> (r: (bool, usize))
        ensures
            r.1 <= self.names().len(),
            r.0 ==> r.1 < self.names().len() && self.names()[r.1 as int] == t@,
            !r.0 ==> forall|i: int| 0 <= i < self.names().len() ==> (#[trigger] self.names()[i] != t@) && (i < r.1 <==> lex_lt(self.names()[i], t@)),
    {
        proof { use_type_invariant(self); }
        let ghost ns = self.names();
        let mut i: usize = 0;
        while i < self.nodes.len() && bytes_lt(self.nodes[i].theta.as_str().as_bytes(), t)
            invariant
                ns == self.names(),
                ascending(ns),
                i <= ns.len(),
                forall|j: int| 0 <= j < i ==> lex_lt(#[trigger] ns[j], t@),
            decreases ns.len() - i,
        {
            i += 1;
        }
        if i < self.nodes.len() && bytes_eq(self.nodes[i].theta.as_str().as_bytes(), t) {
            return (true, i);
        }
        proof {
            assert forall|j: int| 0 <= j < ns.len() implies (#[trigger] ns[j] != t@) && (j < i <==> lex_lt(ns[j], t@)) by {
                if j < i {
                    if ns[j] == t@ {
                        lemma_lex_irreflexive(t@);
                    }
                } else {
                    assert(i < ns.len());
                    assert(!lex_lt(ns[i as int], t@));
                    assert(ns[i as int] != t@);
                    lemma_lex_total(ns[i as int], t@);
                    if j > i {
                        assert(lex_lt(ns[i as int], ns[j]));
                        lemma_lex_transitive(t@, ns[i as int], ns[j]);
                    }
                    lemma_lex_irreflexive(ns[j]);
                    if lex_lt(ns[j], t@) {
                        lemma_lex_transitive(ns[j], t@, ns[j]);
                    }
                }
            }
        }
        (false, i)
    }

    proof fn lemma_node_at_all(&self)
        requires
            ascending(self.names()),
        ensures
            forall|i: int| 0 <= i < self.names().len() ==> self.node_at(#[trigger] self.names()[i]) == Some(self.nodes_of()[i]),
    {
        assert forall|i: int| 0 <= i < self.names().len() implies self.node_at(#[trigger] self.names()[i]) == Some(self.nodes_of()[i]) by {
            self.lemma_node_at(i);
        }
    }

    /// Replace the node at `i` by one of the same name.
    fn replace_node(&mut self, i: usize, n: Node<V>)
        requires
            i < old(self).names().len(),
            n.name() == old(self).names()[i as int],
        ensures
            final(self).nodes_of() == old(self).nodes_of().update(i as int, n),
            final(self).names() == old(self).names(),
            final(self).edge_set() == old(self).edge_set(),
            final(self).record_of() == old(self).record_of(),
            forall|t: Seq<u8>| t != n.name() ==> #[trigger] final(self).node_at(t) == old(self).node_at(t),
            final(self).node_at(n.name()) == Some(n),
    {
        proof { use_type_invariant(&*self); }
        let ghost before = *self;
        let mut current = Runtime::new();
        std::mem::swap(&mut current, self);
        let Runtime { mut nodes, edges, record } = current;
        let ghost old_nodes = nodes@;
        let _ = nodes.remove(i);
        nodes.insert(i, n);
        proof {
            assert(nodes@ =~= old_nodes.update(i as int, n));
            assert(nodes@.map_values(|m: Node<V>| m.name()) =~= old_nodes.map_values(|m: Node<V>| m.name()));
        }
        *self = Runtime { nodes, edges, record };
        proof {
            before.lemma_node_at_all();
            self.lemma_node_at_all();
            assert(self.names() =~= before.names());
            assert forall|t: Seq<u8>| t != n.name() implies #[trigger] self.node_at(t) == before.node_at(t) by {
                if self.names().contains(t) {
                    let k = self.names().index_of(t);
                    assert(self.node_at(self.names()[k]) == Some(self.nodes_of()[k]));
                    assert(before.node_at(before.names()[k]) == Some(before.nodes_of()[k]));
                    assert(k != i);
                }
            }
            assert(self.node_at(self.names()[i as int]) == Some(self.nodes_of()[i as int]));
        }
    }

    /// The index of the node named `theta`, creating it with no values and
    /// no chunks if absent.
    fn ensure_node(&mut self, theta: &str) -> (i: usize)
        ensures
            ascending(final(self).names()),
            i < final(self).names().len(),
            final(self).names()[i as int] == theta.spec_bytes(),
            final(self).names().to_set() == old(self).names().to_set().insert(theta.spec_bytes()),
            final(self).node_at(theta.spec_bytes()) == Some(final(self).nodes_of()[i as int]),
            forall|t: Seq<u8>| t != theta.spec_bytes() ==> #[trigger] final(self).node_at(t) == old(self).node_at(t),
            old(self).node_at(theta.spec_bytes()) is Some ==> final(self).node_at(theta.spec_bytes()) == old(self).node_at(theta.spec_bytes()),
            old(self).node_at(theta.spec_bytes()) is None ==> {
                &&& final(self).nodes_of()[i as int].theta@ == theta@
                &&& final(self).nodes_of()[i as int].values@.len() == 0
                &&& final(self).nodes_of()[i as int].chunk_count == 0
            },
            final(self).edge_set() == old(self).edge_set(),
            final(self).record_of() == old(self).record_of(),
    {
        proof { use_type_invariant(&*self); }
        let tb = theta.as_bytes();
        let (found, at) = self.locate(tb);
        if found {
            proof {
                self.lemma_node_at(at as int);
                assert(self.names().to_set() =~= self.names().to_set().insert(theta.spec_bytes()));
            }
            return at;
        }
        let ghost before = *self;
        let mut current = Runtime::new();
        std::mem::swap(&mut current, self);
        let Runtime { mut nodes, edges, record } = current;
        let ghost old_nodes = nodes@;
        let fresh = Node { theta: theta.to_owned(), values: Vec::new(), chunk_count: 0 };
        assert(fresh.name() == theta.spec_bytes());
        nodes.insert(at, fresh);
        proof {
            let on = old_nodes.map_values(|m: Node<V>| m.name());
            let nn = nodes@.map_values(|m: Node<V>| m.name());
            assert(on == before.names());
            assert(nn =~= on.insert(at as int, theta.spec_bytes()));
            assert(ascending(nn)) by {
                assert forall|x: int, y: int| 0 <= x < y < nn.len() implies lex_lt(#[trigger] nn[x], #[trigger] nn[y]) by {
                    if y < at {
                        assert(nn[x] == on[x] && nn[y] == on[y]);
                    } else if y == at {
                        assert(nn[x] == on[x]);
                    } else if x < at {
                        assert(nn[x] == on[x] && nn[y] == on[y - 1]);
                    } else if x == at {
                        assert(nn[y] == on[y - 1]);
                        assert(on[y - 1] == before.names()[y - 1]);
                        lemma_lex_total(theta.spec_bytes(), on[y - 1]);
                    } else {
                        assert(nn[x] == on[x - 1] && nn[y] == on[y - 1]);
                    }
                }
            }
        }
        *self = Runtime { nodes, edges, record };
        proof {
            before.lemma_node_at_all();
            self.lemma_node_at_all();
            let on = before.names();
            let nn = self.names();
            assert(nn =~= on.insert(at as int, theta.spec_bytes()));
            assert(nn.to_set() =~= on.to_set().insert(theta.spec_bytes())) by {
                assert forall|t: Seq<u8>| nn.to_set().contains(t) <==> on.to_set().insert(theta.spec_bytes()).contains(t) by {
                    if nn.to_set().contains(t) {
                        let k = choose|k: int| 0 <= k < nn.len() && nn[k] == t;
                        if k < at { assert(on[k] == t); } else if k > at { assert(on[k - 1] == t); }
                    }
                    if on.to_set().contains(t) {
                        let k = choose|k: int| 0 <= k < on.len() && on[k] == t;
                        if k < at { assert(nn[k] == t); } else { assert(nn[k + 1] == t); }
                    }
                    if t == theta.spec_bytes() {
                        assert(nn[at as int] == t);
                    }
                }
            }
            assert(self.node_at(nn[at as int]) == Some(self.nodes_of()[at as int]));
            assert(!on.contains(theta.spec_bytes()));
            assert forall|t: Seq<u8>| t != theta.spec_bytes() implies #[trigger] self.node_at(t) == before.node_at(t) by {
                if nn.contains(t) {
                    let k = nn.index_of(t);
                    assert(self.node_at(nn[k]) == Some(self.nodes_of()[k]));
                    if k < at {
                        assert(on[k] == t);
                        assert(before.node_at(on[k]) == Some(before.nodes_of()[k]));
                    } else {
                        assert(k > at);
                        assert(on[k - 1] == t);
                        assert(before.node_at(on[k - 1]) == Some(before.nodes_of()[k - 1]));
                    }
                } else {
                    if on.contains(t) {
                        let k = on.index_of(t);
                        if k < at { assert(nn[k] == t); } else { assert(nn[k + 1] == t); }
                    }
                }
            }
        }
        at
    }

    /// Obtain the node bearing `theta`, creating it with no values if
    /// absent. Nothing else changes.
    pub fn identify(&mut self, theta: &str)
        ensures
            ascending(final(self).names()),
            final(self).names().to_set() == old(self).names().to_set().insert(theta.spec_bytes()),
            forall|t: Seq<u8>| t != theta.spec_bytes() ==> #[trigger] final(self).node_at(t) == old(self).node_at(t),
            old(self).node_at(theta.spec_bytes()) is Some ==> final(self).node_at(theta.spec_bytes()) == old(self).node_at(theta.spec_bytes()),
            old(self).node_at(theta.spec_bytes()) is None ==> final(self).values_at(theta.spec_bytes()).len() == 0
                && final(self).chunks_at(theta.spec_bytes()) == 0,
            final(self).edge_set() == old(self).edge_set(),
            final(self).record_of() == old(self).record_of(),
    {
        let _ = self.ensure_node(theta);
    }

    /// The values on the node bearing `theta`, without examining them;
    /// none if there is no such node.
    pub fn read(&self, theta: &str) -> (vs: &[V])
        ensures
            vs@ == self.values_at(theta.spec_bytes()),
    {
        proof { use_type_invariant(self); }
        let (found, at) = self.locate(theta.as_bytes());
        if found {
            proof { self.lemma_node_at(at as int); }
            self.nodes[at].values.as_slice()
        } else {
            proof {
                assert(!self.names().contains(theta.spec_bytes()));
            }
            &[]
        }
    }

    /// Total emissions so far.
    pub fn record(&self) -> (n: u64)
        ensures
            n == self.record_of(),
    {
        self.record
    }

    /// Number of nodes.
    pub fn len(&self) -> (n: usize)
        ensures
            n == self.names().len(),
    {
        self.nodes.len()
    }

    /// Whether the runtime holds no nodes.
    pub fn is_empty(&self) -> (b: bool)
        ensures
            b == (self.names().len() == 0),
    {
        self.nodes.len() == 0
    }

    proof fn lemma_update_frame(before: Self, after: Self, i: int)
        requires
            ascending(before.names()),
            0 <= i < before.names().len(),
            after.nodes_of() == before.nodes_of().update(i, after.nodes_of()[i]),
            after.nodes_of()[i].name() == before.names()[i],
        ensures
            after.names() == before.names(),
            forall|t: Seq<u8>| t != before.names()[i] ==> #[trigger] after.node_at(t) == before.node_at(t),
            after.node_at(before.names()[i]) == Some(after.nodes_of()[i]),
    {
        assert(after.names() =~= before.names());
        before.lemma_node_at_all();
        after.lemma_node_at_all();
        assert forall|t: Seq<u8>| t != before.names()[i] implies #[trigger] after.node_at(t) == before.node_at(t) by {
            if after.names().contains(t) {
                let k = after.names().index_of(t);
                assert(after.node_at(after.names()[k]) == Some(after.nodes_of()[k]));
                assert(before.node_at(before.names()[k]) == Some(before.nodes_of()[k]));
            }
        }
        assert(after.node_at(after.names()[i]) == Some(after.nodes_of()[i]));
    }

    /// Adjoin a value to the node bearing `theta`, creating the node if
    /// absent, and count the emission. `cause` names the node whose value
    /// prompted this one: it induces the edge from it, unless it is the
    /// same node.
    pub fn emit(&mut self, theta: &str, value: V, cause: Option<&str>)
        ensures
            ascending(final(self).names()),
            final(self).names().to_set() == old(self).names().to_set().insert(theta.spec_bytes()),
            forall|t: Seq<u8>| t != theta.spec_bytes() ==> #[trigger] final(self).node_at(t) == old(self).node_at(t),
            final(self).values_at(theta.spec_bytes()) == old(self).values_at(theta.spec_bytes()).push(value),
            final(self).chunks_at(theta.spec_bytes()) == old(self).chunks_at(theta.spec_bytes()),
            final(self).record_of() == if old(self).record_of() < u64::MAX { (old(self).record_of() + 1) as u64 } else { u64::MAX },
            final(self).edge_set() == match cause {
                Some(c) => if c.spec_bytes() != theta.spec_bytes() {
                    old(self).edge_set().insert((c.spec_bytes(), theta.spec_bytes()))
                } else {
                    old(self).edge_set()
                },
                None => old(self).edge_set(),
            },
    {
        let ghost base = self.values_at(theta.spec_bytes());
        let i = self.ensure_node(theta);
        proof { use_type_invariant(&*self); }
        let ghost mid = *self;
        let mut current = Runtime::new();
        std::mem::swap(&mut current, self);
        let Runtime { mut nodes, mut edges, record } = current;
        let ghost old_nodes = nodes@;
        let mut n = nodes.remove(i);
        n.values.push(value);
        nodes.insert(i, n);
        proof {
            assert(nodes@ =~= old_nodes.update(i as int, nodes@[i as int]));
            assert(nodes@.map_values(|m: Node<V>| m.name()) =~= old_nodes.map_values(|m: Node<V>| m.name()));
        }
        match cause {
            Some(c) => {
                if !bytes_eq(c.as_bytes(), theta.as_bytes()) {
                    add_edge(&mut edges, c, theta);
                }
            },
            None => {},
        }
        *self = Runtime { nodes, edges, record: record.saturating_add(1) };
        proof {
            Self::lemma_update_frame(mid, *self, i as int);
        }
    }

    /// Merge a contribution onto the node bearing `theta`, creating the node
    /// if absent: each incoming value not already held is adjoined, and the
    /// node carries as many chunks as the larger of what it carried and what
    /// the contribution brings. A join, so merging is associative,
    /// commutative and idempotent.
    pub fn converge(&mut self, theta: &str, chunks: usize, values: Vec<V>)
        where V: PartialEq,
        ensures
            ascending(final(self).names()),
            final(self).names().to_set() == old(self).names().to_set().insert(theta.spec_bytes()),
            forall|t: Seq<u8>| t != theta.spec_bytes() ==> #[trigger] final(self).node_at(t) == old(self).node_at(t),
            final(self).chunks_at(theta.spec_bytes()) == joined_chunks(old(self).chunks_at(theta.spec_bytes()), chunks as nat),
            final(self).values_at(theta.spec_bytes()).take(old(self).values_at(theta.spec_bytes()).len() as int) == old(self).values_at(theta.spec_bytes()),
            V::obeys_eq_spec() ==> final(self).values_at(theta.spec_bytes()) == merged(old(self).values_at(theta.spec_bytes()), values@),
            final(self).record_of() == old(self).record_of(),
            final(self).edge_set() == old(self).edge_set(),
    {
        let ghost base = self.values_at(theta.spec_bytes());
        let ghost base_chunks = self.chunks_at(theta.spec_bytes());
        let i = self.ensure_node(theta);
        proof { use_type_invariant(&*self); }
        let ghost mid = *self;
        let mut current = Runtime::new();
        std::mem::swap(&mut current, self);
        let Runtime { mut nodes, edges, record } = current;
        let ghost old_nodes = nodes@;
        let mut n = nodes.remove(i);
        proof {
            assert(mid.node_at(theta.spec_bytes()) == Some(old_nodes[i as int]));
            assert(n.values@ == base);
            assert(n.chunk_count == base_chunks);
        }
        if chunks > n.chunk_count {
            n.chunk_count = chunks;
        }
        let ghost incoming = values@;
        proof {
            assert(incoming.len() == values.len());
        }
        let mut rest = values;
        let mut k: usize = 0;
        while rest.len() > 0
            invariant
                incoming.len() <= usize::MAX,
                k + rest@.len() == incoming.len(),
                rest@ == incoming.skip(k as int),
                base.len() <= n.values@.len(),
                n.theta == old_nodes[i as int].theta,
                n.chunk_count == joined_chunks(base_chunks, chunks as nat),
                n.values@.take(base.len() as int) == base,
                V::obeys_eq_spec() ==> n.values@ == merged(base, incoming.take(k as int)),
            decreases rest@.len(),
        {
            let v = rest.remove(0);
            let mut found = false;
            let mut j: usize = 0;
            while j < n.values.len()
                invariant
                    j <= n.values@.len(),
                    V::obeys_eq_spec() ==> (found <==> exists|x: int| 0 <= x < j && (#[trigger] n.values@[x]).eq_spec(&v)),
                decreases n.values@.len() - j,
            {
                if n.values[j] == v {
                    found = true;
                }
                j += 1;
            }
            proof {
                assert(incoming.take(k + 1).drop_last() =~= incoming.take(k as int));
                assert(incoming.take(k + 1).last() == v);
            }
            if !found {
                n.values.push(v);
            }
            proof {
                assert(n.values@.take(base.len() as int) =~= base);
            }
            k += 1;
        }
        proof {
            assert(incoming.take(k as int) =~= incoming);
        }
        nodes.insert(i, n);
        proof {
            assert(nodes@ =~= old_nodes.update(i as int, nodes@[i as int]));
            assert(nodes@.map_values(|m: Node<V>| m.name()) =~= old_nodes.map_values(|m: Node<V>| m.name()));
        }
        *self = Runtime { nodes, edges, record };
        proof {
            Self::lemma_update_frame(mid, *self, i as int);
        }
    }
}

/// Whether `t` is an end of edge `e`.
pub open spec fn endpoint_of(e: (Seq<u8>, Seq<u8>), t: Seq<u8>) -> bool {
    e.0 == t || e.1 == t
}

/// Whether a chunk returned `r`, `v` is what it returned (or what
/// `on_error` made of the error it returned), and `c` is a clone of `v`.
pub open spec fn ran_chunk<V: Clone, F: FnOnce() -> Result<V, String>, E: Fn(String) -> V>(chunk: F, on_error: E, r: Result<V, String>, v: V, c: V) -> bool {
    &&& chunk.ensures((), r)
    &&& (r is Ok ==> v == r->Ok_0)
    &&& (r is Err ==> on_error.ensures((r->Err_0,), v))
    &&& cloned(v, c)
}

/// `n` emissions added to a record of `r`, saturating.
pub open spec fn after_emissions(r: u64, n: nat) -> u64 {
    if r + n <= u64::MAX { (r + n) as u64 } else { u64::MAX }
}

impl<V: Clone> Runtime<V> {
    /// Execute every chunk on the node bearing `theta`, in order, and emit
    /// each result there. A chunk that fails yields a value too, made by
    /// `on_error` from its error, which is emitted like any other and does
    /// not stop the remaining chunks. Returns the emitted values, in order.
    pub fn execute<F: FnOnce() -> Result<V, String>, E: Fn(String) -> V>(&mut self, theta: &str, chunks: Vec<F>, on_error: E) -> (out: Vec<V>)
        requires
            forall|k: int| 0 <= k < chunks@.len() ==> (#[trigger] chunks@[k]).requires(()),
            forall|e: String| #[trigger] on_error.requires((e,)),
        ensures
            ascending(final(self).names()),
            out@.len() == chunks@.len(),
            chunks@.len() > 0 ==> final(self).names().to_set() == old(self).names().to_set().insert(theta.spec_bytes()),
            chunks@.len() == 0 ==> final(self).names() == old(self).names(),
            forall|t: Seq<u8>| t != theta.spec_bytes() ==> #[trigger] final(self).node_at(t) == old(self).node_at(t),
            chunks@.len() == 0 ==> final(self).node_at(theta.spec_bytes()) == old(self).node_at(theta.spec_bytes()),
            final(self).values_at(theta.spec_bytes()).len() == old(self).values_at(theta.spec_bytes()).len() + chunks@.len(),
            final(self).values_at(theta.spec_bytes()).take(old(self).values_at(theta.spec_bytes()).len() as int) == old(self).values_at(theta.spec_bytes()),
            exists|rs: Seq<Result<V, String>>| #![trigger rs.len()] rs.len() == chunks@.len() && forall|j: int| 0 <= j < chunks@.len() ==> #[trigger] ran_chunk(chunks@[j], on_error, rs[j], final(self).values_at(theta.spec_bytes())[old(self).values_at(theta.spec_bytes()).len() + j], out@[j]),
            final(self).record_of() == after_emissions(old(self).record_of(), chunks@.len()),
            final(self).edge_set() == old(self).edge_set(),
    {
        proof { use_type_invariant(&*self); }
        let ghost tb = theta.spec_bytes();
        let ghost base = self.values_at(tb);
        let ghost all = chunks@;
        assert(all.len() == chunks.len());
        let ghost mut rs: Seq<Result<V, String>> = Seq::empty();
        let mut out: Vec<V> = Vec::new();
        let mut rest = chunks;
        let mut k: usize = 0;
        while rest.len() > 0
            invariant
                tb == theta.spec_bytes(),
                base == old(self).values_at(tb),
                all.len() <= usize::MAX,
                k + rest@.len() == all.len(),
                rest@ == all.skip(k as int),
                forall|j: int| 0 <= j < all.len() ==> (#[trigger] all[j]).requires(()),
                forall|e: String| #[trigger] on_error.requires((e,)),
                ascending(self.names()),
                out@.len() == k,
                k > 0 ==> self.names().to_set() == old(self).names().to_set().insert(tb),
                k == 0 ==> self.names() == old(self).names(),
                forall|t: Seq<u8>| t != tb ==> #[trigger] self.node_at(t) == old(self).node_at(t),
                k == 0 ==> self.node_at(tb) == old(self).node_at(tb),
                self.values_at(tb).len() == base.len() + k,
                self.values_at(tb).take(base.len() as int) == base,
                rs.len() == k,
                forall|j: int| 0 <= j < k ==> #[trigger] ran_chunk(all[j], on_error, rs[j], self.values_at(tb)[base.len() + j], out@[j]),
                self.record_of() == after_emissions(old(self).record_of(), k as nat),
                self.edge_set() == old(self).edge_set(),
            decreases rest@.len(),
        {
            let chunk = rest.remove(0);
            proof {
                assert(chunk == all[k as int]);
            }
            let r = chunk();
            let ghost rr = r;
            let v = match r {
                Ok(x) => x,
                Err(e) => on_error(e),
            };
            proof {
                assert(all[k as int].ensures((), rr));
            }
            let c = v.clone();
            proof {
                assert(cloned(v, c));
            }
            let ghost out_before = out@;
            out.push(c);
            let ghost before = *self;
            self.emit(theta, v, None);
            proof {
                assert(self.values_at(tb) == before.values_at(tb).push(v));
                assert(self.values_at(tb).take(base.len() as int) =~= base) by {
                    assert(before.values_at(tb).take(base.len() as int) == base);
                }
                let vals = self.values_at(tb);
                let at = base.len() as int;
                let rs2 = rs.push(rr);
                assert(ran_chunk(all[k as int], on_error, rr, v, c));
                assert forall|j: int| 0 <= j < k + 1 implies #[trigger] ran_chunk(all[j], on_error, rs2[j], vals[at + j], out@[j]) by {
                    if j < k {
                        assert(vals[at + j] == before.values_at(tb)[at + j]);
                        assert(out@[j] == out_before[j]);
                        assert(rs2[j] == rs[j]);
                    } else {
                        assert(vals[at + j] == v);
                        assert(out@[j] == c);
                        assert(rs2[j] == rr);
                    }
                }
                rs = rs2;
                if k == 0 {
                    assert(self.names().to_set() =~= old(self).names().to_set().insert(tb));
                }
            }
            k += 1;
        }
        out
    }
}

impl<V> Runtime<V> {
    /// The induced causal edges of this run, each once.
    pub fn edges(&self) -> (es: &[(String, String)])
        ensures
            distinct_edges(es@),
            es@.map_values(|e: (String, String)| edge_bytes(e)).to_set() == self.edge_set(),
    {
        proof { use_type_invariant(self); }
        self.edges.as_slice()
    }

    /// The nodes that carried propagated information: every end of an
    /// induced edge, each once, in increasing byte order.
    pub fn trajectory(&self) -> (ts: Vec<&str>)
        ensures
            ascending(ts@.map_values(|t: &str| t.spec_bytes())),
            ts@.map_values(|t: &str| t.spec_bytes()).to_set() == Set::new(|t: Seq<u8>| exists|e: (Seq<u8>, Seq<u8>)| #[trigger] self.edge_set().contains(e) && endpoint_of(e, t)),
    {
        let ghost es = self.edges@.map_values(|e: (String, String)| edge_bytes(e));
        let mut ts: Vec<&str> = Vec::new();
        let mut i: usize = 0;
        while i < self.edges.len()
            invariant
                i <= self.edges@.len(),
                es == self.edges@.map_values(|e: (String, String)| edge_bytes(e)),
                ascending(ts@.map_values(|t: &str| t.spec_bytes())),
                ts@.map_values(|t: &str| t.spec_bytes()).to_set() == Set::new(|t: Seq<u8>| exists|j: int| 0 <= j < i && #[trigger] endpoint_of(es[j], t)),
            decreases self.edges@.len() - i,
        {
            let ghost before = ts@.map_values(|t: &str| t.spec_bytes()).to_set();
            let a = self.edges[i].0.as_str();
            let b = self.edges[i].1.as_str();
            insert_sorted(&mut ts, a);
            insert_sorted(&mut ts, b);
            proof {
                assert(a.spec_bytes() == es[i as int].0);
                assert(b.spec_bytes() == es[i as int].1);
                let now = ts@.map_values(|t: &str| t.spec_bytes()).to_set();
                let goal = Set::new(|t: Seq<u8>| exists|j: int| 0 <= j < i + 1 && #[trigger] endpoint_of(es[j], t));
                let prev = Set::new(|t: Seq<u8>| exists|j: int| 0 <= j < i && #[trigger] endpoint_of(es[j], t));
                assert(before == prev);
                assert(now == before.insert(a.spec_bytes()).insert(b.spec_bytes()));
                assert forall|t: Seq<u8>| now.contains(t) implies goal.contains(t) by {
                    if prev.contains(t) {
                        let j = choose|j: int| 0 <= j < i && #[trigger] endpoint_of(es[j], t);
                        assert(0 <= j < i + 1 && endpoint_of(es[j], t));
                    } else {
                        assert(endpoint_of(es[i as int], t));
                    }
                }
                assert forall|t: Seq<u8>| goal.contains(t) implies now.contains(t) by {
                    let j = choose|j: int| 0 <= j < i + 1 && #[trigger] endpoint_of(es[j], t);
                    if j < i {
                        assert(prev.contains(t));
                    }
                }
                assert(now =~= goal);
            }
            i += 1;
        }
        proof {
            let now = ts@.map_values(|t: &str| t.spec_bytes()).to_set();
            assert(now =~= Set::new(|t: Seq<u8>| exists|e: (Seq<u8>, Seq<u8>)| #[trigger] self.edge_set().contains(e) && endpoint_of(e, t))) by {
                assert forall|t: Seq<u8>| now.contains(t) <==> (exists|e: (Seq<u8>, Seq<u8>)| #[trigger] self.edge_set().contains(e) && endpoint_of(e, t)) by {
                    if now.contains(t) {
                        let j = choose|j: int| 0 <= j < self.edges@.len() && #[trigger] endpoint_of(es[j], t);
                        assert(es.contains(es[j]));
                        assert(self.edge_set().contains(es[j]));
                    }
                    if exists|e: (Seq<u8>, Seq<u8>)| #[trigger] self.edge_set().contains(e) && endpoint_of(e, t) {
                        let e = choose|e: (Seq<u8>, Seq<u8>)| #[trigger] self.edge_set().contains(e) && endpoint_of(e, t);
                        let j = choose|j: int| 0 <= j < es.len() && es[j] == e;
                        assert(endpoint_of(es[j], t));
                    }
                }
            }
        }
        ts
    }

    /// A stable fingerprint of the node set: the first sixteen lower-case
    /// hexadecimal digits of the SHA-256 digest of the node names, in
    /// increasing byte order, each followed by a zero byte.
    pub fn protocol_fingerprint(&self) -> (f: String)
        ensures
            f@ == self.fingerprint(),
    {
        let bytes = self.joined_names();
        let d = sha256_digest(bytes.as_slice());
        hex_prefix(&d)
    }

    fn joined_names(&self) -> (bytes: Vec<u8>)
        ensures
            bytes@ == joined(self.names()),
    {
        let mut bytes: Vec<u8> = Vec::new();
        let mut i: usize = 0;
        while i < self.nodes.len()
            invariant
                i <= self.names().len(),
                bytes@ == joined(self.names().take(i as int)),
            decreases self.names().len() - i,
        {
            let name = self.nodes[i].theta.as_str().as_bytes();
            let ghost before = bytes@;
            let mut j: usize = 0;
            while j < name.len()
                invariant
                    j <= name@.len(),
                    bytes@ == before + name@.take(j as int),
                decreases name@.len() - j,
            {
                bytes.push(name[j]);
                j += 1;
                assert(bytes@ =~= before + name@.take(j as int));
            }
            bytes.push(0u8);
            proof {
                assert(self.names().take(i + 1).drop_last() =~= self.names().take(i as int));
                assert(name@.take(name@.len() as int) =~= name@);
                assert(bytes@ =~= joined(self.names().take(i + 1)));
            }
            i += 1;
        }
        assert(self.names().take(self.names().len() as int) =~= self.names());
        bytes
    }
}

/// The first sixteen lower-case hexadecimal digits of a 32-byte digest.
fn hex_prefix(d: &Vec<u8>) -> (s: String)
    requires
        d@.len() == 32,
    ensures
        s@ == hex(d@).take(16),
{
    proof { lemma_hex_len(d@); }
    let mut digits: Vec<char> = Vec::new();
    let mut k: usize = 0;
    while k < d.len()
        invariant
            k <= d@.len(),
            digits@ == hex(d@.take(k as int)),
        decreases d@.len() - k,
    {
        let b = d[k];
        digits.push(hex_char(b / 16));
        digits.push(hex_char(b % 16));
        proof {
            assert(d@.take(k + 1).drop_last() =~= d@.take(k as int));
        }
        k += 1;
    }
    assert(d@.take(d@.len() as int) =~= d@);
    let mut first: Vec<char> = Vec::new();
    let mut m: usize = 0;
    while m < 16
        invariant
            m <= 16,
            digits@.len() == 64,
            first@ == digits@.take(m as int),
        decreases 16 - m,
    {
        first.push(digits[m]);
        m += 1;
        assert(first@ =~= digits@.take(m as int));
    }
    crate::text::string_of(first.as_slice())
}

proof fn lemma_hex_len(bytes: Seq<u8>)
    ensures
        hex(bytes).len() == 2 * bytes.len(),
    decreases bytes.len(),
{
    if bytes.len() > 0 {
        lemma_hex_len(bytes.drop_last());
    }
}

/// Insert `s` into the increasing list `ts` unless it is already there.
fn insert_sorted<'a>(ts: &mut Vec<&'a str>, s: &'a str)
    requires
        ascending(old(ts)@.map_values(|t: &str| t.spec_bytes())),
    ensures
        ascending(final(ts)@.map_values(|t: &str| t.spec_bytes())),
        final(ts)@.map_values(|t: &str| t.spec_bytes()).to_set() == old(ts)@.map_values(|t: &str| t.spec_bytes()).to_set().insert(s.spec_bytes()),
{
    let ghost on = ts@.map_values(|t: &str| t.spec_bytes());
    let mut i: usize = 0;
    while i < ts.len() && bytes_lt(ts[i].as_bytes(), s.as_bytes())
        invariant
            on == ts@.map_values(|t: &str| t.spec_bytes()),
            ascending(on),
            i <= on.len(),
            forall|j: int| 0 <= j < i ==> lex_lt(#[trigger] on[j], s.spec_bytes()),
        decreases on.len() - i,
    {
        i += 1;
    }
    if i < ts.len() && bytes_eq(ts[i].as_bytes(), s.as_bytes()) {
        proof {
            assert(on[i as int] == s.spec_bytes());
            assert(on.to_set().insert(s.spec_bytes()) =~= on.to_set());
        }
        return;
    }
    proof {
        assert forall|j: int| i <= j < on.len() implies lex_lt(s.spec_bytes(), #[trigger] on[j]) by {
            assert(!lex_lt(on[i as int], s.spec_bytes()));
            assert(on[i as int] != s.spec_bytes());
            lemma_lex_total(on[i as int], s.spec_bytes());
            if j > i {
                assert(lex_lt(on[i as int], on[j]));
                lemma_lex_transitive(s.spec_bytes(), on[i as int], on[j]);
            }
        }
    }
    ts.insert(i, s);
    proof {
        let nn = ts@.map_values(|t: &str| t.spec_bytes());
        assert(nn =~= on.insert(i as int, s.spec_bytes()));
        assert(ascending(nn)) by {
            assert forall|x: int, y: int| 0 <= x < y < nn.len() implies lex_lt(#[trigger] nn[x], #[trigger] nn[y]) by {
                if y < i {
                    assert(nn[x] == on[x] && nn[y] == on[y]);
                } else if y == i {
                    assert(nn[x] == on[x]);
                } else if x < i {
                    assert(nn[x] == on[x] && nn[y] == on[y - 1]);
                } else if x == i {
                    assert(nn[y] == on[y - 1]);
                } else {
                    assert(nn[x] == on[x - 1] && nn[y] == on[y - 1]);
                }
            }
        }
        assert(nn.to_set() =~= on.to_set().insert(s.spec_bytes())) by {
            assert forall|t: Seq<u8>| nn.to_set().contains(t) <==> on.to_set().insert(s.spec_bytes()).contains(t) by {
                if nn.to_set().contains(t) {
                    let k = choose|k: int| 0 <= k < nn.len() && nn[k] == t;
                    if k < i { assert(on[k] == t); } else if k > i { assert(on[k - 1] == t); }
                }
                if on.to_set().contains(t) {
                    let k = choose|k: int| 0 <= k < on.len() && on[k] == t;
                    if k < i { assert(nn[k] == t); } else { assert(nn[k + 1] == t); }
                }
                if t == s.spec_bytes() {
                    assert(nn[i as int] == t);
                }
            }
        }
    }
}

/// The fingerprint of a run reads its node set and nothing else: two
/// runtimes holding nodes of the same names have the same fingerprint,
/// whatever order the nodes were reached in and whatever values they hold.
pub proof fn fingerprint_reads_only_the_node_names<V>(a: Runtime<V>, b: Runtime<V>)
    requires
        ascending(a.names()),
        ascending(b.names()),
        a.names().to_set() == b.names().to_set(),
    ensures
        a.fingerprint() == b.fingerprint(),
{
    lemma_ascending_unique(a.names(), b.names());
}

/// The node names a run holds after converging onto `thetas`, in order,
/// starting from a run that holds `start`.
pub open spec fn converged_names(start: Set<Seq<u8>>, thetas: Seq<Seq<u8>>) -> Set<Seq<u8>>
    decreases thetas.len(),
{
    if thetas.len() == 0 {
        start
    } else {
        converged_names(start, thetas.drop_last()).insert(thetas.last())
    }
}

proof fn lemma_converged_names(start: Set<Seq<u8>>, thetas: Seq<Seq<u8>>)
    ensures
        converged_names(start, thetas) == start.union(thetas.to_set()),
    decreases thetas.len(),
{
    if thetas.len() == 0 {
        assert(thetas.to_set() =~= Set::empty());
        assert(start.union(thetas.to_set()) =~= start);
    } else {
        let init = thetas.drop_last();
        lemma_converged_names(start, init);
        assert(thetas.to_set() =~= init.to_set().insert(thetas.last())) by {
            assert forall|x: Seq<u8>| thetas.to_set().contains(x) <==> init.to_set().insert(thetas.last()).contains(x) by {
                if thetas.to_set().contains(x) {
                    let i = choose|i: int| 0 <= i < thetas.len() && thetas[i] == x;
                    if i < thetas.len() - 1 {
                        assert(init[i] == x);
                    }
                }
                if init.to_set().contains(x) {
                    let i = choose|i: int| 0 <= i < init.len() && init[i] == x;
                    assert(thetas[i] == x);
                }
                if x == thetas.last() {
                    assert(thetas[thetas.len() - 1] == x);
                }
            }
        }
        assert(converged_names(start, thetas) =~= start.union(thetas.to_set()));
    }
}

/// Convergence does not depend on the order of contribution: two runs that
/// start from the same node names and converge onto the same subtasks, in
/// any order and any number of times each, hold the same node names, and so
/// report the same protocol fingerprint.
pub proof fn converging_in_any_order_reaches_the_same_nodes<V>(
    a: Runtime<V>,
    b: Runtime<V>,
    start: Set<Seq<u8>>,
    ta: Seq<Seq<u8>>,
    tb: Seq<Seq<u8>>,
)
    requires
        ascending(a.names()),
        ascending(b.names()),
        a.names().to_set() == converged_names(start, ta),
        b.names().to_set() == converged_names(start, tb),
        ta.to_set() == tb.to_set(),
    ensures
        a.names() == b.names(),
        a.fingerprint() == b.fingerprint(),
{
    lemma_converged_names(start, ta);
    lemma_converged_names(start, tb);
    lemma_ascending_unique(a.names(), b.names());
}

/// Whether some value of `m` matches `x`.
pub open spec fn matched<V: PartialEq>(m: Seq<V>, x: V) -> bool {
    exists|j: int| 0 <= j < m.len() && (#[trigger] m[j]).eq_spec(&x)
}

/// Every value of `incoming` is matched, after a merge, by some value the
/// merge holds, and the merge keeps `existing` as its prefix.
proof fn lemma_merged_covers<V: PartialEq>(existing: Seq<V>, incoming: Seq<V>)
    requires
        forall|x: V| #[trigger] x.eq_spec(&x),
    ensures
        existing.len() <= merged(existing, incoming).len(),
        merged(existing, incoming).take(existing.len() as int) == existing,
        forall|k: int| 0 <= k < incoming.len() ==> matched(merged(existing, incoming), #[trigger] incoming[k]),
    decreases incoming.len(),
{
    if incoming.len() > 0 {
        let init = incoming.drop_last();
        let m = merged(existing, init);
        lemma_merged_covers(existing, init);
        let r = merged(existing, incoming);
        assert(r.take(m.len() as int) =~= m);
        assert(r.take(existing.len() as int) =~= m.take(existing.len() as int));
        assert forall|k: int| 0 <= k < incoming.len() implies matched(r, #[trigger] incoming[k]) by {
            if k < incoming.len() - 1 {
                assert(incoming[k] == init[k]);
                assert(matched(m, init[k]));
                let j = choose|j: int| 0 <= j < m.len() && (#[trigger] m[j]).eq_spec(&init[k]);
                assert(r[j] == m[j]);
            } else if matched(m, incoming.last()) {
                let j = choose|j: int| 0 <= j < m.len() && (#[trigger] m[j]).eq_spec(&incoming.last());
                assert(r[j] == m[j]);
            } else {
                assert(r[m.len() as int] == incoming.last());
                assert(r[m.len() as int].eq_spec(&incoming[k]));
            }
        }
    }
}

/// Merging values that are each matched already changes nothing.
proof fn lemma_merged_matched<V: PartialEq>(m: Seq<V>, incoming: Seq<V>)
    requires
        forall|k: int| 0 <= k < incoming.len() ==> matched(m, #[trigger] incoming[k]),
    ensures
        merged(m, incoming) == m,
    decreases incoming.len(),
{
    if incoming.len() > 0 {
        let init = incoming.drop_last();
        assert forall|k: int| 0 <= k < init.len() implies matched(m, #[trigger] init[k]) by {
            assert(init[k] == incoming[k]);
        }
        lemma_merged_matched(m, init);
        let k = incoming.len() - 1;
        assert(incoming[k] == incoming.last());
        assert(matched(m, incoming[k]));
    }
}

/// Convergence is idempotent: converging the same contribution onto a node
/// a second time leaves its name among the nodes once, adds no value, and
/// leaves its chunk count as it was, for values whose equality is reflexive.
pub proof fn converging_twice_adds_nothing<V: PartialEq>(
    names: Set<Seq<u8>>,
    theta: Seq<u8>,
    existing: Seq<V>,
    incoming: Seq<V>,
    held: nat,
    chunks: nat,
)
    requires
        forall|x: V| #[trigger] x.eq_spec(&x),
    ensures
        names.insert(theta).insert(theta) == names.insert(theta),
        merged(merged(existing, incoming), incoming) == merged(existing, incoming),
        joined_chunks(joined_chunks(held, chunks), chunks) == joined_chunks(held, chunks),
{
    assert(names.insert(theta).insert(theta) =~= names.insert(theta));
    lemma_merged_covers(existing, incoming);
    lemma_merged_matched(merged(existing, incoming), incoming);
}

/// The values on a node holding `existing` after the contributions
/// `contributions` are merged onto it, in order.
pub open spec fn merged_all<V: PartialEq>(existing: Seq<V>, contributions: Seq<Seq<V>>) -> Seq<V>
    decreases contributions.len(),
{
    if contributions.len() == 0 {
        existing
    } else {
        merged(merged_all(existing, contributions.drop_last()), contributions.last())
    }
}

/// The chunks a node carrying `held` carries after contributions bringing
/// `chunks` are merged onto it, in order.
pub open spec fn joined_all(held: nat, chunks: Seq<nat>) -> nat
    decreases chunks.len(),
{
    if chunks.len() == 0 {
        held
    } else {
        joined_chunks(joined_all(held, chunks.drop_last()), chunks.last())
    }
}

/// Whether `x` is held by `existing` or by one of `contributions`.
pub open spec fn held_anywhere<V>(existing: Seq<V>, contributions: Seq<Seq<V>>, x: V) -> bool {
    existing.contains(x) || exists|i: int| 0 <= i < contributions.len() && (#[trigger] contributions[i]).contains(x)
}

proof fn lemma_merged_set<V: PartialEq>(existing: Seq<V>, incoming: Seq<V>)
    requires
        forall|x: V, y: V| #[trigger] x.eq_spec(&y) <==> x == y,
    ensures
        merged(existing, incoming).to_set() == existing.to_set().union(incoming.to_set()),
        existing.no_duplicates() ==> merged(existing, incoming).no_duplicates(),
    decreases incoming.len(),
{
    if incoming.len() == 0 {
        assert(existing.to_set().union(incoming.to_set()) =~= existing.to_set());
    } else {
        let init = incoming.drop_last();
        let x = incoming.last();
        lemma_merged_set(existing, init);
        let m = merged(existing, init);
        assert(incoming.to_set() =~= init.to_set().insert(x)) by {
            assert forall|y: V| incoming.to_set().contains(y) <==> init.to_set().insert(x).contains(y) by {
                if incoming.to_set().contains(y) {
                    let i = choose|i: int| 0 <= i < incoming.len() && incoming[i] == y;
                    if i < incoming.len() - 1 {
                        assert(init[i] == y);
                    }
                }
                if init.to_set().contains(y) {
                    let i = choose|i: int| 0 <= i < init.len() && init[i] == y;
                    assert(incoming[i] == y);
                }
                if y == x {
                    assert(incoming[incoming.len() - 1] == y);
                }
            }
        }
        if exists|j: int| 0 <= j < m.len() && (#[trigger] m[j]).eq_spec(&x) {
            let j = choose|j: int| 0 <= j < m.len() && (#[trigger] m[j]).eq_spec(&x);
            assert(m[j] == x);
            assert(m.to_set().contains(x));
            assert(merged(existing, incoming) == m);
            assert(m.to_set() =~= existing.to_set().union(incoming.to_set()));
        } else {
            assert(merged(existing, incoming) == m.push(x));
            assert(!m.contains(x)) by {
                if m.contains(x) {
                    let j = choose|j: int| 0 <= j < m.len() && m[j] == x;
                    assert(m[j].eq_spec(&x));
                }
            }
            assert(m.push(x).to_set() =~= m.to_set().insert(x)) by {
                assert forall|y: V| m.push(x).to_set().contains(y) <==> m.to_set().insert(x).contains(y) by {
                    if m.push(x).to_set().contains(y) {
                        let i = choose|i: int| 0 <= i < m.push(x).len() && m.push(x)[i] == y;
                        if i < m.len() {
                            assert(m[i] == y);
                        }
                    }
                    if m.to_set().contains(y) {
                        let i = choose|i: int| 0 <= i < m.len() && m[i] == y;
                        assert(m.push(x)[i] == y);
                    }
                    if y == x {
                        assert(m.push(x)[m.len() as int] == y);
                    }
                }
            }
            assert(m.push(x).to_set() =~= existing.to_set().union(incoming.to_set()));
            if existing.no_duplicates() {
                assert(m.push(x).no_duplicates()) by {
                    assert forall|a: int, b: int| 0 <= a < b < m.push(x).len() implies m.push(x)[a] != m.push(x)[b] by {
                        if b == m.len() {
                            assert(m[a] != x);
                        }
                    }
                }
            }
        }
    }
}

proof fn lemma_merged_all_set<V: PartialEq>(existing: Seq<V>, contributions: Seq<Seq<V>>)
    requires
        forall|x: V, y: V| #[trigger] x.eq_spec(&y) <==> x == y,
    ensures
        forall|x: V| #[trigger] merged_all(existing, contributions).contains(x) <==> held_anywhere(existing, contributions, x),
        existing.no_duplicates() ==> merged_all(existing, contributions).no_duplicates(),
    decreases contributions.len(),
{
    if contributions.len() > 0 {
        let init = contributions.drop_last();
        let last = contributions.last();
        lemma_merged_all_set(existing, init);
        let m = merged_all(existing, init);
        lemma_merged_set(m, last);
        assert forall|x: V| #[trigger] merged_all(existing, contributions).contains(x) <==> held_anywhere(existing, contributions, x) by {
            let r = merged_all(existing, contributions);
            assert(r.to_set().contains(x) == r.contains(x));
            assert(m.to_set().contains(x) == m.contains(x));
            assert(last.to_set().contains(x) == last.contains(x));
            if held_anywhere(existing, contributions, x) && !existing.contains(x) {
                let i = choose|i: int| 0 <= i < contributions.len() && (#[trigger] contributions[i]).contains(x);
                if i < contributions.len() - 1 {
                    assert(init[i] == contributions[i]);
                    assert(held_anywhere(existing, init, x));
                }
            }
            if held_anywhere(existing, init, x) && !existing.contains(x) {
                let i = choose|i: int| 0 <= i < init.len() && (#[trigger] init[i]).contains(x);
                assert(contributions[i] == init[i]);
            }
        }
    }
}

proof fn lemma_joined_all(held: nat, chunks: Seq<nat>)
    ensures
        held <= joined_all(held, chunks),
        forall|i: int| 0 <= i < chunks.len() ==> #[trigger] chunks[i] <= joined_all(held, chunks),
        joined_all(held, chunks) == held || chunks.contains(joined_all(held, chunks)),
    decreases chunks.len(),
{
    if chunks.len() > 0 {
        let init = chunks.drop_last();
        lemma_joined_all(held, init);
        assert forall|i: int| 0 <= i < chunks.len() implies #[trigger] chunks[i] <= joined_all(held, chunks) by {
            if i < chunks.len() - 1 {
                assert(chunks[i] == init[i]);
            }
        }
        let r = joined_all(held, chunks);
        if r != held && r != chunks.last() {
            let i = choose|i: int| 0 <= i < init.len() && init[i] == joined_all(held, init);
            assert(chunks[i] == init[i]);
        }
        if r == chunks.last() {
            assert(chunks[chunks.len() - 1] == r);
        }
    }
}

/// Merging contributions onto a node does not depend on their order: the
/// same contributions, in any order and any number of times each, leave
/// the same values (each held once, when none was held twice before) and
/// the same chunk count, for values whose equality is equality.
pub proof fn contributions_merge_alike_in_any_order<V: PartialEq>(
    existing: Seq<V>,
    held: nat,
    values_a: Seq<Seq<V>>,
    values_b: Seq<Seq<V>>,
    chunks_a: Seq<nat>,
    chunks_b: Seq<nat>,
)
    requires
        forall|x: V, y: V| #[trigger] x.eq_spec(&y) <==> x == y,
        values_a.to_set() == values_b.to_set(),
        chunks_a.to_set() == chunks_b.to_set(),
    ensures
        merged_all(existing, values_a).to_set() == merged_all(existing, values_b).to_set(),
        existing.no_duplicates() ==> merged_all(existing, values_a).no_duplicates(),
        existing.no_duplicates() ==> merged_all(existing, values_b).no_duplicates(),
        joined_all(held, chunks_a) == joined_all(held, chunks_b),
{
    lemma_merged_all_set(existing, values_a);
    lemma_merged_all_set(existing, values_b);
    let a = merged_all(existing, values_a);
    let b = merged_all(existing, values_b);
    assert forall|x: V| a.to_set().contains(x) <==> b.to_set().contains(x) by {
        assert(a.to_set().contains(x) == a.contains(x));
        assert(b.to_set().contains(x) == b.contains(x));
        if held_anywhere(existing, values_a, x) && !existing.contains(x) {
            let i = choose|i: int| 0 <= i < values_a.len() && (#[trigger] values_a[i]).contains(x);
            assert(values_a.to_set().contains(values_a[i]));
            assert(values_b.to_set().contains(values_a[i]));
            let j = choose|j: int| 0 <= j < values_b.len() && values_b[j] == values_a[i];
            assert(values_b[j].contains(x));
        }
        if held_anywhere(existing, values_b, x) && !existing.contains(x) {
            let i = choose|i: int| 0 <= i < values_b.len() && (#[trigger] values_b[i]).contains(x);
            assert(values_b.to_set().contains(values_b[i]));
            assert(values_a.to_set().contains(values_b[i]));
            let j = choose|j: int| 0 <= j < values_a.len() && values_a[j] == values_b[i];
            assert(values_a[j].contains(x));
        }
    }
    assert(a.to_set() =~= b.to_set());
    lemma_joined_all(held, chunks_a);
    lemma_joined_all(held, chunks_b);
    let ja = joined_all(held, chunks_a);
    let jb = joined_all(held, chunks_b);
    if ja != held {
        let i = choose|i: int| 0 <= i < chunks_a.len() && chunks_a[i] == ja;
        assert(chunks_a.to_set().contains(ja));
        assert(chunks_b.to_set().contains(ja));
        let j = choose|j: int| 0 <= j < chunks_b.len() && chunks_b[j] == ja;
        assert(chunks_b[j] <= jb);
    }
    if jb != held {
        let i = choose|i: int| 0 <= i < chunks_b.len() && chunks_b[i] == jb;
        assert(chunks_b.to_set().contains(jb));
        assert(chunks_a.to_set().contains(jb));
        let j = choose|j: int| 0 <= j < chunks_a.len() && chunks_a[j] == jb;
        assert(chunks_a[j] <= ja);
    }
}

/// Whether no two of `es` are the same edge.
pub open spec fn distinct_edges(es: Seq<(String, String)>) -> bool {
    forall|i: int, j: int| 0 <= i < j < es.len() ==> edge_bytes(#[trigger] es[i]) != edge_bytes(#[trigger] es[j])
}

fn add_edge(edges: &mut Vec<(String, String)>, from: &str, to: &str)
    requires
        distinct_edges(old(edges)@),
    ensures
        distinct_edges(final(edges)@),
        final(edges)@.map_values(|e: (String, String)| edge_bytes(e)).to_set() == old(edges)@.map_values(|e: (String, String)| edge_bytes(e)).to_set().insert((from.spec_bytes(), to.spec_bytes())),
{
    let ghost key = (from.spec_bytes(), to.spec_bytes());
    let ghost before = edges@.map_values(|e: (String, String)| edge_bytes(e));
    let mut i: usize = 0;
    while i < edges.len()
        invariant
            i <= edges@.len(),
            key == (from.spec_bytes(), to.spec_bytes()),
            distinct_edges(edges@),
            before == edges@.map_values(|e: (String, String)| edge_bytes(e)),
            forall|j: int| 0 <= j < i ==> edge_bytes(#[trigger] edges@[j]) != key,
        decreases edges@.len() - i,
    {
        if bytes_eq(edges[i].0.as_str().as_bytes(), from.as_bytes()) && bytes_eq(edges[i].1.as_str().as_bytes(), to.as_bytes()) {
            proof {
                assert(before[i as int] == key);
                assert(before.to_set().insert(key) =~= before.to_set());
            }
            return;
        }
        i += 1;
    }
    edges.push((from.to_owned(), to.to_owned()));
    proof {
        let after = edges@.map_values(|e: (String, String)| edge_bytes(e));
        assert(after =~= before.push(key));
        assert(after.to_set() =~= before.to_set().insert(key));
    }
}

} // verus!
