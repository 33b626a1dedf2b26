//! Voices: what speaks in the square before anyone is a person.
//!
//! A voice is a handle with a posting history and nothing else: no profile,
//! no demographics. The square is reached by region or by handle, never by
//! a description.

use vstd::prelude::*;
use crate::graph::{ContactGraph, Position, increasing, sorted_positions};
use crate::moderator::{Cap, Character, Moderator, all_members, amalgamated_into, capped};
use crate::rng::{Draw, SeededRng, after, drawn_below, drawn_coin};
use crate::text::push_decimal;

verus! {

broadcast use vstd::seq_lib::group_seq_properties;

/// A handle for something that speaks. Not a person, and not yet an agent.
#[derive(Debug, Clone, Copy, PartialEq, Eq, Structural, PartialOrd, Ord, Hash)]
pub struct VoiceId(pub u32);

/// A region of the city: a name and a set of positions, nothing more.
#[derive(Debug, Clone)]
pub struct Subgroup {
    /// Display handle.
    pub name: String,
    /// The positions this region spans; their order and repetition carry no
    /// meaning.
    pub members: Vec<Position>,
}

impl Subgroup {
    /// The positions of the region, as a set.
    pub open spec fn positions(&self) -> Set<Position> {
        self.members@.to_set()
    }

    /// Whether a terminus falls in this region.
    pub fn contains(&self, terminus: Position) -> (b: bool)
        ensures
            b == self.positions().contains(terminus),
    {
        crate::graph::contains(&self.members, terminus)
    }
}

/// What speaks: a handle, a display name, and where it has spoken.
#[derive(Debug, Clone)]
pub struct Voice {
    /// Stable handle.
    pub id: VoiceId,
    /// What the square calls it. A display string, not an identity.
    pub name: String,
    /// Termini it has posted at, in order: the whole of what is known.
    pub spoken_at: Vec<Position>,
}

/// Whether the voice has spoken somewhere in `g`.
pub open spec fn heard_in(v: Voice, g: Subgroup) -> bool {
    exists|i: int| 0 <= i < v.spoken_at@.len() && g.positions().contains(#[trigger] v.spoken_at@[i])
}

impl Voice {
    /// The distinct positions this voice has spoken at, in increasing order.
    pub fn footprint(&self) -> (f: Vec<Position>)
        ensures
            increasing(f@),
            f@.to_set() == self.spoken_at@.to_set(),
    {
        sorted_positions(self.spoken_at.as_slice())
    }

    fn heard_in_exec(&self, g: &Subgroup) -> (b: bool)
        ensures
            b == heard_in(*self, *g),
    {
        let mut i: usize = 0;
        while i < self.spoken_at.len()
            invariant
                i <= self.spoken_at@.len(),
                forall|j: int| 0 <= j < i ==> !g.positions().contains(#[trigger] self.spoken_at@[j]),
            decreases self.spoken_at@.len() - i,
        {
            if g.contains(self.spoken_at[i]) {
                return true;
            }
            i += 1;
        }
        false
    }

    /// The subgroups this voice has spoken in, in the order given.
    pub fn subgroups<'a>(&self, all: &'a [Subgroup]) -> (gs: Vec<&'a Subgroup>)
        ensures
            gs@.map_values(|g: &Subgroup| *g) == all@.filter(|g: Subgroup| heard_in(*self, g)),
    {
        let mut out: Vec<&Subgroup> = Vec::new();
        let mut i: usize = 0;
        while i < all.len()
            invariant
                i <= all@.len(),
                out@.map_values(|g: &Subgroup| *g) == all@.take(i as int).filter(|g: Subgroup| heard_in(*self, g)),
            decreases all@.len() - i,
        {
            proof {
                reveal(Seq::filter);
                assert(all@.take(i + 1).drop_last() =~= all@.take(i as int));
            }
            let ghost before = out@;
            if self.heard_in_exec(&all[i]) {
                out.push(&all[i]);
                assert(out@.map_values(|g: &Subgroup| *g) =~= before.map_values(|g: &Subgroup| *g).push(all@[i as int]));
            }
            i += 1;
        }
        assert(all@.take(all@.len() as int) =~= all@);
        out
    }
}

/// The population of voices in a square, and its regions.
#[derive(Debug)]
pub struct Square {
    voices: Vec<Voice>,
    subgroups: Vec<Subgroup>,
    next: u32,
}

impl Square {
    #[verifier::type_invariant]
    closed spec fn numbered(&self) -> bool {
        &&& self.next == self.voices@.len()
        &&& forall|i: int| 0 <= i < self.voices@.len() ==> #[trigger] self.voices@[i].id == VoiceId(i as u32)
    }

    /// Every voice, by handle order.
    pub closed spec fn all(&self) -> Seq<Voice> {
        self.voices@
    }

    /// The regions of this city.
    pub closed spec fn regions(&self) -> Seq<Subgroup> {
        self.subgroups@
    }

    /// An empty square with the given regions.
    pub fn new(subgroups: Vec<Subgroup>) -> (s: Self)
        ensures
            s.all() == Seq::<Voice>::empty(),
            s.regions() == subgroups@,
    {
        Square { voices: Vec::new(), subgroups, next: 0 }
    }

    /// The regions of this city.
    pub fn subgroups(&self) -> (gs: &[Subgroup])
        ensures
            gs@ == self.regions(),
    {
        self.subgroups.as_slice()
    }

    /// Add a voice under `name`, returning its handle.
    pub fn add_voice(&mut self, name: String) -> (id: VoiceId)
        requires
            old(self).all().len() < u32::MAX,
        ensures
            id == VoiceId(old(self).all().len() as u32),
            final(self).regions() == old(self).regions(),
            final(self).all() == old(self).all().push(Voice { id, name, spoken_at: final(self).all().last().spoken_at }),
            final(self).all().last().spoken_at@.len() == 0,
    {
        proof { use_type_invariant(&*self); }
        let mut current = Square::new(Vec::new());
        std::mem::swap(&mut current, self);
        let Square { mut voices, subgroups, next } = current;
        let id = VoiceId(next);
        voices.push(Voice { id, name, spoken_at: Vec::new() });
        *self = Square { voices, subgroups, next: next + 1 };
        id
    }

    /// Record that `id` spoke at `terminus`. Nothing happens for an unknown
    /// voice.
    pub fn note(&mut self, id: VoiceId, terminus: Position)
        ensures
            final(self).regions() == old(self).regions(),
            final(self).all().len() == old(self).all().len(),
            forall|i: int| 0 <= i < old(self).all().len() && i != id.0 ==> #[trigger] final(self).all()[i] == old(self).all()[i],
            id.0 < old(self).all().len() ==> {
                let v = old(self).all()[id.0 as int];
                let w = final(self).all()[id.0 as int];
                &&& w.id == v.id
                &&& w.name == v.name
                &&& w.spoken_at@ == v.spoken_at@.push(terminus)
            },
    {
        proof { use_type_invariant(&*self); }
        if id.0 < self.next {
            let mut current = Square::new(Vec::new());
            std::mem::swap(&mut current, self);
            let Square { mut voices, subgroups, next } = current;
            let i = id.0 as usize;
            let ghost before = voices@;
            let mut v = voices.remove(i);
            v.spoken_at.push(terminus);
            voices.insert(i, v);
            proof {
                assert forall|j: int| 0 <= j < voices@.len() implies #[trigger] voices@[j].id == VoiceId(j as u32) by {
                    if j != i {
                        assert(voices@[j] == before[j]);
                    }
                }
            }
            *self = Square { voices, subgroups, next };
        }
    }

    /// One voice.
    pub fn voice(&self, id: VoiceId) -> (v: Option<&Voice>)
        ensures
            match v {
                Some(voice) => id.0 < self.all().len() && *voice == self.all()[id.0 as int],
                None => id.0 >= self.all().len(),
            },
    {
        proof { use_type_invariant(self); }
        if id.0 < self.next {
            let i = id.0 as usize;
            Some(&self.voices[i])
        } else {
            None
        }
    }

    /// Every voice, by handle order.
    pub fn voices(&self) -> (vs: Vec<&Voice>)
        ensures
            vs@.map_values(|v: &Voice| *v) == self.all(),
            forall|i: int| 0 <= i < vs@.len() ==> #[trigger] vs@[i].id == VoiceId(i as u32),
    {
        proof { use_type_invariant(self); }
        let mut out: Vec<&Voice> = Vec::new();
        let mut i: usize = 0;
        while i < self.voices.len()
            invariant
                i <= self.voices@.len(),
                out@.map_values(|v: &Voice| *v) == self.voices@.take(i as int),
            decreases self.voices@.len() - i,
        {
            let ghost before = out@;
            out.push(&self.voices[i]);
            assert(out@.map_values(|v: &Voice| *v) =~= before.map_values(|v: &Voice| *v).push(self.voices@[i as int]));
            i += 1;
            assert(out@.map_values(|v: &Voice| *v) =~= self.voices@.take(i as int));
        }
        assert(self.voices@.take(self.voices@.len() as int) =~= self.voices@);
        proof {
            assert forall|i: int| 0 <= i < out@.len() implies #[trigger] out@[i].id == VoiceId(i as u32) by {
                assert(out@.map_values(|v: &Voice| *v)[i] == self.voices@[i]);
            }
        }
        out
    }

    /// The voices that have spoken in `subgroup`, by handle order.
    pub fn voices_in(&self, subgroup: &Subgroup) -> (vs: Vec<&Voice>)
        ensures
            vs@.map_values(|v: &Voice| *v) == self.all().filter(|v: Voice| heard_in(v, *subgroup)),
    {
        let mut out: Vec<&Voice> = Vec::new();
        let mut i: usize = 0;
        while i < self.voices.len()
            invariant
                i <= self.voices@.len(),
                out@.map_values(|v: &Voice| *v) == self.voices@.take(i as int).filter(|v: Voice| heard_in(v, *subgroup)),
            decreases self.voices@.len() - i,
        {
            proof {
                reveal(Seq::filter);
                assert(self.voices@.take(i + 1).drop_last() =~= self.voices@.take(i as int));
            }
            let ghost before = out@;
            if self.voices[i].heard_in_exec(subgroup) {
                out.push(&self.voices[i]);
                assert(out@.map_values(|v: &Voice| *v) =~= before.map_values(|v: &Voice| *v).push(self.voices@[i as int]));
            }
            i += 1;
        }
        assert(self.voices@.take(self.voices@.len() as int) =~= self.voices@);
        out
    }
}

/// Whether voice `v` was audible to moderator `m`: it spoke somewhere in
/// the moderator's region.
pub open spec fn audible<W>(v: Voice, m: Moderator<W>) -> bool {
    exists|i: int| 0 <= i < v.spoken_at@.len() && m.region_of().contains(#[trigger] v.spoken_at@[i])
}

/// The moderators of `mods` voice `v` was audible to, in order.
pub open spec fn audible_among<W>(v: Voice, mods: Seq<Moderator<W>>) -> Seq<Moderator<W>> {
    mods.filter(|m: Moderator<W>| audible(v, m))
}


impl Square {
    /// Which moderators a voice was audible to, in order; none for an
    /// unknown voice.
    pub fn audible_to<'a, W>(&self, id: VoiceId, mods: &'a [Moderator<W>]) -> (ms: Vec<&'a Moderator<W>>)
        ensures
            id.0 >= self.all().len() ==> ms@.len() == 0,
            id.0 < self.all().len() ==> ms@.map_values(|m: &Moderator<W>| *m) == audible_among(self.all()[id.0 as int], mods@),
    {
        let mut out: Vec<&Moderator<W>> = Vec::new();
        let v = match self.voice(id) {
            Some(v) => v,
            None => {
                return out;
            },
        };
        let mut i: usize = 0;
        while i < mods.len()
            invariant
                i <= mods@.len(),
                out@.map_values(|m: &Moderator<W>| *m) == mods@.take(i as int).filter(|m: Moderator<W>| audible(*v, m)),
            decreases mods@.len() - i,
        {
            proof {
                reveal(Seq::filter);
                assert(mods@.take(i + 1).drop_last() =~= mods@.take(i as int));
            }
            let region = mods[i].region();
            let mut heard = false;
            let mut j: usize = 0;
            while j < v.spoken_at.len()
                invariant
                    j <= v.spoken_at@.len(),
                    region@ == mods@[i as int].region_of(),
                    heard == (exists|t: int| 0 <= t < j && mods@[i as int].region_of().contains(#[trigger] v.spoken_at@[t])),
                decreases v.spoken_at@.len() - j,
            {
                let mut k: usize = 0;
                let mut found = false;
                while k < region.len()
                    invariant
                        k <= region@.len(),
                        j < v.spoken_at@.len(),
                        found == (exists|x: int| 0 <= x < k && region@[x] == v.spoken_at@[j as int]),
                    decreases region@.len() - k,
                {
                    if region[k] == v.spoken_at[j] {
                        found = true;
                    }
                    k += 1;
                }
                if found {
                    heard = true;
                }
                j += 1;
            }
            let ghost before = out@;
            if heard {
                out.push(&mods[i]);
                assert(out@.map_values(|m: &Moderator<W>| *m) =~= before.map_values(|m: &Moderator<W>| *m).push(mods@[i as int]));
            }
            i += 1;
        }
        assert(mods@.take(mods@.len() as int) =~= mods@);
        out
    }

    /// Reassemble the character behind a voice: every moderator it was
    /// audible to caps itself to the voice's footprint, and the caps
    /// amalgamate, combining a contact's weights with `join`. `None` for an
    /// unknown voice, or one that spoke too narrowly for a character.
    pub fn character<W: Copy, F: Fn(W, W) -> W>(&self, id: VoiceId, city: &ContactGraph<W>, mods: &[Moderator<W>], join: F) -> (c: Option<Character<W>>)
        requires
            forall|a: W, b: W| #[trigger] join.requires((a, b)),
            id.0 < self.all().len() ==> self.all()[id.0 as int].spoken_at@.to_set().len() < u32::MAX,
        ensures
            id.0 >= self.all().len() ==> c is None,
            id.0 < self.all().len() ==> exists|caps: Seq<Cap<W>>| {
                let v = self.all()[id.0 as int];
                let heard = audible_among(v, mods@);
                &&& caps.len() == heard.len()
                &&& forall|j: int| 0 <= j < caps.len() ==> capped(#[trigger] caps[j], heard[j], *city, v.spoken_at@.to_set())
                &&& #[trigger] amalgamated_into(c, caps, join)
            },
    {
        let v = match self.voice(id) {
            Some(v) => v,
            None => {
                return None;
            },
        };
        let foot = v.footprint();
        let heard = self.audible_to(id, mods);
        let ghost hv = heard@.map_values(|m: &Moderator<W>| *m);
        let mut caps: Vec<Cap<W>> = Vec::new();
        let mut j: usize = 0;
        while j < heard.len()
            invariant
                j <= heard@.len(),
                hv == heard@.map_values(|m: &Moderator<W>| *m),
                caps@.len() == j,
                forall|x: int| 0 <= x < j ==> capped(#[trigger] caps@[x], hv[x], *city, foot@.to_set()),
            decreases heard@.len() - j,
        {
            let c = heard[j].cap(city, foot.as_slice());
            caps.push(c);
            j += 1;
        }
        proof {
            assert(*v == self.all()[id.0 as int]);
            assert(hv == audible_among(*v, mods@));
            assert(all_members(caps@).subset_of(foot@.to_set())) by {
                assert forall|p: Position| all_members(caps@).contains(p) implies foot@.to_set().contains(p) by {
                    let i = choose|i: int| 0 <= i < caps@.len() && (#[trigger] caps@[i]).region@.contains(p);
                    assert(caps@[i].region@.to_set().contains(p));
                }
            }
            vstd::set_lib::lemma_len_subset(all_members(caps@), foot@.to_set());
        }
        let ch = Character::amalgamated(caps.as_slice(), join);
        proof {
            assert(caps@.len() == audible_among(*v, mods@).len());
        }
        ch
    }
}

/// How the square is populated before anyone arrives.
#[derive(Debug, Clone)]
pub struct Seeding {
    /// How many voices to admit.
    pub voices: usize,
    /// How many posts each voice makes while seeding.
    pub posts_each: usize,
}

impl Default for Seeding {
    fn default() -> (s: Self)
        ensures
            s.voices == 8,
            s.posts_each == 3,
    {
        Seeding { voices: 8, posts_each: 3 }
    }
}

/// One seeded utterance: who spoke, and where. Carries no body.
#[derive(Debug, Clone, Copy, PartialEq, Eq, Structural)]
pub struct Utterance {
    /// The voice speaking.
    pub voice: VoiceId,
    /// Where it registers.
    pub terminus: Position,
}

/// Whether regions `a` and `b` are in contact in `city`: some contact has
/// one end in each, so a single step walks from one to the other.
pub open spec fn touch<W>(city: &ContactGraph<W>, a: Set<Position>, b: Set<Position>) -> bool {
    exists|u: Position, v: Position| a.contains(u) && b.contains(v) && #[trigger] city.adjacent(u, v)
}

fn touches<W: Copy>(city: &ContactGraph<W>, a: &Vec<Position>, b: &Vec<Position>) -> (t: bool)
    ensures
        t == touch(city, a@.to_set(), b@.to_set()),
{
    let mut i: usize = 0;
    while i < a.len()
        invariant
            i <= a@.len(),
            forall|x: int, y: int| 0 <= x < i && 0 <= y < b@.len() ==> !city.adjacent(#[trigger] a@[x], #[trigger] b@[y]),
        decreases a@.len() - i,
    {
        let mut j: usize = 0;
        while j < b.len()
            invariant
                i < a@.len(),
                j <= b@.len(),
                forall|x: int, y: int| 0 <= x < i && 0 <= y < b@.len() ==> !city.adjacent(#[trigger] a@[x], #[trigger] b@[y]),
                forall|y: int| 0 <= y < j ==> !city.adjacent(a@[i as int], #[trigger] b@[y]),
            decreases b@.len() - j,
        {
            if city.weight(a[i], b[j]).is_some() {
                assert(a@.to_set().contains(a@[i as int]) && b@.to_set().contains(b@[j as int]));
                return true;
            }
            j += 1;
        }
        i += 1;
    }
    proof {
        if touch(city, a@.to_set(), b@.to_set()) {
            let (u, v) = choose|u: Position, v: Position| a@.to_set().contains(u) && b@.to_set().contains(v) && #[trigger] city.adjacent(u, v);
            let x = choose|x: int| 0 <= x < a@.len() && a@[x] == u;
            let y = choose|y: int| 0 <= y < b@.len() && b@[y] == v;
            assert(!city.adjacent(a@[x], b@[y]));
        }
    }
    false
}

/// Which regions are in contact with which: `near[i]` lists, in
/// increasing order, every other region touching region `i`.
/// The lists of positions of `regions`.
pub open spec fn member_lists(regions: Seq<Vec<Position>>) -> Seq<Seq<Position>> {
    regions.map_values(|v: Vec<Position>| v@)
}

/// The regions among the first `j` of `rs`, other than region `i`, that
/// touch region `i` in `city`, in order.
pub open spec fn neighbours<W>(city: &ContactGraph<W>, rs: Seq<Seq<Position>>, i: int, j: int) -> Seq<usize>
    decreases j,
{
    if j <= 0 {
        Seq::empty()
    } else {
        let prev = neighbours(city, rs, i, j - 1);
        if j - 1 != i && touch(city, rs[i].to_set(), rs[j - 1].to_set()) {
            prev.push((j - 1) as usize)
        } else {
            prev
        }
    }
}

/// The positions of `s`, in increasing order, each once.
pub open spec fn in_increasing_order(s: Seq<Position>) -> Seq<Position> {
    choose|r: Seq<Position>| increasing(r) && r.to_set() == s.to_set()
}

/// The utterances the seeding goes on to make from a generator in state
/// `st`, from voice `i` on, having made `out`: each voice starts in a
/// region drawn at random, then posts `posts` times.
pub open spec fn voices_rest<W>(city: &ContactGraph<W>, rs: Seq<Seq<Position>>, n0: nat, voices: nat, posts: nat, st: (u64, Seq<Draw>), i: nat, out: Seq<Utterance>) -> Seq<Utterance>
    decreases voices - i, posts + 3,
{
    if i >= voices {
        out
    } else {
        let at = drawn_below(st.0, st.1, rs.len() as usize);
        posts_rest(city, rs, n0, voices, posts, after(st, Draw::Below(rs.len() as usize)), i, 0, at as int, out)
    }
}

/// The utterances voice `i` goes on to make, from post `post` on, resting
/// in region `at`: after the first post it tosses a coin, where its region
/// has neighbours, and on heads steps to one drawn at random; then it
/// speaks at a position of its region drawn at random, if the region has
/// any. Then the voices after it.
pub open spec fn posts_rest<W>(city: &ContactGraph<W>, rs: Seq<Seq<Position>>, n0: nat, voices: nat, posts: nat, st: (u64, Seq<Draw>), i: nat, post: nat, at: int, out: Seq<Utterance>) -> Seq<Utterance>
    decreases voices - i, posts + 2 - post,
{
    if i >= voices {
        out
    } else if post >= posts {
        voices_rest(city, rs, n0, voices, posts, st, i + 1, out)
    } else {
        let near = neighbours(city, rs, at, rs.len() as int);
        let tossed = post > 0 && near.len() > 0;
        let heads = tossed && drawn_coin(st.0, st.1);
        let st1 = if tossed { after(st, Draw::Coin) } else { st };
        let step = drawn_below(st1.0, st1.1, near.len() as usize);
        let at1: int = if heads { near[step as int] as int } else { at };
        let st2 = if heads { after(st1, Draw::Below(near.len() as usize)) } else { st1 };
        let choices = in_increasing_order(rs[at1]);
        if choices.len() > 0 {
            let pick = drawn_below(st2.0, st2.1, choices.len() as usize);
            let u = Utterance { voice: VoiceId((n0 + i) as u32), terminus: choices[pick as int] };
            posts_rest(city, rs, n0, voices, posts, after(st2, Draw::Below(choices.len() as usize)), i, post + 1, at1, out.push(u))
        } else {
            posts_rest(city, rs, n0, voices, posts, st2, i, post + 1, at1, out)
        }
    }
}

/// The utterances seeding a square whose regions are `groups` and which
/// already holds `n0` voices makes, with `voices` new voices posting
/// `posts` times each, from a generator seeded with `from`.
pub open spec fn seeded_walk<W>(city: &ContactGraph<W>, groups: Seq<Subgroup>, n0: nat, voices: nat, posts: nat, from: u64) -> Seq<Utterance> {
    if groups.len() == 0 {
        Seq::empty()
    } else {
        voices_rest(city, groups.map_values(|g: Subgroup| g.members@), n0, voices, posts, (from, Seq::empty()), 0, Seq::empty())
    }
}

/// Restating the seed reopens the same square: seeding squares with the
/// same regions and the same number of voices already, over the same city,
/// with the same seeding and the same seed, makes the same utterances, so
/// every voice speaks at the same positions in the same order.
pub proof fn the_same_seed_opens_the_same_square<W>(
    city: &ContactGraph<W>,
    groups: Seq<Subgroup>,
    n0: nat,
    voices: nat,
    posts: nat,
    from: u64,
    out_a: Seq<Utterance>,
    out_b: Seq<Utterance>,
)
    requires
        out_a == seeded_walk(city, groups, n0, voices, posts, from),
        out_b == seeded_walk(city, groups, n0, voices, posts, from),
    ensures
        out_a == out_b,
        forall|id: VoiceId| #[trigger] spoken_by(out_a, id) == spoken_by(out_b, id),
{
}

fn adjacency<W: Copy>(city: &ContactGraph<W>, regions: &Vec<Vec<Position>>) -> (near: Vec<Vec<usize>>)
    ensures
        near@.len() == regions@.len(),
        forall|i: int| 0 <= i < near@.len() ==> (#[trigger] near@[i])@ == neighbours(city, member_lists(regions@), i, regions@.len() as int),
        forall|i: int, j: usize| 0 <= i < near@.len() ==> (#[trigger] near@[i]@.contains(j) <==> (j < regions@.len() && j != i && touch(city, regions@[i]@.to_set(), regions@[j as int]@.to_set()))),
{
    let n = regions.len();
    let mut near: Vec<Vec<usize>> = Vec::new();
    let mut i: usize = 0;
    while i < n
        invariant
            n == regions@.len(),
            i <= n,
            near@.len() == i,
            forall|a: int, j: usize| 0 <= a < i ==> (#[trigger] near@[a]@.contains(j) <==> (j < n && j != a && touch(city, regions@[a]@.to_set(), regions@[j as int]@.to_set()))),
            forall|a: int| 0 <= a < i ==> (#[trigger] near@[a])@ == neighbours(city, member_lists(regions@), a, n as int),
        decreases n - i,
    {
        let mut row: Vec<usize> = Vec::new();
        let mut j: usize = 0;
        while j < n
            invariant
                n == regions@.len(),
                i < n,
                j <= n,
                forall|b: usize| #[trigger] row@.contains(b) <==> (b < j && b != i && touch(city, regions@[i as int]@.to_set(), regions@[b as int]@.to_set())),
                row@ == neighbours(city, member_lists(regions@), i as int, j as int),
            decreases n - j,
        {
            proof {
                assert(member_lists(regions@)[i as int] == regions@[i as int]@);
                assert(member_lists(regions@)[j as int] == regions@[j as int]@);
            }
            if j != i && touches(city, &regions[i], &regions[j]) {
                row.push(j);
            }
            j += 1;
        }
        near.push(row);
        i += 1;
    }
    near
}

/// The positions a voice spoke at, among `out`, in order.
pub open spec fn spoken_by(out: Seq<Utterance>, id: VoiceId) -> Seq<Position>
    decreases out.len(),
{
    if out.len() == 0 {
        Seq::empty()
    } else if out.last().voice == id {
        spoken_by(out.drop_last(), id).push(out.last().terminus)
    } else {
        spoken_by(out.drop_last(), id)
    }
}

proof fn lemma_spoken_by_absent(out: Seq<Utterance>, id: VoiceId)
    requires
        forall|k: int| 0 <= k < out.len() ==> (#[trigger] out[k]).voice != id,
    ensures
        spoken_by(out, id) == Seq::<Position>::empty(),
    decreases out.len(),
{
    if out.len() > 0 {
        lemma_spoken_by_absent(out.drop_last(), id);
    }
}

/// Whether every region has at least one position.
pub open spec fn all_inhabited(regions: Seq<Subgroup>) -> bool {
    forall|r: int| 0 <= r < regions.len() ==> #[trigger] regions[r].members@.len() > 0
}

/// The name the `i`-th seeded voice is given.
pub open spec fn seeded_name(i: nat) -> Seq<char> {
    "voice-"@ + crate::text::decimal(i)
}

/// Whether every utterance of `out` is spoken at a position of one of
/// `regions`.
pub open spec fn spoken_within(regions: Seq<Subgroup>, out: Seq<Utterance>) -> bool {
    forall|k: int| 0 <= k < out.len() ==> exists|r: int| 0 <= r < regions.len() && (#[trigger] regions[r]).positions().contains((#[trigger] out[k]).terminus)
}

/// The walk a seeding took: for each utterance, the region it was spoken
/// in, such that consecutive utterances of one voice are in the same region
/// or in regions that touch.
pub open spec fn walks<W>(city: &ContactGraph<W>, regions: Seq<Subgroup>, out: Seq<Utterance>, rs: Seq<int>) -> bool {
    &&& rs.len() == out.len()
    &&& forall|k: int| 0 <= k < out.len() ==> 0 <= #[trigger] rs[k] < regions.len() && regions[rs[k]].positions().contains(out[k].terminus)
    &&& forall|k: int| 0 <= k < out.len() - 1 && (#[trigger] out[k]).voice == out[k + 1].voice ==> (rs[k] == rs[k + 1] || touch(city, regions[rs[k]].positions(), regions[rs[k + 1]].positions()))
}

/// Populate a square, deterministically in the seed `from`.
///
/// Each new voice starts in some region and, for every further post,
/// either stays or steps to a region in contact with the one it is in; it
/// speaks at a position of the region it is in. Returns the utterances in
/// order, each voice's contiguously.
pub fn seed<W: Copy>(square: &mut Square, city: &ContactGraph<W>, seeding: &Seeding, from: u64) -> (out: Vec<Utterance>)
    requires
        old(square).all().len() + seeding.voices < u32::MAX,
    ensures
        final(square).regions() == old(square).regions(),
        final(square).all().take(old(square).all().len() as int) == old(square).all(),
        old(square).regions().len() == 0 ==> out@.len() == 0 && final(square).all() == old(square).all(),
        old(square).regions().len() > 0 ==> final(square).all().len() == old(square).all().len() + seeding.voices,
        forall|k: int| 0 <= k < out@.len() ==> old(square).all().len() <= (#[trigger] out@[k]).voice.0 < final(square).all().len(),
        forall|j: int| old(square).all().len() <= j < final(square).all().len() ==> {
            &&& (#[trigger] final(square).all()[j]).name@ == seeded_name((j - old(square).all().len()) as nat)
            &&& final(square).all()[j].spoken_at@ == spoken_by(out@, VoiceId(j as u32))
        },
        old(square).regions().len() > 0 && all_inhabited(old(square).regions()) ==> out@.len() == seeding.voices * seeding.posts_each,
        all_inhabited(old(square).regions()) ==> exists|rs: Seq<int>| #[trigger] walks(city, old(square).regions(), out@, rs),
        spoken_within(old(square).regions(), out@),
        out@ == seeded_walk(city, old(square).regions(), old(square).all().len(), seeding.voices as nat, seeding.posts_each as nat, from),
{
    let mut rng = SeededRng::new(from);
    let ghost total = seeded_walk(city, square.regions(), square.all().len(), seeding.voices as nat, seeding.posts_each as nat, from);
    let ghost mls = square.regions().map_values(|g: Subgroup| g.members@);
    let ghost groups = square.regions();
    let ghost n0 = square.all().len();
    let ghost old_all = square.all();
    let mut regions: Vec<Vec<Position>> = Vec::new();
    let mut g: usize = 0;
    while g < square.subgroups().len()
        invariant
            groups == square.regions(),
            g <= groups.len(),
            regions@.len() == g,
            forall|r: int| 0 <= r < g ==> (#[trigger] regions@[r])@ == groups[r].members@,
        decreases groups.len() - g,
    {
        regions.push(square.subgroups()[g].members.clone());
        g += 1;
    }
    let mut out: Vec<Utterance> = Vec::new();
    if regions.len() == 0 {
        proof {
            assert(square.all().take(n0 as int) =~= square.all());
            assert(walks(city, groups, out@, Seq::<int>::empty()));
        }
        return out;
    }
    proof {
        assert(member_lists(regions@) =~= mls);
    }
    let near = adjacency(city, &regions);
    let ghost mut rs: Seq<int> = Seq::empty();
    let ghost inhabited = all_inhabited(groups);
    let mut i: usize = 0;
    while i < seeding.voices
        invariant
            groups == square.regions(),
            n0 == old_all.len(),
            n0 + seeding.voices < u32::MAX,
            regions@.len() == groups.len() > 0,
            forall|r: int| 0 <= r < groups.len() ==> (#[trigger] regions@[r])@ == groups[r].members@,
            near@.len() == regions@.len(),
            forall|a: int, j: usize| 0 <= a < near@.len() ==> (#[trigger] near@[a]@.contains(j) <==> (j < regions@.len() && j != a && touch(city, regions@[a]@.to_set(), regions@[j as int]@.to_set()))),
            forall|a: int| 0 <= a < near@.len() ==> (#[trigger] near@[a])@ == neighbours(city, mls, a, mls.len() as int),
            mls == groups.map_values(|g: Subgroup| g.members@),
            total == seeded_walk(city, groups, n0, seeding.voices as nat, seeding.posts_each as nat, from),
            total == voices_rest(city, mls, n0, seeding.voices as nat, seeding.posts_each as nat, rng@, i as nat, out@),
            inhabited == all_inhabited(groups),
            i <= seeding.voices,
            square.all().len() == n0 + i,
            square.all().take(n0 as int) == old_all,
            forall|k: int| 0 <= k < out@.len() ==> n0 <= (#[trigger] out@[k]).voice.0 < n0 + i,
            forall|j: int| n0 <= j < n0 + i ==> {
                &&& (#[trigger] square.all()[j]).name@ == seeded_name((j - n0) as nat)
                &&& square.all()[j].spoken_at@ == spoken_by(out@, VoiceId(j as u32))
            },
            rs.len() == out@.len(),
            forall|k: int| 0 <= k < out@.len() ==> 0 <= #[trigger] rs[k] < groups.len() && groups[rs[k]].positions().contains(out@[k].terminus),
            inhabited ==> forall|k: int| 0 <= k < out@.len() - 1 && (#[trigger] out@[k]).voice == out@[k + 1].voice ==> (rs[k] == rs[k + 1] || touch(city, groups[rs[k]].positions(), groups[rs[k + 1]].positions())),
            inhabited ==> out@.len() == i * seeding.posts_each,
        decreases seeding.voices - i,
    {
        let mut name = String::from_str("voice-");
        push_decimal(&mut name, i as u64);
        let id = square.add_voice(name);
        proof {
            lemma_spoken_by_absent(out@, id);
        }
        let ghost sv = rng@;
        let mut at = rng.random_below(regions.len());
        proof {
            assert(mls.len() == regions@.len());
        }
        let ghost start = out@.len();
        let mut post: usize = 0;
        while post < seeding.posts_each
            invariant
                groups == square.regions(),
                n0 == old_all.len(),
                regions@.len() == groups.len() > 0,
                forall|r: int| 0 <= r < groups.len() ==> (#[trigger] regions@[r])@ == groups[r].members@,
                near@.len() == regions@.len(),
                forall|a: int, j: usize| 0 <= a < near@.len() ==> (#[trigger] near@[a]@.contains(j) <==> (j < regions@.len() && j != a && touch(city, regions@[a]@.to_set(), regions@[j as int]@.to_set()))),
                forall|a: int| 0 <= a < near@.len() ==> (#[trigger] near@[a])@ == neighbours(city, mls, a, mls.len() as int),
                mls == groups.map_values(|g: Subgroup| g.members@),
                total == seeded_walk(city, groups, n0, seeding.voices as nat, seeding.posts_each as nat, from),
                total == posts_rest(city, mls, n0, seeding.voices as nat, seeding.posts_each as nat, rng@, i as nat, post as nat, at as int, out@),
                inhabited == all_inhabited(groups),
                i < seeding.voices,
                n0 + seeding.voices < u32::MAX,
                id == VoiceId((n0 + i) as u32),
                at < regions@.len(),
                post <= seeding.posts_each,
                square.all().len() == n0 + i + 1,
                square.all().take(n0 as int) == old_all,
                start <= out@.len(),
                forall|k: int| 0 <= k < out@.len() ==> n0 <= (#[trigger] out@[k]).voice.0 <= n0 + i,
                forall|k: int| start <= k < out@.len() ==> (#[trigger] out@[k]).voice == id,
                forall|j: int| n0 <= j <= n0 + i ==> {
                    &&& (#[trigger] square.all()[j]).name@ == seeded_name((j - n0) as nat)
                    &&& square.all()[j].spoken_at@ == spoken_by(out@, VoiceId(j as u32))
                },
                rs.len() == out@.len(),
                forall|k: int| 0 <= k < out@.len() ==> 0 <= #[trigger] rs[k] < groups.len() && groups[rs[k]].positions().contains(out@[k].terminus),
                inhabited ==> forall|k: int| 0 <= k < out@.len() - 1 && (#[trigger] out@[k]).voice == out@[k + 1].voice ==> (rs[k] == rs[k + 1] || touch(city, groups[rs[k]].positions(), groups[rs[k + 1]].positions())),
                inhabited ==> out@.len() == start + post,
                inhabited && out@.len() > start ==> rs.last() == at,
                inhabited ==> start == i * seeding.posts_each,
                start > 0 ==> out@[start - 1].voice != id,
            decreases seeding.posts_each - post,
        {
            let ghost at0 = at;
            let ghost sp = rng@;
            let ghost pre = out@;
            proof {
                assert(near@[at as int]@ == neighbours(city, mls, at as int, mls.len() as int));
            }
            if post > 0 && near[at].len() > 0 && rng.coin() {
                let step = rng.random_below(near[at].len());
                at = near[at][step];
                proof {
                    assert(near@[at0 as int]@.contains(at));
                }
            }
            let ghost sm = rng@;
            let choices = sorted_positions(regions[at].as_slice());
            proof {
                assert(mls[at as int] == regions@[at as int]@);
                assert(increasing(choices@) && choices@.to_set() == mls[at as int].to_set());
                let r = in_increasing_order(mls[at as int]);
                crate::closure::lemma_increasing_unique(r, choices@);
            }
            if choices.len() > 0 {
                let pick = rng.random_below(choices.len());
                let terminus = choices[pick];
                proof {
                    assert(choices@.to_set().contains(terminus));
                    assert(groups[at as int].positions().contains(terminus));
                }
                let ghost before = out@;
                let ghost sq_before = square.all();
                square.note(id, terminus);
                out.push(Utterance { voice: id, terminus });
                proof {
                    rs = rs.push(at as int);
                    assert(out@.drop_last() =~= before);
                    assert forall|j: int| n0 <= j <= n0 + i implies {
                        &&& (#[trigger] square.all()[j]).name@ == seeded_name((j - n0) as nat)
                        &&& square.all()[j].spoken_at@ == spoken_by(out@, VoiceId(j as u32))
                    } by {
                        assert(square.all()[j].name == sq_before[j].name);
                        if j != n0 + i {
                            assert(VoiceId(j as u32) != id);
                            assert(square.all()[j] == sq_before[j]);
                            assert(spoken_by(out@, VoiceId(j as u32)) == spoken_by(before, VoiceId(j as u32)));
                        } else {
                            assert(spoken_by(out@, id) == spoken_by(before, id).push(terminus));
                        }
                    }
                    assert(square.all().take(n0 as int) =~= old_all);
                    if inhabited {
                        assert forall|k: int| 0 <= k < out@.len() - 1 && (#[trigger] out@[k]).voice == out@[k + 1].voice implies (rs[k] == rs[k + 1] || touch(city, groups[rs[k]].positions(), groups[rs[k + 1]].positions())) by {
                            if k == out@.len() - 2 {
                                assert(out@[k + 1].voice == id);
                                assert(k >= start);
                                if at0 != at {
                                    assert(touch(city, regions@[at0 as int]@.to_set(), regions@[at as int]@.to_set()));
                                }
                            }
                        }
                    }
                }
            } else {
                proof {
                    assert(groups[at as int].members@.len() == 0) by {
                        assert(regions@[at as int]@.to_set() =~= Set::<Position>::empty()) by {
                            assert forall|x: Position| !regions@[at as int]@.to_set().contains(x) by {
                                if regions@[at as int]@.to_set().contains(x) {
                                    assert(choices@.to_set().contains(x));
                                    let t = choose|t: int| 0 <= t < choices@.len() && choices@[t] == x;
                                }
                            }
                        }
                        if regions@[at as int]@.len() > 0 {
                            assert(regions@[at as int]@.to_set().contains(regions@[at as int]@[0]));
                        }
                    }
                }
            }
            post += 1;
        }
        i += 1;
        proof {
            if inhabited {
                assert(out@.len() == i * seeding.posts_each) by (nonlinear_arith)
                    requires
                        out@.len() == start + seeding.posts_each,
                        start == (i - 1) * seeding.posts_each;
            }
        }
    }
    proof {
        if inhabited {
            assert(walks(city, groups, out@, rs));
        }
        assert(groups == old(square).regions());
        assert forall|k: int| 0 <= k < out@.len() implies exists|r: int| 0 <= r < groups.len() && (#[trigger] groups[r]).positions().contains((#[trigger] out@[k]).terminus) by {
            let r = rs[k];
            assert(groups[r].positions().contains(out@[k].terminus));
        }
        assert(spoken_within(groups, out@));
    }
    out
}

} // verus!
