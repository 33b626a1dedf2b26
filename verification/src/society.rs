//! Generating a society rather than describing one.
//!
//! A society is a contact graph over positions `0..order` and a handful of
//! regions laid out along it, drawn afresh from a seed. Three properties make
//! it a society rather than noise: every region is a contiguous span, joined
//! along its length, so it is connected; neighbouring regions overlap; and
//! contacts across a region boundary carry the weaker weight, so the
//! cheapest cut falls where regions meet.
//!
//! Names are drawn from two word lists and mean nothing; what a region
//! affords is the only structured fact about it.

use vstd::prelude::*;
use crate::graph::{ContactGraph, Position, key};
use crate::rng::{Draw, SeededRng, after, drawn_between, drawn_in, shuffled, shuffle_words};
use crate::text::{decimal, push_decimal};
use crate::voice::{Square, Subgroup, Utterance};

verus! {

broadcast use vstd::seq_lib::group_seq_properties;

/// What a region affords, for the one purpose that needs to know: which
/// regions the weather reaches.
#[derive(Debug, Clone, Copy, PartialEq, Eq, Structural, PartialOrd, Ord, Hash)]
pub enum Affordance {
    /// On or beside water.
    Water,
    /// Outdoors and exposed.
    Open,
    /// Routes between places.
    Transit,
    /// Under a roof. Never reached by weather.
    Indoors,
}

/// One region: a name, a half-open span of positions, and what it affords.
#[derive(Debug)]
pub struct Region {
    /// Drawn handle. Display only.
    pub name: String,
    /// Contiguous span in the generated graph, half-open.
    pub span: (Position, Position),
    /// What this region is like.
    pub affords: Affordance,
}

impl Clone for Region {
    fn clone(&self) -> (r: Self)
        ensures
            r.name@ == self.name@,
            r.span == self.span,
            r.affords == self.affords,
    {
        Region { name: self.name.clone(), span: self.span, affords: self.affords }
    }
}

/// A generated society: a graph, and its regions in generation order.
#[derive(Debug)]
pub struct Society<W> {
    /// The shared graph every character is cut from.
    pub graph: ContactGraph<W>,
    /// The regions, in generation order, never re-sorted.
    pub regions: Vec<Region>,
}

/// The fewest regions a society has.
pub const REGIONS_MIN: u32 = 5;
/// The most regions a society has.
pub const REGIONS_MAX: u32 = 9;
/// The shortest span a region has, before overlap.
pub const SPAN_MIN: u32 = 4;
/// The longest span a region has, before overlap.
pub const SPAN_MAX: u32 = 8;
/// The least a region overlaps its predecessor.
pub const OVERLAP_MIN: u32 = 1;
/// The most a region overlaps its predecessor.
pub const OVERLAP_MAX: u32 = 3;

/// Terrain words: half of a region name.
pub open spec fn terrain() -> Seq<&'static str> {
    seq![
        "harbour", "quarry", "moor", "terrace", "delta", "ridge", "hollow", "foundry", "orchard",
        "viaduct", "saltmarsh", "escarpment", "weir", "commons", "arcade", "cistern",
    ]
}

/// Activity words: the other half.
pub open spec fn doing() -> Seq<&'static str> {
    seq![
        "freight", "cycling", "rowing", "glassworks", "haulage", "climbing", "printing",
        "ferrying", "quarrying", "netting", "dredging", "milling", "surveying", "brewing",
        "salvage", "signalling",
    ]
}

fn terrain_words() -> (ws: Vec<&'static str>)
    ensures
        ws@ == terrain(),
{
    let ws = vec![
        "harbour", "quarry", "moor", "terrace", "delta", "ridge", "hollow", "foundry", "orchard",
        "viaduct", "saltmarsh", "escarpment", "weir", "commons", "arcade", "cistern",
    ];
    assert(ws@ =~= terrain());
    ws
}

fn doing_words() -> (ws: Vec<&'static str>)
    ensures
        ws@ == doing(),
{
    let ws = vec![
        "freight", "cycling", "rowing", "glassworks", "haulage", "climbing", "printing",
        "ferrying", "quarrying", "netting", "dredging", "milling", "surveying", "brewing",
        "salvage", "signalling",
    ];
    assert(ws@ =~= doing());
    ws
}

/// Whether `spans` is a layout a society can have: between five and nine
/// spans, the first starting at zero, each four to eight positions long,
/// and each starting one to three positions before its predecessor ends.
pub open spec fn laid_out(spans: Seq<(Position, Position)>) -> bool {
    &&& REGIONS_MIN <= spans.len() <= REGIONS_MAX
    &&& spans[0].0 == 0
    &&& forall|i: int| 0 <= i < spans.len() ==> SPAN_MIN <= (#[trigger] spans[i]).1 - spans[i].0 <= SPAN_MAX
    &&& forall|i: int| 1 <= i < spans.len() ==> spans[i - 1].1 - OVERLAP_MAX <= (#[trigger] spans[i]).0 <= spans[i - 1].1 - OVERLAP_MIN
}

/// The spans of `regions`.
pub open spec fn spans_of(regions: Seq<Region>) -> Seq<(Position, Position)> {
    regions.map_values(|r: Region| r.span)
}

/// Whether some region starts at `p`.
pub open spec fn is_start(regions: Seq<Region>, p: Position) -> bool {
    exists|i: int| 0 <= i < regions.len() && (#[trigger] regions[i]).span.0 == p
}

/// The contact between `u` and the next position.
pub open spec fn link(u: Position) -> (Position, Position) {
    (u, (u + 1) as Position)
}

/// Whether `g` is a weave of `regions` over `order` positions: every
/// consecutive pair is joined, at `across` where a region starts and at
/// `inside` elsewhere, and every other contact is a chord of weight
/// `inside` spanning at least two steps within a single region.
pub open spec fn woven<W>(g: ContactGraph<W>, order: u32, regions: Seq<Region>, inside: W, across: W) -> bool {
    &&& g.order_of() == order
    &&& forall|u: Position| u + 1 < order ==> {
        &&& g.weights().dom().contains(#[trigger] link(u))
        &&& g.weights()[link(u)] == if is_start(regions, (u + 1) as Position) { across } else { inside }
    }
    &&& forall|k: (Position, Position)| #[trigger] g.weights().dom().contains(k) && k.1 != k.0 + 1 ==> {
        &&& k.0 + 2 <= k.1
        &&& g.weights()[k] == inside
        &&& exists|i: int| 0 <= i < regions.len() && (#[trigger] regions[i]).span.0 <= k.0 && k.1 < regions[i].span.1
    }
}

/// The spans a layout goes on to draw from a generator in state `st`,
/// having drawn `spans` so far, the last ending at `at`, until it has `n`:
/// each span's length, and for every span after the first how far back
/// from `at` it starts.
pub open spec fn spans_drawn(st: (u64, Seq<Draw>), n: u32, spans: Seq<(Position, Position)>, at: Position) -> (Seq<(Position, Position)>, (u64, Seq<Draw>))
    decreases n - spans.len(),
{
    if spans.len() >= n {
        (spans, st)
    } else {
        let len = drawn_between(st.0, st.1, SPAN_MIN, SPAN_MAX);
        let st1 = after(st, Draw::Between(SPAN_MIN, SPAN_MAX));
        let back = drawn_between(st1.0, st1.1, OVERLAP_MIN, OVERLAP_MAX);
        let lo: Position = if spans.len() == 0 { 0 } else if at >= back { (at - back) as Position } else { 0 };
        let st2 = if spans.len() == 0 { st1 } else { after(st1, Draw::Between(OVERLAP_MIN, OVERLAP_MAX)) };
        let hi = (lo + len) as Position;
        spans_drawn(st2, n, spans.push((lo, hi)), hi)
    }
}

/// The layout drawn from a generator in state `st`: how many regions, then
/// their spans; and the generator's state after.
pub open spec fn layout_from(st: (u64, Seq<Draw>)) -> (Seq<(Position, Position)>, (u64, Seq<Draw>)) {
    let n = drawn_between(st.0, st.1, REGIONS_MIN, REGIONS_MAX);
    spans_drawn(after(st, Draw::Between(REGIONS_MIN, REGIONS_MAX)), n, Seq::empty(), 0)
}

/// The affordances drawn from a generator in state `st`, having drawn
/// `affs` so far, until there are `n`; and the generator's state after.
pub open spec fn affords_drawn(st: (u64, Seq<Draw>), n: nat, affs: Seq<Affordance>) -> (Seq<Affordance>, (u64, Seq<Draw>))
    decreases n - affs.len(),
{
    if affs.len() >= n {
        (affs, st)
    } else {
        affords_drawn(after(st, Draw::In(0, 4)), n, affs.push(affordance_table(drawn_in(st.0, st.1, 0, 4))))
    }
}

/// The chords a weave goes on to draw from a generator in state `st`, from
/// span `r` on, having drawn `chords` so far: a span of width three or more
/// gets a chord one time in three, between a start and an end at least two
/// steps apart within it. Returns the chords and the generator's state after.
pub open spec fn chords_drawn(st: (u64, Seq<Draw>), spans: Seq<(Position, Position)>, r: int, chords: Seq<(Position, Position)>) -> (Seq<(Position, Position)>, (u64, Seq<Draw>))
    decreases spans.len() - r,
{
    if r < 0 || r >= spans.len() {
        (chords, st)
    } else {
        let lo = spans[r].0;
        let hi = spans[r].1;
        if hi >= lo + 3 {
            let k = drawn_in(st.0, st.1, 0, 3);
            let st1 = after(st, Draw::In(0, 3));
            if k == 0 {
                let a = drawn_in(st1.0, st1.1, lo, (hi - 2) as u32);
                let st2 = after(st1, Draw::In(lo, (hi - 2) as u32));
                let b = drawn_in(st2.0, st2.1, (a + 2) as u32, hi);
                let st3 = after(st2, Draw::In((a + 2) as u32, hi));
                chords_drawn(st3, spans, r + 1, chords.push((a, b)))
            } else {
                chords_drawn(st1, spans, r + 1, chords)
            }
        } else {
            chords_drawn(st, spans, r + 1, chords)
        }
    }
}

/// The words of `ws`, as characters.
pub open spec fn word_views(ws: Seq<&'static str>) -> Seq<Seq<char>> {
    ws.map_values(|w: &str| w@)
}

/// Whether `w` holds no dash.
pub open spec fn dashless(w: Seq<char>) -> bool {
    forall|j: int| 0 <= j < w.len() ==> w[j] != '-'
}

/// The terrain words are sixteen distinct words, none with a dash in it.
proof fn lemma_terrain_words()
    ensures
        word_views(terrain()).len() == 16,
        word_views(terrain()).no_duplicates(),
        forall|k: int| 0 <= k < 16 ==> dashless(#[trigger] word_views(terrain())[k]),
{
    reveal_strlit("harbour");
    reveal_strlit("quarry");
    reveal_strlit("moor");
    reveal_strlit("terrace");
    reveal_strlit("delta");
    reveal_strlit("ridge");
    reveal_strlit("hollow");
    reveal_strlit("foundry");
    reveal_strlit("orchard");
    reveal_strlit("viaduct");
    reveal_strlit("saltmarsh");
    reveal_strlit("escarpment");
    reveal_strlit("weir");
    reveal_strlit("commons");
    reveal_strlit("arcade");
    reveal_strlit("cistern");
    let ws = word_views(terrain());
    assert(ws.len() == 16);
    assert forall|i: int, j: int| 0 <= i < 16 && 0 <= j < 16 && i != j implies ws[i] != ws[j] by {
        assert(ws[i] == terrain()[i]@ && ws[j] == terrain()[j]@);
        assert(ws[i].len() != ws[j].len() || ws[i][0] != ws[j][0] || ws[i][1] != ws[j][1] || ws[i][2] != ws[j][2]);
    }
    assert forall|k: int| 0 <= k < 16 implies dashless(#[trigger] ws[k]) by {
        assert(ws[k] == terrain()[k]@);
    }
}

/// A word list holding the terrain words, each once, in some order.
proof fn lemma_shuffled_terrain(tw: Seq<&'static str>)
    requires
        tw.len() == 16,
        tw.to_multiset() == terrain().to_multiset(),
    ensures
        word_views(tw).len() == 16,
        word_views(tw).no_duplicates(),
        forall|k: int| 0 <= k < 16 ==> word_views(terrain()).contains(#[trigger] word_views(tw)[k]),
{
    lemma_terrain_words();
    let ws = word_views(terrain());
    let tv = word_views(tw);
    tw.to_multiset_ensures();
    terrain().to_multiset_ensures();
    assert forall|i: int, j: int| 0 <= i < 16 && 0 <= j < 16 && i != j implies terrain()[i] != terrain()[j] by {
        assert(ws[i] != ws[j]);
    }
    assert(terrain().no_duplicates());
    terrain().lemma_multiset_has_no_duplicates();
    tw.lemma_multiset_has_no_duplicates_conv();
    assert forall|k: int| 0 <= k < 16 implies ws.contains(#[trigger] tv[k]) by {
        assert(tw.contains(tw[k]));
        assert(tw.to_multiset().count(tw[k]) > 0);
        assert(terrain().to_multiset().count(tw[k]) > 0);
        assert(terrain().contains(tw[k]));
        let a = choose|a: int| 0 <= a < 16 && terrain()[a] == tw[k];
        assert(ws[a] == tv[k]);
    }
    assert forall|i: int, j: int| 0 <= i < 16 && 0 <= j < 16 && i != j implies tv[i] != tv[j] by {
        assert(tw.contains(tw[i]) && tw.contains(tw[j]));
        assert(tw.to_multiset().count(tw[i]) > 0 && tw.to_multiset().count(tw[j]) > 0);
        assert(terrain().to_multiset().count(tw[i]) > 0 && terrain().to_multiset().count(tw[j]) > 0);
        assert(terrain().contains(tw[i]) && terrain().contains(tw[j]));
        let a = choose|a: int| 0 <= a < 16 && terrain()[a] == tw[i];
        let b = choose|b: int| 0 <= b < 16 && terrain()[b] == tw[j];
        assert(ws[a] == tv[i] && ws[b] == tv[j]);
        assert(tw[i] != tw[j]);
    }
}

/// Two names joined by a dash to dashless first words agree in the first
/// word.
proof fn lemma_dash_splits(a: Seq<char>, b: Seq<char>, c: Seq<char>, d: Seq<char>)
    requires
        dashless(a),
        dashless(c),
        a + "-"@ + b == c + "-"@ + d,
    ensures
        a == c,
{
    reveal_strlit("-");
    let x = a + "-"@ + b;
    let y = c + "-"@ + d;
    assert(x[a.len() as int] == '-');
    assert(y[c.len() as int] == '-');
    if a.len() < c.len() {
        assert(y[a.len() as int] == c[a.len() as int]);
    } else if c.len() < a.len() {
        assert(x[c.len() as int] == a[c.len() as int]);
    }
    assert forall|j: int| 0 <= j < a.len() implies a[j] == c[j] by {
        assert(x[j] == a[j] && y[j] == c[j]);
    }
    assert(a =~= c);
}

/// Whether `s` is the society the seed `seed` generates with weights
/// `inside` and `across`: the layout drawn first, then the two word lists
/// shuffled, then one affordance per region, then the weave's chords, all
/// from one generator seeded with `seed`; region `i` is named by the `i`-th
/// words of the two shuffled lists.
pub open spec fn generated<W>(s: Society<W>, seed: u64, inside: W, across: W) -> bool {
    let st0 = (seed, Seq::<Draw>::empty());
    let l = layout_from(st0);
    let spans = l.0;
    let st1 = l.1;
    let tw = shuffled(st1.0, st1.1, word_views(terrain()));
    let st2 = after(st1, Draw::Shuffle(16));
    let dw = shuffled(st2.0, st2.1, word_views(doing()));
    let st3 = after(st2, Draw::Shuffle(16));
    let a = affords_drawn(st3, spans.len(), Seq::empty());
    let c = chords_drawn(a.1, spans, 0, Seq::empty());
    &&& spans_of(s.regions@) == spans
    &&& laid_out(spans)
    &&& tw.len() == 16
    &&& tw.no_duplicates()
    &&& forall|k: int| 0 <= k < 16 ==> word_views(terrain()).contains(#[trigger] tw[k])
    &&& forall|i: int| 0 <= i < s.regions@.len() ==> (#[trigger] s.regions@[i]).name@ == tw[i % 16] + "-"@ + dw[i % 16]
    &&& forall|i: int| 0 <= i < s.regions@.len() ==> (#[trigger] s.regions@[i]).affords == a.0[i]
    &&& s.graph.order_of() == spans.last().1
    &&& forall|k: (Position, Position)| #[trigger] s.graph.weights().dom().contains(k) <==> ((k.1 == k.0 + 1 && k.1 < spans.last().1) || c.0.contains(k))
    &&& forall|k: (Position, Position)| #[trigger] s.graph.weights().dom().contains(k) && k.1 == k.0 + 1 ==> k.1 < spans.last().1
    &&& woven(s.graph, spans.last().1, s.regions@, inside, across)
}

fn starts_at(regions: &Vec<Region>, p: Position) -> (b: bool)
    ensures
        b == is_start(regions@, p),
{
    let mut i: usize = 0;
    while i < regions.len()
        invariant
            i <= regions@.len(),
            forall|j: int| 0 <= j < i ==> (#[trigger] regions@[j]).span.0 != p,
        decreases regions@.len() - i,
    {
        if regions[i].span.0 == p {
            return true;
        }
        i += 1;
    }
    false
}

/// Draw the contact graph over `order` positions: a chain through every
/// consecutive pair, and at most one chord per region of width three or
/// more, drawn with probability one in three.
pub fn weave<W: Copy>(order: u32, regions: &Vec<Region>, rng: &mut SeededRng, inside: W, across: W) -> (g: ContactGraph<W>)
    ensures
        woven(g, order, regions@, inside, across),
        ({
            let d = chords_drawn(old(rng)@, spans_of(regions@), 0, Seq::empty());
            &&& final(rng)@ == d.1
            &&& forall|k: (Position, Position)| #[trigger] g.weights().dom().contains(k) <==> ((k.1 == k.0 + 1 && k.1 < order) || d.0.contains(k))
        }),
        forall|k: (Position, Position)| #[trigger] g.weights().dom().contains(k) && k.1 == k.0 + 1 ==> k.1 < order,
{
    let ghost st0 = rng@;
    let ghost sp = spans_of(regions@);
    let mut g: ContactGraph<W> = ContactGraph::new(order);
    let last = order.saturating_sub(1);
    let mut u: u32 = 0;
    while u < last
        invariant
            last == if order > 0 { order - 1 } else { 0 },
            u <= last,
            g.order_of() == order,
            forall|x: Position| x < u ==> {
                &&& g.weights().dom().contains(#[trigger] link(x))
                &&& g.weights()[link(x)] == if is_start(regions@, (x + 1) as Position) { across } else { inside }
            },
            forall|k: (Position, Position)| #[trigger] g.weights().dom().contains(k) ==> k.1 == k.0 + 1 && k.0 < u,
        decreases last - u,
    {
        let boundary = starts_at(regions, u + 1);
        let w = if boundary { across } else { inside };
        let _ = g.add_contact(u, u + 1, w);
        proof {
            assert(key(u, (u + 1) as Position) == link(u));
        }
        u += 1;
    }
    proof {
        assert forall|k: (Position, Position)| #[trigger] g.weights().dom().contains(k) <==> ((k.1 == k.0 + 1 && k.1 < order) || Seq::<(Position, Position)>::empty().contains(k)) by {
            if k.1 == k.0 + 1 && k.1 < order {
                assert(link(k.0) == k);
            }
        }
    }
    let ghost mut acc: Seq<(Position, Position)> = Seq::empty();
    let mut r: usize = 0;
    while r < regions.len()
        invariant
            r <= regions@.len(),
            sp == spans_of(regions@),
            chords_drawn(st0, sp, 0, Seq::empty()) == chords_drawn(rng@, sp, r as int, acc),
            forall|k: (Position, Position)| #[trigger] g.weights().dom().contains(k) <==> ((k.1 == k.0 + 1 && k.1 < order) || acc.contains(k)),
            forall|k: (Position, Position)| #[trigger] g.weights().dom().contains(k) && k.1 == k.0 + 1 ==> k.1 < order,
            g.order_of() == order,
            forall|x: Position| x + 1 < order ==> {
                &&& g.weights().dom().contains(#[trigger] link(x))
                &&& g.weights()[link(x)] == if is_start(regions@, (x + 1) as Position) { across } else { inside }
            },
            forall|k: (Position, Position)| #[trigger] g.weights().dom().contains(k) && k.1 != k.0 + 1 ==> {
                &&& k.0 + 2 <= k.1
                &&& g.weights()[k] == inside
                &&& exists|i: int| 0 <= i < regions@.len() && (#[trigger] regions@[i]).span.0 <= k.0 && k.1 < regions@[i].span.1
            },
        decreases regions@.len() - r,
    {
        let (lo, hi) = regions[r].span;
        proof {
            assert(sp[r as int] == (lo, hi));
        }
        if hi.saturating_sub(lo) >= 3 {
            if rng.random_in(0, 3) == 0 {
                let a = rng.random_in(lo, hi - 2);
                let b = rng.random_in(a + 2, hi);
                let ghost before = g.weights();
                let _ = g.add_contact(a, b, inside);
                proof {
                    let acc1 = acc.push((a, b));
                    assert forall|k: (Position, Position)| #[trigger] g.weights().dom().contains(k) <==> ((k.1 == k.0 + 1 && k.1 < order) || acc1.contains(k)) by {
                        if acc1.contains(k) && k != (a, b) {
                            let j = choose|j: int| 0 <= j < acc1.len() && acc1[j] == k;
                            assert(acc.contains(k)) by { assert(acc[j] == k); }
                        }
                        if acc.contains(k) {
                            let j = choose|j: int| 0 <= j < acc.len() && acc[j] == k;
                            assert(acc1[j] == k);
                        }
                        if k == (a, b) {
                            assert(acc1[acc.len() as int] == k);
                        }
                    }
                    acc = acc1;
                    assert(key(a, b) == (a, b));
                    assert forall|x: Position| x + 1 < order implies {
                        &&& g.weights().dom().contains(#[trigger] link(x))
                        &&& g.weights()[link(x)] == if is_start(regions@, (x + 1) as Position) { across } else { inside }
                    } by {
                        assert(before.dom().contains(link(x)));
                        assert(link(x) != (a, b));
                    }
                    assert forall|k: (Position, Position)| #[trigger] g.weights().dom().contains(k) && k.1 != k.0 + 1 implies {
                        &&& k.0 + 2 <= k.1
                        &&& g.weights()[k] == inside
                        &&& exists|i: int| 0 <= i < regions@.len() && (#[trigger] regions@[i]).span.0 <= k.0 && k.1 < regions@[i].span.1
                    } by {
                        if k == (a, b) {
                            assert(regions@[r as int].span == (lo, hi));
                        } else {
                            assert(before.dom().contains(k));
                        }
                    }
                }
            }
        }
        r += 1;
    }
    g
}

/// The affordance a draw `k` below four stands for: water, the open,
/// transit, then shelter.
pub open spec fn affordance_table(k: u32) -> Affordance {
    if k == 0 {
        Affordance::Water
    } else if k == 1 {
        Affordance::Open
    } else if k == 2 {
        Affordance::Transit
    } else {
        Affordance::Indoors
    }
}

/// The affordance a draw `k` below four stands for.
pub fn affordance_for(k: u32) -> (a: Affordance)
    requires
        k < 4,
    ensures
        a == affordance_table(k),
{
    if k == 0 {
        Affordance::Water
    } else if k == 1 {
        Affordance::Open
    } else if k == 2 {
        Affordance::Transit
    } else {
        Affordance::Indoors
    }
}

/// Draw an affordance: each of the four kinds with equal chance.
fn affordance(rng: &mut SeededRng) -> (a: Affordance)
    ensures
        exists|k: u32| k < 4 && a == affordance_table(k),
        a == affordance_table(drawn_in(old(rng)@.0, old(rng)@.1, 0, 4)),
        final(rng)@ == after(old(rng)@, Draw::In(0, 4)),
{
    let k = rng.random_in(0, 4);
    affordance_for(k)
}

/// Whether region `i`'s name joins a terrain word and an activity word of
/// the shuffled lists `tw` and `dw` with a hyphen.
pub open spec fn named_from(name: Seq<char>, tw: Seq<&str>, dw: Seq<&str>, i: int) -> bool {
    name == tw[i % (tw.len() as int)]@ + "-"@ + dw[i % (dw.len() as int)]@
}

/// Draw the layout of a society: the spans, in order.
fn draw_spans(rng: &mut SeededRng) -> (spans: Vec<(Position, Position)>)
    ensures
        laid_out(spans@),
        (spans@, final(rng)@) == layout_from(old(rng)@),
{
    let ghost st0 = rng@;
    let n = rng.random_between(REGIONS_MIN, REGIONS_MAX);
    let mut spans: Vec<(Position, Position)> = Vec::new();
    let mut at: u32 = 0;
    let mut i: u32 = 0;
    while i < n
        invariant
            REGIONS_MIN <= n <= REGIONS_MAX,
            i <= n,
            spans@.len() == i,
            layout_from(st0) == spans_drawn(rng@, n, spans@, at),
            at <= SPAN_MAX * i,
            i > 0 ==> at == spans@[i - 1].1,
            i > 0 ==> spans@[0].0 == 0,
            forall|j: int| 0 <= j < i ==> SPAN_MIN <= (#[trigger] spans@[j]).1 - spans@[j].0 <= SPAN_MAX,
            forall|j: int| 1 <= j < i ==> spans@[j - 1].1 - OVERLAP_MAX <= (#[trigger] spans@[j]).0 <= spans@[j - 1].1 - OVERLAP_MIN,
        decreases n - i,
    {
        let len = rng.random_between(SPAN_MIN, SPAN_MAX);
        let lo = if i == 0 {
            0
        } else {
            let back = rng.random_between(OVERLAP_MIN, OVERLAP_MAX);
            at.saturating_sub(back)
        };
        let hi = lo + len;
        spans.push((lo, hi));
        at = hi;
        i += 1;
    }
    spans
}

impl<W: Copy> Society<W> {
    /// Generate the society for `seed`, with contacts inside a region
    /// weighted `inside` and contacts across a region boundary weighted
    /// `across`.
    ///
    /// Deterministic in its arguments: the same seed reopens the same
    /// society. The draws are made in a fixed order: the number of regions,
    /// each span, the two word lists' shuffles, each region's affordance,
    /// and then the chords of the weave.
    pub fn generate(seed: u64, inside: W, across: W) -> (s: Self)
        ensures
            laid_out(spans_of(s.regions@)),
            woven(s.graph, spans_of(s.regions@).last().1, s.regions@, inside, across),
            exists|tw: Seq<&str>, dw: Seq<&str>| {
                &&& #[trigger] tw.to_multiset() == terrain().to_multiset()
                &&& #[trigger] dw.to_multiset() == doing().to_multiset()
                &&& forall|i: int| 0 <= i < s.regions@.len() ==> named_from((#[trigger] s.regions@[i]).name@, tw, dw, i)
            },
            generated(s, seed, inside, across),
    {
        let mut rng = SeededRng::new(seed);
        let ghost st0 = rng@;
        let spans = draw_spans(&mut rng);
        let ghost st1 = rng@;
        let n = spans.len();
        let order = spans[n - 1].1;
        let mut tw = terrain_words();
        let mut dw = doing_words();
        shuffle_words(&mut tw, &mut rng);
        let ghost st2 = rng@;
        shuffle_words(&mut dw, &mut rng);
        let ghost st3 = rng@;
        proof {
            tw@.to_multiset_ensures();
            dw@.to_multiset_ensures();
            terrain().to_multiset_ensures();
            doing().to_multiset_ensures();
            assert(st2 == after(st1, Draw::Shuffle(16)));
            assert(st3 == after(st2, Draw::Shuffle(16)));
            lemma_shuffled_terrain(tw@);
        }
        let ghost tv = word_views(tw@);
        let ghost dv = word_views(dw@);
        let mut regions: Vec<Region> = Vec::new();
        let mut i: usize = 0;
        while i < n
            invariant
                n == spans@.len(),
                tw@.len() == 16,
                dw@.len() == 16,
                tv == word_views(tw@),
                dv == word_views(dw@),
                i <= n,
                regions@.len() == i,
                forall|j: int| 0 <= j < i ==> (#[trigger] regions@[j]).span == spans@[j],
                forall|j: int| 0 <= j < i ==> named_from((#[trigger] regions@[j]).name@, tw@, dw@, j),
                forall|j: int| 0 <= j < i ==> (#[trigger] regions@[j]).name@ == tv[j % 16] + "-"@ + dv[j % 16],
                affords_drawn(st3, n as nat, Seq::empty()) == affords_drawn(rng@, n as nat, regions@.map_values(|r: Region| r.affords)),
            decreases n - i,
        {
            let mut name = String::from_str(tw[i % tw.len()]);
            name.append("-");
            name.append(dw[i % dw.len()]);
            let ghost before = regions@;
            let ghost sb = rng@;
            let affords = affordance(&mut rng);
            regions.push(Region { name, span: spans[i], affords });
            proof {
                assert(regions@.map_values(|r: Region| r.affords) =~= before.map_values(|r: Region| r.affords).push(affords));
                assert(tv[(i % 16) as int] == tw@[(i % 16) as int]@);
                assert(dv[(i % 16) as int] == dw@[(i % 16) as int]@);
            }
            i += 1;
        }
        assert(spans_of(regions@) =~= spans@);
        let ghost affs = regions@.map_values(|r: Region| r.affords);
        let ghost st4 = rng@;
        proof {
            assert(affords_drawn(st3, n as nat, Seq::empty()) == (affs, st4));
        }
        let graph = weave(order, &regions, &mut rng, inside, across);
        proof {
            assert(spans_of(regions@).last() == spans@[n - 1]);
            assert forall|j: int| 0 <= j < regions@.len() implies (#[trigger] regions@[j]).affords == affs[j] by {}
        }
        Society { graph, regions }
    }
}

/// The regions of a generated society have distinct names: the terrain
/// words are shuffled without repeats, a society has at most nine regions,
/// and no terrain word holds the dash that joins a name's two words.
pub proof fn a_generated_society_names_its_regions_apart<W>(s: Society<W>, seed: u64, inside: W, across: W)
    requires
        generated(s, seed, inside, across),
    ensures
        forall|i: int, j: int| 0 <= i < s.regions@.len() && 0 <= j < s.regions@.len() && i != j
            ==> (#[trigger] s.regions@[i]).name@ != (#[trigger] s.regions@[j]).name@,
{
    lemma_terrain_words();
    let st1 = layout_from((seed, Seq::<Draw>::empty())).1;
    let tw = shuffled(st1.0, st1.1, word_views(terrain()));
    let st2 = after(st1, Draw::Shuffle(16));
    let dw = shuffled(st2.0, st2.1, word_views(doing()));
    let ws = word_views(terrain());
    assert(s.regions@.len() == spans_of(s.regions@).len());
    assert forall|i: int, j: int| 0 <= i < s.regions@.len() && 0 <= j < s.regions@.len() && i != j
        implies (#[trigger] s.regions@[i]).name@ != (#[trigger] s.regions@[j]).name@ by {
        assert(i % 16 == i && j % 16 == j);
        assert(ws.contains(tw[i]) && ws.contains(tw[j]));
        let a = choose|a: int| 0 <= a < ws.len() && ws[a] == tw[i];
        let b = choose|b: int| 0 <= b < ws.len() && ws[b] == tw[j];
        assert(dashless(ws[a]) && dashless(ws[b]));
        if s.regions@[i].name@ == s.regions@[j].name@ {
            lemma_dash_splits(tw[i], dw[i], tw[j], dw[j]);
        }
    }
}

/// Restating the seed reopens the same world: two societies generated from
/// the same seed, with the same weights, have the same regions (spans,
/// names and affordances, in order) and the same graph, contact for contact
/// and weight for weight.
pub proof fn the_same_seed_generates_the_same_society<W>(a: Society<W>, b: Society<W>, seed: u64, inside: W, across: W)
    requires
        generated(a, seed, inside, across),
        generated(b, seed, inside, across),
    ensures
        a.regions@.len() == b.regions@.len(),
        forall|i: int| 0 <= i < a.regions@.len() ==> {
            &&& (#[trigger] a.regions@[i]).span == b.regions@[i].span
            &&& a.regions@[i].name@ == b.regions@[i].name@
            &&& a.regions@[i].affords == b.regions@[i].affords
        },
        a.graph.order_of() == b.graph.order_of(),
        a.graph.weights() == b.graph.weights(),
{
    let sa = spans_of(a.regions@);
    let sb = spans_of(b.regions@);
    assert(sa == sb);
    assert(a.regions@.len() == sa.len() && b.regions@.len() == sb.len());
    assert forall|i: int| 0 <= i < a.regions@.len() implies {
        &&& (#[trigger] a.regions@[i]).span == b.regions@[i].span
        &&& a.regions@[i].name@ == b.regions@[i].name@
        &&& a.regions@[i].affords == b.regions@[i].affords
    } by {
        assert(sa[i] == a.regions@[i].span && sb[i] == b.regions@[i].span);
    }
    let order = a.graph.order_of();
    assert forall|p: Position| is_start(a.regions@, p) == is_start(b.regions@, p) by {
        if is_start(a.regions@, p) {
            let i = choose|i: int| 0 <= i < a.regions@.len() && (#[trigger] a.regions@[i]).span.0 == p;
            assert(b.regions@[i].span.0 == p);
        }
        if is_start(b.regions@, p) {
            let i = choose|i: int| 0 <= i < b.regions@.len() && (#[trigger] b.regions@[i]).span.0 == p;
            assert(a.regions@[i].span.0 == p);
        }
    }
    assert(a.graph.weights() =~= b.graph.weights()) by {
        assert forall|k: (Position, Position)| #[trigger] a.graph.weights().dom().contains(k) <==> b.graph.weights().dom().contains(k) by {}
        assert forall|k: (Position, Position)| #[trigger] a.graph.weights().dom().contains(k) implies a.graph.weights()[k] == b.graph.weights()[k] by {
            if k.1 == k.0 + 1 {
                assert(link(k.0) == k);
                if k.1 < order {
                } else {
                    assert(b.graph.weights().dom().contains(k));
                }
            }
        }
    }
}

/// The positions `lo..hi`, in increasing order.
pub open spec fn span_positions(lo: Position, hi: Position) -> Seq<Position> {
    Seq::new(if lo < hi { (hi - lo) as nat } else { 0 }, |k: int| (lo + k) as Position)
}

fn positions_between(lo: Position, hi: Position) -> (ps: Vec<Position>)
    ensures
        ps@ == span_positions(lo, hi),
{
    let mut ps: Vec<Position> = Vec::new();
    if hi <= lo {
        assert(ps@ =~= span_positions(lo, hi));
        return ps;
    }
    let mut p = lo;
    while p < hi
        invariant
            lo <= p <= hi,
            ps@ == span_positions(lo, p),
        decreases hi - p,
    {
        ps.push(p);
        p += 1;
        assert(ps@ =~= span_positions(lo, p));
    }
    assert(ps@ =~= span_positions(lo, hi));
    ps
}

impl<W> Society<W> {
    /// The regions as the runtime sees them: a name and its positions. The
    /// affordance does not cross this boundary.
    pub fn subgroups(&self) -> (gs: Vec<Subgroup>)
        ensures
            gs@.len() == self.regions@.len(),
            forall|i: int| 0 <= i < gs@.len() ==> {
                &&& (#[trigger] gs@[i]).name@ == self.regions@[i].name@
                &&& gs@[i].members@ == span_positions(self.regions@[i].span.0, self.regions@[i].span.1)
            },
    {
        let mut gs: Vec<Subgroup> = Vec::new();
        let mut i: usize = 0;
        while i < self.regions.len()
            invariant
                i <= self.regions@.len(),
                gs@.len() == i,
                forall|j: int| 0 <= j < i ==> {
                    &&& (#[trigger] gs@[j]).name@ == self.regions@[j].name@
                    &&& gs@[j].members@ == span_positions(self.regions@[j].span.0, self.regions@[j].span.1)
                },
            decreases self.regions@.len() - i,
        {
            let r = &self.regions[i];
            gs.push(Subgroup { name: r.name.clone(), members: positions_between(r.span.0, r.span.1) });
            i += 1;
        }
        gs
    }

    /// What the first region called `name` affords; `None` if no region is
    /// called that.
    pub fn affordance_of(&self, name: &str) -> (a: Option<Affordance>)
        ensures
            match a {
                Some(x) => exists|i: int| 0 <= i < self.regions@.len() && (#[trigger] self.regions@[i]).name@ == name@
                    && self.regions@[i].affords == x
                    && forall|j: int| 0 <= j < i ==> (#[trigger] self.regions@[j]).name@ != name@,
                None => forall|i: int| 0 <= i < self.regions@.len() ==> (#[trigger] self.regions@[i]).name@ != name@,
            },
    {
        let mut i: usize = 0;
        while i < self.regions.len()
            invariant
                i <= self.regions@.len(),
                forall|j: int| 0 <= j < i ==> (#[trigger] self.regions@[j]).name@ != name@,
            decreases self.regions@.len() - i,
        {
            if crate::text::same_text(self.regions[i].name.as_str(), name) {
                return Some(self.regions[i].affords);
            }
            i += 1;
        }
        None
    }

    /// Positions in the graph.
    pub fn order(&self) -> (n: u32)
        ensures
            n == self.graph.order_of(),
    {
        self.graph.order()
    }
}

/// Neighbouring regions of a layout overlap: the first position of each
/// region after the first also lies in the region before it.
pub proof fn neighbouring_regions_overlap(spans: Seq<(Position, Position)>)
    requires
        laid_out(spans),
    ensures
        forall|i: int| 1 <= i < spans.len() ==> {
            &&& spans[i - 1].0 <= (#[trigger] spans[i]).0 < spans[i - 1].1
            &&& spans[i].0 < spans[i].1
        },
{
    assert forall|i: int| 1 <= i < spans.len() implies {
        &&& spans[i - 1].0 <= (#[trigger] spans[i]).0 < spans[i - 1].1
        &&& spans[i].0 < spans[i].1
    } by {
        assert(SPAN_MIN <= spans[i - 1].1 - spans[i - 1].0);
        assert(SPAN_MIN <= spans[i].1 - spans[i].0);
    }
}

/// Whether `p` lies in one of `spans`.
pub open spec fn in_some_span(spans: Seq<(Position, Position)>, p: Position) -> bool {
    exists|i: int| 0 <= i < spans.len() && (#[trigger] spans[i]).0 <= p < spans[i].1
}

/// The regions of a layout cover the positions `0..order` and nothing
/// beyond them, where `order` is where the last region ends.
pub proof fn regions_cover_the_graph(spans: Seq<(Position, Position)>)
    requires
        laid_out(spans),
    ensures
        forall|p: Position| p < spans.last().1 ==> #[trigger] in_some_span(spans, p),
        forall|p: Position| #[trigger] in_some_span(spans, p) ==> p < spans.last().1,
{
    let n = spans.len() as int;
    assert forall|i: int, j: int| 0 <= i <= j < n implies (#[trigger] spans[i]).1 <= (#[trigger] spans[j]).1 by {
        lemma_ends_grow(spans, i, j);
    }
    assert forall|p: Position| p < spans.last().1 implies #[trigger] in_some_span(spans, p) by {
        lemma_covered(spans, p, n - 1);
    }
    assert forall|p: Position| #[trigger] in_some_span(spans, p) implies p < spans.last().1 by {
        let i = choose|i: int| 0 <= i < spans.len() && (#[trigger] spans[i]).0 <= p < spans[i].1;
        lemma_ends_grow(spans, i, n - 1);
    }
}

proof fn lemma_ends_grow(spans: Seq<(Position, Position)>, i: int, j: int)
    requires
        laid_out(spans),
        0 <= i <= j < spans.len(),
    ensures
        spans[i].1 <= spans[j].1,
    decreases j - i,
{
    if i < j {
        lemma_ends_grow(spans, i, j - 1);
        assert(spans[j - 1].1 - OVERLAP_MAX <= spans[j].0);
        assert(SPAN_MIN <= spans[j].1 - spans[j].0);
    }
}

proof fn lemma_covered(spans: Seq<(Position, Position)>, p: Position, j: int)
    requires
        laid_out(spans),
        0 <= j < spans.len(),
        p < spans[j].1,
    ensures
        exists|i: int| 0 <= i <= j && (#[trigger] spans[i]).0 <= p < spans[i].1,
    decreases j,
{
    if p >= spans[j].0 {
        assert(spans[j].0 <= p < spans[j].1);
    } else {
        assert(j > 0) by {
            if j == 0 { assert(spans[0].0 == 0); }
        }
        assert(spans[j].0 <= spans[j - 1].1 - OVERLAP_MIN);
        lemma_covered(spans, p, j - 1);
    }
}

/// The label of the first region of `regions` from `i` on that contains
/// `t`, or `the square` if none does.
pub open spec fn region_label(regions: Seq<Subgroup>, t: Position, i: int) -> Seq<char>
    decreases regions.len() - i,
{
    if i < 0 || i >= regions.len() {
        "the square"@
    } else if regions[i].positions().contains(t) {
        regions[i].name@
    } else {
        region_label(regions, t, i + 1)
    }
}

/// What a seeded utterance says: a template naming the region and the
/// voice. Nothing reads it.
pub open spec fn utterance_text(regions: Seq<Subgroup>, u: Utterance) -> Seq<char> {
    "["@ + region_label(regions, u.terminus, 0) + "] voice "@ + decimal(u.voice.0 as nat) + " speaking at "@ + decimal(u.terminus as nat)
}

fn first_containing(gs: &[Subgroup], t: Position) -> (r: Option<usize>)
    ensures
        match r {
            Some(k) => k < gs@.len() && region_label(gs@, t, 0) == gs@[k as int].name@,
            None => region_label(gs@, t, 0) == "the square"@,
        },
{
    let mut i: usize = 0;
    while i < gs.len()
        invariant
            i <= gs@.len(),
            region_label(gs@, t, 0) == region_label(gs@, t, i as int),
        decreases gs@.len() - i,
    {
        if gs[i].contains(t) {
            return Some(i);
        }
        i += 1;
    }
    None
}

/// What a seeded utterance says: `[region] voice N speaking at P`, where
/// the region is the first of the square's regions containing the
/// utterance's terminus.
pub fn utterance_body(square: &Square, u: &Utterance) -> (s: String)
    ensures
        s@ == utterance_text(square.regions(), *u),
{
    let gs = square.subgroups();
    let found = first_containing(gs, u.terminus);
    let mut s = String::from_str("[");
    match found {
        Some(k) => {
            s.append(gs[k].name.as_str());
        },
        None => {
            s.append("the square");
        },
    }
    s.append("] voice ");
    push_decimal(&mut s, u.voice.0 as u64);
    s.append(" speaking at ");
    push_decimal(&mut s, u.terminus as u64);
    s
}

} // verus!
