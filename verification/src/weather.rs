//! What a weather observation is a consideration for.
//!
//! The reading itself is display; its whole mechanical content is which
//! affordances it considers, and therefore which regions of a society it
//! reaches. The thresholds on the reading are the caller's: this module
//! takes which conditions held and applies the table.

use vstd::prelude::*;
use crate::graph::Position;
use crate::moderator::Moderator;
use crate::society::{Affordance, Region, Society};
use crate::text::same_text;
use crate::voice::{Square, Subgroup};
use crate::forum::{Forum, PostId, Speaker, at};
use crate::identity::Record;
use crate::node::{Runtime, after_emissions, ascending};
use vstd::string::StringSliceAdditionalSpecFns;

verus! {

broadcast use vstd::seq_lib::group_seq_properties;

/// `s` with `a` adjoined, unless it is already there.
pub open spec fn adjoin(s: Seq<Affordance>, a: Affordance) -> Seq<Affordance> {
    if s.contains(a) {
        s
    } else {
        s.push(a)
    }
}

/// The table, in order: wind considers water; precipitation considers
/// transit; a harsh temperature considers the open and transit; fog and
/// worse (a weather code of 45 or more) considers water and transit.
pub open spec fn table(windy: bool, wet: bool, harsh: bool, code: u32) -> Seq<Affordance> {
    let s0 = Seq::<Affordance>::empty();
    let s1 = if windy { adjoin(s0, Affordance::Water) } else { s0 };
    let s2 = if wet { adjoin(s1, Affordance::Transit) } else { s1 };
    let s3 = if harsh { adjoin(adjoin(s2, Affordance::Open), Affordance::Transit) } else { s2 };
    if code >= 45 { adjoin(adjoin(s3, Affordance::Water), Affordance::Transit) } else { s3 }
}

fn adjoin_exec(s: &mut Vec<Affordance>, a: Affordance)
    ensures
        final(s)@ == adjoin(old(s)@, a),
{
    let mut i: usize = 0;
    while i < s.len()
        invariant
            i <= s@.len(),
            forall|j: int| 0 <= j < i ==> s@[j] != a,
        decreases s@.len() - i,
    {
        if s[i] == a {
            assert(s@.contains(a));
            return;
        }
        i += 1;
    }
    s.push(a);
}

/// What an observation is a consideration for, given which of its
/// conditions held: `windy` (wind of 15 km/h or more), `wet` (any
/// precipitation), `harsh` (a temperature at or below 0 °C or at or above
/// 25 °C), and its weather code. Each affordance appears once; a roof is
/// never among them.
pub fn considers(windy: bool, wet: bool, harsh: bool, code: u32) -> (r: Vec<Affordance>)
    ensures
        r@ == table(windy, wet, harsh, code),
        !r@.contains(Affordance::Indoors),
        r@.no_duplicates(),
        r@.contains(Affordance::Water) <==> (windy || code >= 45),
        r@.contains(Affordance::Transit) <==> (wet || harsh || code >= 45),
        r@.contains(Affordance::Open) <==> harsh,
{
    let mut r: Vec<Affordance> = Vec::new();
    if windy {
        adjoin_exec(&mut r, Affordance::Water);
    }
    if wet {
        adjoin_exec(&mut r, Affordance::Transit);
    }
    if harsh {
        adjoin_exec(&mut r, Affordance::Open);
        adjoin_exec(&mut r, Affordance::Transit);
    }
    if code >= 45 {
        adjoin_exec(&mut r, Affordance::Water);
        adjoin_exec(&mut r, Affordance::Transit);
    }
    proof {
        assert(r@.no_duplicates()) by {
            assert forall|i: int, j: int| 0 <= i < r@.len() && 0 <= j < r@.len() && i != j implies r@[i] != r@[j] by {
                lemma_table_distinct(windy, wet, harsh, code);
            }
        }
        the_weather_considers_what_its_table_names(windy, wet, harsh, code);
    }
    r
}

proof fn lemma_adjoin_keeps(s: Seq<Affordance>, a: Affordance)
    requires
        s.no_duplicates(),
    ensures
        adjoin(s, a).no_duplicates(),
        adjoin(s, a).contains(a),
        forall|b: Affordance| #[trigger] adjoin(s, a).contains(b) <==> (s.contains(b) || b == a),
{
    if !s.contains(a) {
        let t = s.push(a);
        assert(t.no_duplicates()) by {
            assert forall|i: int, j: int| 0 <= i < t.len() && 0 <= j < t.len() && i != j implies t[i] != t[j] by {
                if i == s.len() {
                    assert(s.contains(s[j]));
                } else if j == s.len() {
                    assert(s.contains(s[i]));
                }
            }
        }
        assert(t[s.len() as int] == a);
        assert forall|b: Affordance| #[trigger] t.contains(b) implies (s.contains(b) || b == a) by {
            let k = choose|k: int| 0 <= k < t.len() && t[k] == b;
            if k < s.len() {
                assert(s[k] == b);
            }
        }
        assert forall|b: Affordance| s.contains(b) implies #[trigger] t.contains(b) by {
            let k = choose|k: int| 0 <= k < s.len() && s[k] == b;
            assert(t[k] == b);
        }
    }
}

proof fn lemma_table_distinct(windy: bool, wet: bool, harsh: bool, code: u32)
    ensures
        table(windy, wet, harsh, code).no_duplicates(),
        !table(windy, wet, harsh, code).contains(Affordance::Indoors),
{
    let s0 = Seq::<Affordance>::empty();
    assert(s0.no_duplicates());
    lemma_adjoin_keeps(s0, Affordance::Water);
    let s1 = if windy { adjoin(s0, Affordance::Water) } else { s0 };
    lemma_adjoin_keeps(s1, Affordance::Transit);
    let s2 = if wet { adjoin(s1, Affordance::Transit) } else { s1 };
    lemma_adjoin_keeps(s2, Affordance::Open);
    lemma_adjoin_keeps(adjoin(s2, Affordance::Open), Affordance::Transit);
    let s3 = if harsh { adjoin(adjoin(s2, Affordance::Open), Affordance::Transit) } else { s2 };
    lemma_adjoin_keeps(s3, Affordance::Water);
    lemma_adjoin_keeps(adjoin(s3, Affordance::Water), Affordance::Transit);
}

/// Where the table first names `a`, for observations with these
/// conditions: wind names water first, then precipitation transit, then a
/// harsh temperature the open and transit, then fog and worse water and
/// transit. An affordance no row names comes last.
pub open spec fn first_named(windy: bool, wet: bool, harsh: bool, code: u32, a: Affordance) -> int {
    match a {
        Affordance::Water => if windy { 0 } else { 4 },
        Affordance::Transit => if wet { 1 } else if harsh { 3 } else { 5 },
        Affordance::Open => 2,
        Affordance::Indoors => 6,
    }
}

/// What an observation is a consideration for, row by row: water exactly
/// when it is windy or foggy (a code of 45 or more); transit exactly when
/// it is wet, harsh or foggy; the open exactly when it is harsh; never a
/// roof. Each appears once, in the order the table first names it.
pub proof fn the_weather_considers_what_its_table_names(windy: bool, wet: bool, harsh: bool, code: u32)
    ensures
        table(windy, wet, harsh, code).contains(Affordance::Water) <==> (windy || code >= 45),
        table(windy, wet, harsh, code).contains(Affordance::Transit) <==> (wet || harsh || code >= 45),
        table(windy, wet, harsh, code).contains(Affordance::Open) <==> harsh,
        !table(windy, wet, harsh, code).contains(Affordance::Indoors),
        table(windy, wet, harsh, code).no_duplicates(),
        forall|i: int, j: int| 0 <= i < j < table(windy, wet, harsh, code).len() ==>
            first_named(windy, wet, harsh, code, #[trigger] table(windy, wet, harsh, code)[i])
                < first_named(windy, wet, harsh, code, #[trigger] table(windy, wet, harsh, code)[j]),
{
    lemma_table_distinct(windy, wet, harsh, code);
    if windy && wet && harsh && code >= 45 {
        assert(table(windy, wet, harsh, code) =~= seq![Affordance::Water, Affordance::Transit, Affordance::Open]);
    }
    if windy && wet && harsh && code < 45 {
        assert(table(windy, wet, harsh, code) =~= seq![Affordance::Water, Affordance::Transit, Affordance::Open]);
    }
    if windy && wet && !harsh && code >= 45 {
        assert(table(windy, wet, harsh, code) =~= seq![Affordance::Water, Affordance::Transit]);
    }
    if windy && wet && !harsh && code < 45 {
        assert(table(windy, wet, harsh, code) =~= seq![Affordance::Water, Affordance::Transit]);
    }
    if windy && !wet && harsh && code >= 45 {
        assert(table(windy, wet, harsh, code) =~= seq![Affordance::Water, Affordance::Open, Affordance::Transit]);
    }
    if windy && !wet && harsh && code < 45 {
        assert(table(windy, wet, harsh, code) =~= seq![Affordance::Water, Affordance::Open, Affordance::Transit]);
    }
    if windy && !wet && !harsh && code >= 45 {
        assert(table(windy, wet, harsh, code) =~= seq![Affordance::Water, Affordance::Transit]);
    }
    if windy && !wet && !harsh && code < 45 {
        assert(table(windy, wet, harsh, code) =~= seq![Affordance::Water]);
    }
    if !windy && wet && harsh && code >= 45 {
        assert(table(windy, wet, harsh, code) =~= seq![Affordance::Transit, Affordance::Open, Affordance::Water]);
    }
    if !windy && wet && harsh && code < 45 {
        assert(table(windy, wet, harsh, code) =~= seq![Affordance::Transit, Affordance::Open]);
    }
    if !windy && wet && !harsh && code >= 45 {
        assert(table(windy, wet, harsh, code) =~= seq![Affordance::Transit, Affordance::Water]);
    }
    if !windy && wet && !harsh && code < 45 {
        assert(table(windy, wet, harsh, code) =~= seq![Affordance::Transit]);
    }
    if !windy && !wet && harsh && code >= 45 {
        assert(table(windy, wet, harsh, code) =~= seq![Affordance::Open, Affordance::Transit, Affordance::Water]);
    }
    if !windy && !wet && harsh && code < 45 {
        assert(table(windy, wet, harsh, code) =~= seq![Affordance::Open, Affordance::Transit]);
    }
    if !windy && !wet && !harsh && code >= 45 {
        assert(table(windy, wet, harsh, code) =~= seq![Affordance::Water, Affordance::Transit]);
    }
    if !windy && !wet && !harsh && code < 45 {
        assert(table(windy, wet, harsh, code) =~= Seq::<Affordance>::empty());
    }
}

/// Whether `r` affords one of `considered`.
pub open spec fn reached(considered: Seq<Affordance>, r: Region) -> bool {
    considered.contains(r.affords)
}

/// The regions that afford one of `considered`, in order.
pub open spec fn reached_regions(regions: Seq<Region>, considered: Seq<Affordance>) -> Seq<Region> {
    regions.filter(|r: Region| reached(considered, r))
}

impl<W> Society<W> {
    /// The names of the regions an observation considering `considered`
    /// reaches, in the society's own order: each region that affords one
    /// of them, once.
    pub fn reached_by(&self, considered: &[Affordance]) -> (names: Vec<String>)
        ensures
            names@.map_values(|s: String| s@) == reached_regions(self.regions@, considered@).map_values(|r: Region| r.name@),
    {
        let mut out: Vec<String> = Vec::new();
        let mut i: usize = 0;
        while i < self.regions.len()
            invariant
                i <= self.regions@.len(),
                out@.map_values(|s: String| s@) == self.regions@.take(i as int).filter(|r: Region| reached(considered@, r)).map_values(|r: Region| r.name@),
            decreases self.regions@.len() - i,
        {
            proof {
                reveal(Seq::filter);
                assert(self.regions@.take(i + 1).drop_last() =~= self.regions@.take(i as int));
            }
            let a = self.regions[i].affords;
            let mut hit = false;
            let mut j: usize = 0;
            while j < considered.len()
                invariant
                    j <= considered@.len(),
                    hit == (exists|k: int| 0 <= k < j && considered@[k] == a),
                decreases considered@.len() - j,
            {
                if considered[j] == a {
                    hit = true;
                }
                j += 1;
            }
            let ghost before = out@;
            if hit {
                out.push(self.regions[i].name.clone());
                assert(out@.map_values(|s: String| s@) =~= before.map_values(|s: String| s@).push(self.regions@[i as int].name@));
            }
            i += 1;
        }
        assert(self.regions@.take(self.regions@.len() as int) =~= self.regions@);
        assert(reached_regions(self.regions@, considered@) == self.regions@.filter(|r: Region| reached(considered@, r)));
        out
    }
}

/// The first region of `gs`, from `i` on, named `name`.
pub open spec fn named_region(gs: Seq<Subgroup>, name: Seq<char>, i: int) -> Option<int>
    decreases gs.len() - i,
{
    if i < 0 || i >= gs.len() {
        None
    } else if gs[i].name@ == name {
        Some(i)
    } else {
        named_region(gs, name, i + 1)
    }
}

/// The first moderator of `mods`, from `i` on, occupying exactly `members`.
pub open spec fn holding<W>(mods: Seq<Moderator<W>>, members: Seq<Position>, i: int) -> Option<int>
    decreases mods.len() - i,
{
    if i < 0 || i >= mods.len() {
        None
    } else if mods[i].region_of() == members {
        Some(i)
    } else {
        holding(mods, members, i + 1)
    }
}

/// Where a report reaching the region named `name` lands: the terminus of
/// the character holding that region, when the region exists, has a
/// character, and the character has a terminus.
pub open spec fn landing<W>(gs: Seq<Subgroup>, mods: Seq<Moderator<W>>, termini: Seq<Option<Position>>, name: Seq<char>) -> Option<Position> {
    match named_region(gs, name, 0) {
        None => None,
        Some(g) => match holding(mods, gs[g].members@, 0) {
            None => None,
            Some(k) => termini[k],
        },
    }
}

/// The landings of a report reaching the regions named `reached`, in order:
/// for each that lands, its index in `reached` and its terminus.
pub open spec fn landings_of<W>(gs: Seq<Subgroup>, mods: Seq<Moderator<W>>, termini: Seq<Option<Position>>, reached: Seq<Seq<char>>) -> Seq<(int, Position)>
    decreases reached.len(),
{
    if reached.len() == 0 {
        Seq::empty()
    } else {
        let prev = landings_of(gs, mods, termini, reached.drop_last());
        match landing(gs, mods, termini, reached.last()) {
            Some(t) => prev.push((reached.len() - 1, t)),
            None => prev,
        }
    }
}

/// Whether `g` is the first of `gs` named `name`.
pub open spec fn first_region_named(gs: Seq<Subgroup>, name: Seq<char>, g: int) -> bool {
    &&& 0 <= g < gs.len()
    &&& gs[g].name@ == name
    &&& forall|e: int| 0 <= e < g ==> (#[trigger] gs[e]).name@ != name
}

/// Whether `h` is the first of `mods` occupying exactly `members`.
pub open spec fn first_holder<W>(mods: Seq<Moderator<W>>, members: Seq<Position>, h: int) -> bool {
    &&& 0 <= h < mods.len()
    &&& mods[h].region_of() == members
    &&& forall|e: int| 0 <= e < h ==> (#[trigger] mods[e]).region_of() != members
}

proof fn lemma_named_region_is_first(gs: Seq<Subgroup>, name: Seq<char>, i: int)
    requires
        0 <= i,
    ensures
        named_region(gs, name, i) matches Some(g) ==> i <= g < gs.len() && gs[g].name@ == name
            && forall|e: int| i <= e < g ==> (#[trigger] gs[e]).name@ != name,
        named_region(gs, name, i) is None ==> forall|e: int| i <= e < gs.len() ==> (#[trigger] gs[e]).name@ != name,
    decreases gs.len() - i,
{
    if i < gs.len() && gs[i].name@ != name {
        lemma_named_region_is_first(gs, name, i + 1);
    }
}

proof fn lemma_holding_is_first<W>(mods: Seq<Moderator<W>>, members: Seq<Position>, i: int)
    requires
        0 <= i,
    ensures
        holding(mods, members, i) matches Some(h) ==> i <= h < mods.len() && mods[h].region_of() == members
            && forall|e: int| i <= e < h ==> (#[trigger] mods[e]).region_of() != members,
        holding(mods, members, i) is None ==> forall|e: int| i <= e < mods.len() ==> (#[trigger] mods[e]).region_of() != members,
    decreases mods.len() - i,
{
    if i < mods.len() && mods[i].region_of() != members {
        lemma_holding_is_first(mods, members, i + 1);
    }
}

/// Where a report reaching the region named `name` lands, told by which
/// region and which character: the terminus of the first character holding
/// the first region so named.
proof fn lemma_landing_is_the_first_holders_terminus<W>(gs: Seq<Subgroup>, mods: Seq<Moderator<W>>, termini: Seq<Option<Position>>, name: Seq<char>)
    ensures
        landing(gs, mods, termini, name) matches Some(t) ==> exists|g: int, h: int|
            #[trigger] first_region_named(gs, name, g) && #[trigger] first_holder(mods, gs[g].members@, h) && termini[h] == Some(t),
        forall|g: int, h: int| #[trigger] first_region_named(gs, name, g) && #[trigger] first_holder(mods, gs[g].members@, h)
            ==> landing(gs, mods, termini, name) == termini[h],
        (forall|g: int| 0 <= g < gs.len() ==> (#[trigger] gs[g]).name@ != name) ==> landing(gs, mods, termini, name) is None,
{
    lemma_named_region_is_first(gs, name, 0);
    match named_region(gs, name, 0) {
        None => {},
        Some(g) => {
            lemma_holding_is_first(mods, gs[g].members@, 0);
            assert(first_region_named(gs, name, g));
            assert forall|g2: int, h: int| #[trigger] first_region_named(gs, name, g2) && #[trigger] first_holder(mods, gs[g2].members@, h)
                implies landing(gs, mods, termini, name) == termini[h] by {
                if g2 < g {
                    assert(gs[g2].name@ != name);
                } else if g < g2 {
                    assert(gs[g].name@ != name);
                }
                match holding(mods, gs[g].members@, 0) {
                    None => {
                        assert(mods[h].region_of() != gs[g].members@);
                    },
                    Some(k) => {
                        if h < k {
                            assert(mods[h].region_of() != gs[g].members@);
                        } else if k < h {
                            assert(mods[k].region_of() != gs[g].members@);
                        }
                    },
                }
            }
            match holding(mods, gs[g].members@, 0) {
                None => {},
                Some(k) => {
                    assert(first_holder(mods, gs[g].members@, k));
                },
            }
        },
    }
}

proof fn lemma_landings_in_order<W>(gs: Seq<Subgroup>, mods: Seq<Moderator<W>>, termini: Seq<Option<Position>>, reached: Seq<Seq<char>>)
    ensures
        forall|j: int| 0 <= j < landings_of(gs, mods, termini, reached).len() ==> {
            let e = #[trigger] landings_of(gs, mods, termini, reached)[j];
            0 <= e.0 < reached.len() && landing(gs, mods, termini, reached[e.0]) == Some(e.1)
        },
        forall|j: int, k: int| 0 <= j < k < landings_of(gs, mods, termini, reached).len()
            ==> (#[trigger] landings_of(gs, mods, termini, reached)[j]).0 < (#[trigger] landings_of(gs, mods, termini, reached)[k]).0,
        forall|k: int| 0 <= k < reached.len() && (#[trigger] landing(gs, mods, termini, reached[k])) is Some
            ==> landings_of(gs, mods, termini, reached).contains((k, landing(gs, mods, termini, reached[k])->Some_0)),
    decreases reached.len(),
{
    if reached.len() > 0 {
        let pre = reached.drop_last();
        lemma_landings_in_order(gs, mods, termini, pre);
        let prev = landings_of(gs, mods, termini, pre);
        let out = landings_of(gs, mods, termini, reached);
        assert forall|k: int| 0 <= k < pre.len() implies #[trigger] pre[k] == reached[k] by {}
        assert forall|k: int| 0 <= k < reached.len() && (#[trigger] landing(gs, mods, termini, reached[k])) is Some
            implies out.contains((k, landing(gs, mods, termini, reached[k])->Some_0)) by {
            if k < pre.len() {
                assert(pre[k] == reached[k]);
                assert(landing(gs, mods, termini, pre[k]) is Some);
                let j = choose|j: int| 0 <= j < prev.len() && prev[j] == (k, landing(gs, mods, termini, pre[k])->Some_0);
                assert(out[j] == prev[j]);
            } else {
                assert(out[out.len() - 1] == (k, landing(gs, mods, termini, reached[k])->Some_0));
            }
        }
        assert forall|j: int| 0 <= j < out.len() implies {
            let e = #[trigger] out[j];
            0 <= e.0 < reached.len() && landing(gs, mods, termini, reached[e.0]) == Some(e.1)
        } by {
            if j < prev.len() {
                assert(out[j] == prev[j]);
                assert(pre[prev[j].0] == reached[prev[j].0]);
            }
        }
        assert forall|j: int, k: int| 0 <= j < k < out.len() implies (#[trigger] out[j]).0 < (#[trigger] out[k]).0 by {
            assert(out[j] == prev[j]);
            if k < prev.len() {
                assert(out[k] == prev[k]);
            }
        }
    }
}

/// Where a report lands: each landing names a region the report reached
/// (by its place in `reached`, in order, each once), and its terminus is
/// that of the first character holding the first region of that name; a
/// region reached whose first holder has a terminus always lands there, so
/// a name no region bears never lands.
pub proof fn a_report_lands_at_the_terminus_of_the_regions_character<W>(
    gs: Seq<Subgroup>,
    mods: Seq<Moderator<W>>,
    termini: Seq<Option<Position>>,
    reached: Seq<Seq<char>>,
)
    ensures
        forall|j: int| 0 <= j < landings_of(gs, mods, termini, reached).len() ==> {
            let e = #[trigger] landings_of(gs, mods, termini, reached)[j];
            &&& 0 <= e.0 < reached.len()
            &&& exists|g: int, h: int| #[trigger] first_region_named(gs, reached[e.0], g)
                && #[trigger] first_holder(mods, gs[g].members@, h) && termini[h] == Some(e.1)
        },
        forall|j: int, k: int| 0 <= j < k < landings_of(gs, mods, termini, reached).len()
            ==> (#[trigger] landings_of(gs, mods, termini, reached)[j]).0 < (#[trigger] landings_of(gs, mods, termini, reached)[k]).0,
        forall|k: int, g: int, h: int| 0 <= k < reached.len() && #[trigger] first_region_named(gs, reached[k], g)
            && #[trigger] first_holder(mods, gs[g].members@, h) && termini[h] is Some
            ==> landings_of(gs, mods, termini, reached).contains((k, termini[h]->Some_0)),
{
    lemma_landings_in_order(gs, mods, termini, reached);
    let out = landings_of(gs, mods, termini, reached);
    assert forall|j: int| 0 <= j < out.len() implies {
        let e = #[trigger] out[j];
        &&& 0 <= e.0 < reached.len()
        &&& exists|g: int, h: int| #[trigger] first_region_named(gs, reached[e.0], g)
            && #[trigger] first_holder(mods, gs[g].members@, h) && termini[h] == Some(e.1)
    } by {
        lemma_landing_is_the_first_holders_terminus(gs, mods, termini, reached[out[j].0]);
    }
    assert forall|k: int, g: int, h: int| 0 <= k < reached.len() && #[trigger] first_region_named(gs, reached[k], g)
        && #[trigger] first_holder(mods, gs[g].members@, h) && termini[h] is Some
        implies out.contains((k, termini[h]->Some_0)) by {
        lemma_landing_is_the_first_holders_terminus(gs, mods, termini, reached[k]);
        assert(landing(gs, mods, termini, reached[k]) == termini[h]);
    }
}

/// A region is reached exactly when what it affords is among what the
/// observation considers; the regions reached keep the society's order.
pub proof fn a_region_is_reached_exactly_when_its_affordance_is_considered(regions: Seq<Region>, considered: Seq<Affordance>)
    ensures
        forall|r: Region| reached_regions(regions, considered).contains(r) <==> (regions.contains(r) && considered.contains(r.affords)),
        reached_regions(regions, considered).len() <= regions.len(),
{
    regions.filter_lemma(|r: Region| reached(considered, r));
    let f = reached_regions(regions, considered);
    assert forall|r: Region| f.contains(r) <==> (regions.contains(r) && considered.contains(r.affords)) by {
        if regions.contains(r) && considered.contains(r.affords) {
            let i = choose|i: int| 0 <= i < regions.len() && regions[i] == r;
            assert(reached(considered, regions[i]));
        }
        if f.contains(r) {
            regions.lemma_filter_contains_rev(|r: Region| reached(considered, r), r);
            let i = choose|i: int| 0 <= i < f.len() && f[i] == r;
            assert(reached(considered, f[i]));
        }
    }
}

fn find_named(gs: &[Subgroup], name: &str) -> (r: Option<usize>)
    ensures
        match r {
            Some(k) => k < gs@.len() && named_region(gs@, name@, 0) == Some(k as int),
            None => named_region(gs@, name@, 0) is None,
        },
{
    let mut i: usize = 0;
    while i < gs.len()
        invariant
            i <= gs@.len(),
            named_region(gs@, name@, 0) == named_region(gs@, name@, i as int),
        decreases gs@.len() - i,
    {
        if same_text(gs[i].name.as_str(), name) {
            return Some(i);
        }
        i += 1;
    }
    None
}

fn same_positions(a: &[Position], b: &[Position]) -> (r: bool)
    ensures
        r == (a@ == b@),
{
    if a.len() != b.len() {
        return false;
    }
    let mut i: usize = 0;
    while i < a.len()
        invariant
            a@.len() == b@.len(),
            i <= a@.len(),
            forall|j: int| 0 <= j < i ==> a@[j] == b@[j],
        decreases a@.len() - i,
    {
        if a[i] != b[i] {
            return false;
        }
        i += 1;
    }
    assert(a@ =~= b@);
    true
}

fn find_holding<W>(mods: &[Moderator<W>], members: &[Position]) -> (r: Option<usize>)
    ensures
        match r {
            Some(k) => k < mods@.len() && holding(mods@, members@, 0) == Some(k as int),
            None => holding(mods@, members@, 0) is None,
        },
{
    let mut i: usize = 0;
    while i < mods.len()
        invariant
            i <= mods@.len(),
            holding(mods@, members@, 0) == holding(mods@, members@, i as int),
        decreases mods@.len() - i,
    {
        if same_positions(mods[i].region(), members) {
            return Some(i);
        }
        i += 1;
    }
    None
}

impl Square {
    /// Where a report reaching the regions named `reached` lands, given
    /// each moderator's terminus in `termini`: for each region, in order,
    /// that has a character with a terminus, the region's index in
    /// `reached` and that terminus. A region without a character, or whose
    /// character has none, is passed over.
    pub fn landings<W>(&self, mods: &[Moderator<W>], termini: &[Option<Position>], reached: &[String]) -> (out: Vec<(usize, Position)>)
        requires
            termini@.len() == mods@.len(),
        ensures
            out@.map_values(|p: (usize, Position)| (p.0 as int, p.1)) == landings_of(self.regions(), mods@, termini@, reached@.map_values(|s: String| s@)),
    {
        let gs = self.subgroups();
        let mut out: Vec<(usize, Position)> = Vec::new();
        let mut i: usize = 0;
        while i < reached.len()
            invariant
                gs@ == self.regions(),
                termini@.len() == mods@.len(),
                i <= reached@.len(),
                out@.map_values(|p: (usize, Position)| (p.0 as int, p.1)) == landings_of(gs@, mods@, termini@, reached@.map_values(|s: String| s@).take(i as int)),
            decreases reached@.len() - i,
        {
            let ghost names = reached@.map_values(|s: String| s@);
            proof {
                assert(names.take(i + 1).drop_last() =~= names.take(i as int));
                assert(names.take(i + 1).last() == reached@[i as int]@);
            }
            let ghost before = out@;
            match find_named(gs, reached[i].as_str()) {
                Some(g) => {
                    match find_holding(mods, gs[g].members.as_slice()) {
                        Some(k) => {
                            match termini[k] {
                                Some(t) => {
                                    out.push((i, t));
                                    assert(out@.map_values(|p: (usize, Position)| (p.0 as int, p.1)) =~= before.map_values(|p: (usize, Position)| (p.0 as int, p.1)).push((i as int, t)));
                                },
                                None => {},
                            }
                        },
                        None => {},
                    }
                },
                None => {},
            }
            i += 1;
        }
        assert(reached@.map_values(|s: String| s@).take(reached@.len() as int) =~= reached@.map_values(|s: String| s@));
        out
    }
}

/// The name of the node a report from, or about, `name` registers on.
pub open spec fn weather_theta(name: Seq<char>) -> Seq<u8> {
    vstd::utf8::encode_utf8("weather/"@ + name)
}

/// The node names the first `j` landings of a report register on.
pub open spec fn landed_thetas(reached: Seq<String>, ls: Seq<(int, Position)>, j: int) -> Set<Seq<u8>> {
    Set::new(|t: Seq<u8>| exists|k: int| 0 <= k < j && t == #[trigger] weather_theta(reached[ls[k].0]@))
}

/// The edges the first `j` landings of a report from `source` induce: from
/// the source's node to each landed region's node, where the two differ.
pub open spec fn landed_edges(source: Seq<char>, reached: Seq<String>, ls: Seq<(int, Position)>, j: int) -> Set<(Seq<u8>, Seq<u8>)> {
    Set::new(|e: (Seq<u8>, Seq<u8>)| exists|k: int| 0 <= k < j && e == (weather_theta(source), #[trigger] weather_theta(reached[ls[k].0]@)) && e.0 != e.1)
}

proof fn lemma_landings_index<W>(gs: Seq<Subgroup>, mods: Seq<Moderator<W>>, termini: Seq<Option<Position>>, reached: Seq<Seq<char>>)
    ensures
        landings_of(gs, mods, termini, reached).len() <= reached.len(),
        forall|k: int| 0 <= k < landings_of(gs, mods, termini, reached).len() ==> 0 <= (#[trigger] landings_of(gs, mods, termini, reached)[k]).0 < reached.len(),
    decreases reached.len(),
{
    if reached.len() > 0 {
        lemma_landings_index(gs, mods, termini, reached.drop_last());
    }
}

/// Register a report from `source` carrying `value`: emit it on the
/// source's node, then for each landing of the report (see
/// [`Square::landings`]), in order, emit it on the landed region's node,
/// caused by the source's node, and register a root post spoken by the
/// world as `source`, saying that region's body, at the landing's terminus,
/// with a fresh record and no act. Returns the posts' handles.
pub fn register_observation<V: Clone, W>(
    runtime: &mut Runtime<V>,
    forum: &mut Forum,
    square: &Square,
    mods: &[Moderator<W>],
    termini: &[Option<Position>],
    reached: &[String],
    source: &str,
    value: V,
    bodies: &[String],
) -> (ids: Vec<PostId>)
    requires
        termini@.len() == mods@.len(),
        bodies@.len() == reached@.len(),
        old(forum).all().len() + reached@.len() < u64::MAX,
    ensures
        ({
            let ls = landings_of(square.regions(), mods@, termini@, reached@.map_values(|s: String| s@));
            let n0 = old(forum).all().len();
            &&& ids@.len() == ls.len()
            &&& final(forum).now() == old(forum).now()
            &&& final(forum).all().len() == n0 + ls.len()
            &&& final(forum).all().take(n0 as int) == old(forum).all()
            &&& forall|k: int| 0 <= k < ls.len() ==> {
                let p = #[trigger] final(forum).all()[n0 + k];
                &&& ids@[k] == PostId((n0 + k) as u64)
                &&& p.id == ids@[k]
                &&& p.parent is None
                &&& (p.speaker matches Speaker::World(w) && w@ == source@)
                &&& p.body@ == bodies@[ls[k].0]@
                &&& p.emitted.terminus == ls[k].1
                &&& p.emitted.record.count() == 0
                &&& p.act is None
                &&& p.at == old(forum).now()
            }
            &&& final(runtime).record_of() == after_emissions(old(runtime).record_of(), 1 + ls.len())
            &&& ascending(final(runtime).names())
            &&& final(runtime).names().to_set() == old(runtime).names().to_set().insert(weather_theta(source@)).union(landed_thetas(reached@, ls, ls.len() as int))
            &&& final(runtime).edge_set() == old(runtime).edge_set().union(landed_edges(source@, reached@, ls, ls.len() as int))
            &&& forall|t: Seq<u8>| t != weather_theta(source@) && !landed_thetas(reached@, ls, ls.len() as int).contains(t) ==> #[trigger] final(runtime).node_at(t) == old(runtime).node_at(t)
        }),
{
    let ghost names = reached@.map_values(|s: String| s@);
    let landed = square.landings(mods, termini, reached);
    let ghost ls = landings_of(square.regions(), mods@, termini@, names);
    proof {
        lemma_landings_index(square.regions(), mods@, termini@, names);
        assert forall|k: int| 0 <= k < landed@.len() implies (#[trigger] landed@[k]).0 as int == ls[k].0 && landed@[k].1 == ls[k].1 by {
            assert(landed@.map_values(|p: (usize, Position)| (p.0 as int, p.1))[k] == ls[k]);
        }
    }
    let src_theta = String::from_str("weather/").concat(source);
    let ghost st = weather_theta(source@);
    proof {
        reveal_strlit("weather/");
    }
    let src_str = src_theta.as_str();
    assert(src_str.spec_bytes() == st);
    let ghost r0 = *old(runtime);
    let ghost n0 = forum.all().len();
    let ghost f0 = *old(forum);
    runtime.emit(src_str, value.clone(), None);
    let ghost r1 = *runtime;
    let mut ids: Vec<PostId> = Vec::new();
    let mut k: usize = 0;
    while k < landed.len()
        invariant
            landed@.len() == ls.len(),
            ls.len() <= reached@.len(),
            bodies@.len() == reached@.len(),
            names == reached@.map_values(|s: String| s@),
            forall|i: int| 0 <= i < ls.len() ==> 0 <= (#[trigger] ls[i]).0 < reached@.len(),
            forall|i: int| 0 <= i < landed@.len() ==> (#[trigger] landed@[i]).0 as int == ls[i].0 && landed@[i].1 == ls[i].1,
            src_str.spec_bytes() == st,
            st == weather_theta(source@),
            k <= ls.len(),
            n0 == f0.all().len(),
            n0 + reached@.len() < u64::MAX,
            ids@.len() == k,
            forum.now() == f0.now(),
            forum.all().len() == n0 + k,
            forum.all().take(n0 as int) == f0.all(),
            forall|i: int| 0 <= i < k ==> {
                let p = #[trigger] forum.all()[n0 + i];
                &&& ids@[i] == PostId((n0 + i) as u64)
                &&& p.id == ids@[i]
                &&& p.parent is None
                &&& (p.speaker matches Speaker::World(w) && w@ == source@)
                &&& p.body@ == bodies@[ls[i].0]@
                &&& p.emitted.terminus == ls[i].1
                &&& p.emitted.record.count() == 0
                &&& p.act is None
                &&& p.at == f0.now()
            },
            runtime.record_of() == after_emissions(r0.record_of(), (1 + k) as nat),
            ascending(runtime.names()),
            runtime.names().to_set() == r0.names().to_set().insert(st).union(landed_thetas(reached@, ls, k as int)),
            runtime.edge_set() == r0.edge_set().union(landed_edges(source@, reached@, ls, k as int)),
            forall|t: Seq<u8>| t != st && !landed_thetas(reached@, ls, k as int).contains(t) ==> #[trigger] runtime.node_at(t) == r0.node_at(t),
        decreases landed@.len() - k,
    {
        let (j, t) = landed[k];
        let theta = String::from_str("weather/").concat(reached[j].as_str());
        let ghost tt = weather_theta(reached@[j as int]@);
        let theta_str = theta.as_str();
        assert(theta_str.spec_bytes() == tt);
        let ghost rb = *runtime;
        runtime.emit(theta_str, value.clone(), Some(src_str));
        proof {
            let lt0 = landed_thetas(reached@, ls, k as int);
            let lt1 = landed_thetas(reached@, ls, k + 1);
            assert(lt1 =~= lt0.insert(tt)) by {
                assert forall|x: Seq<u8>| lt1.contains(x) <==> lt0.insert(tt).contains(x) by {
                    if lt1.contains(x) {
                        let i = choose|i: int| 0 <= i < k + 1 && x == #[trigger] weather_theta(reached@[ls[i].0]@);
                        if i < k {
                            assert(lt0.contains(x));
                        }
                    }
                    if lt0.contains(x) {
                        let i = choose|i: int| 0 <= i < k && x == #[trigger] weather_theta(reached@[ls[i].0]@);
                        assert(lt1.contains(x));
                    }
                    if x == tt {
                        assert(x == weather_theta(reached@[ls[k as int].0]@));
                        assert(lt1.contains(x));
                    }
                }
            }
            assert(runtime.names().to_set() =~= r0.names().to_set().insert(st).union(lt1));
            let le0 = landed_edges(source@, reached@, ls, k as int);
            let le1 = landed_edges(source@, reached@, ls, k + 1);
            let e = (st, tt);
            if st != tt {
                assert(le1 =~= le0.insert(e)) by {
                    assert forall|x: (Seq<u8>, Seq<u8>)| le1.contains(x) <==> le0.insert(e).contains(x) by {
                        if le1.contains(x) {
                            let i = choose|i: int| 0 <= i < k + 1 && x == (weather_theta(source@), #[trigger] weather_theta(reached@[ls[i].0]@)) && x.0 != x.1;
                            if i < k {
                                assert(le0.contains(x));
                            }
                        }
                        if le0.contains(x) {
                            let i = choose|i: int| 0 <= i < k && x == (weather_theta(source@), #[trigger] weather_theta(reached@[ls[i].0]@)) && x.0 != x.1;
                            assert(le1.contains(x));
                        }
                        if x == e {
                            assert(x == (weather_theta(source@), weather_theta(reached@[ls[k as int].0]@)));
                            assert(le1.contains(x));
                        }
                    }
                }
                assert(runtime.edge_set() =~= r0.edge_set().union(le1));
            } else {
                assert(le1 =~= le0) by {
                    assert forall|x: (Seq<u8>, Seq<u8>)| le1.contains(x) <==> le0.contains(x) by {
                        if le1.contains(x) {
                            let i = choose|i: int| 0 <= i < k + 1 && x == (weather_theta(source@), #[trigger] weather_theta(reached@[ls[i].0]@)) && x.0 != x.1;
                            if i < k {
                                assert(le0.contains(x));
                            }
                        }
                        if le0.contains(x) {
                            let i = choose|i: int| 0 <= i < k && x == (weather_theta(source@), #[trigger] weather_theta(reached@[ls[i].0]@)) && x.0 != x.1;
                            assert(le1.contains(x));
                        }
                    }
                }
            }
            assert forall|x: Seq<u8>| x != st && !lt1.contains(x) implies #[trigger] runtime.node_at(x) == r0.node_at(x) by {
                assert(x != tt);
                assert(!lt0.contains(x));
                assert(runtime.node_at(x) == rb.node_at(x));
            }
        }
        let ghost fb = *forum;
        let id = forum.register(None, Speaker::World(String::from_str(source)), bodies[j].as_str(), at(t, Record::new()), None);
        proof {
            assert(forum.all().take(n0 as int) =~= f0.all()) by {
                assert(forum.all().take(fb.all().len() as int) == fb.all());
                assert forall|i: int| 0 <= i < n0 implies forum.all().take(n0 as int)[i] == f0.all()[i] by {
                    assert(forum.all()[i] == fb.all()[i]);
                    assert(fb.all().take(n0 as int)[i] == fb.all()[i]);
                }
            }
            assert forall|i: int| 0 <= i < k + 1 implies {
                let p = #[trigger] forum.all()[n0 + i];
                &&& (if i < k { ids@[i] } else { id }) == PostId((n0 + i) as u64)
                &&& p.id == (if i < k { ids@[i] } else { id })
                &&& p.parent is None
                &&& (p.speaker matches Speaker::World(w) && w@ == source@)
                &&& p.body@ == bodies@[ls[i].0]@
                &&& p.emitted.terminus == ls[i].1
                &&& p.emitted.record.count() == 0
                &&& p.act is None
                &&& p.at == f0.now()
            } by {
                if i < k {
                    assert(forum.all()[n0 + i] == fb.all()[n0 + i]) by {
                        assert(forum.all().take(fb.all().len() as int)[n0 + i] == fb.all()[n0 + i]);
                    }
                }
            }
        }
        ids.push(id);
        k += 1;
    }
    proof {
        assert(landed_thetas(reached@, ls, ls.len() as int) == landed_thetas(reached@, ls, k as int));
    }
    ids
}

/// What a cache of the last reading serves before a fetch: a copy of its
/// reading when the reading, `age` old, is younger than `ttl`, and nothing
/// otherwise (a fetch is then due).
pub fn before_fetch<T: Clone>(cache: &Option<(u64, T)>, ttl: u64) -> (r: Option<T>)
    ensures
        match cache {
            Some((age, reading)) => if *age < ttl {
                r is Some && cloned(*reading, r->Some_0)
            } else {
                r is None
            },
            None => r is None,
        },
{
    match cache {
        Some((age, reading)) => {
            if *age < ttl {
                Some(reading.clone())
            } else {
                None
            }
        },
        None => None,
    }
}

/// What is served after a fetch, and whether it is to be cached: a fresh
/// reading is served and cached; when the fetch brought nothing, the stale
/// reading, if any, is served and the cache is left alone.
pub fn after_fetch<T>(stale: Option<T>, fresh: Option<T>) -> (r: (Option<T>, bool))
    ensures
        fresh is Some ==> r.0 == fresh && r.1,
        fresh is None ==> r.0 == stale && !r.1,
{
    match fresh {
        Some(o) => (Some(o), true),
        None => (stale, false),
    }
}


/// What is under a roof is never reached: whatever conditions held, no
/// region a reading reaches affords shelter.
pub proof fn what_is_under_a_roof_is_never_reached(regions: Seq<Region>, windy: bool, wet: bool, harsh: bool, code: u32)
    ensures
        forall|i: int| 0 <= i < reached_regions(regions, table(windy, wet, harsh, code)).len()
            ==> (#[trigger] reached_regions(regions, table(windy, wet, harsh, code))[i]).affords != Affordance::Indoors,
{
    lemma_table_distinct(windy, wet, harsh, code);
    let t = table(windy, wet, harsh, code);
    let f = reached_regions(regions, t);
    regions.filter_lemma(|r: Region| reached(t, r));
    assert forall|i: int| 0 <= i < f.len() implies (#[trigger] f[i]).affords != Affordance::Indoors by {
        assert(reached(t, f[i]));
    }
}

} // verus!
