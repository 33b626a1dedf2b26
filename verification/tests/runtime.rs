use closure::act::Act;
use closure::forum::{Answer, Forum, Order, Speaker, at, open_square, post_round};
use closure::graph::{ContactGraph, Position};
use closure::identity::Record;
use closure::moderator::{Cap, Character, Identity, Moderator, amalgamate, fresh};
use closure::node::Runtime;
use closure::population::{Attributes, Module, Population, SubstrateRecord};
use closure::psychon::Emitted;
use closure::society::utterance_body;
use closure::voice::{Seeding, Square, Subgroup, VoiceId, seed};
use serde_json::Value;
use std::collections::{BTreeMap, BTreeSet};

fn e(t: Position) -> Emitted {
    at(t, Record::new())
}

#[test]
fn cor_6_7_drift_accumulates_along_the_chain() {
    let mut f = Forum::new();
    let root = f.register(None, Speaker::Player, "seed", e(0), None);
    let a = f.register(Some(root), Speaker::Agent("x".into()), "re", e(0), None);
    let b = f.register(Some(a), Speaker::Agent("y".into()), "re re", e(0), None);
    let _side = f.register(Some(root), Speaker::Agent("z".into()), "aside", e(0), None);

    assert_eq!(f.depth(root), 2, "longest re-registration chain");
    assert_eq!(f.root_of(b), Some(root));
    assert_eq!(f.thread(root).len(), 4);
    assert_eq!(f.replies(root).len(), 2);
}

#[test]
fn thm_7_4_agents_may_reply_with_no_user_present() {
    let mut f = Forum::new();
    let root = f.register(None, Speaker::Agent("x".into()), "opening", e(1), None);
    let r1 = f.register(Some(root), Speaker::Agent("y".into()), "and?", e(1), None);
    f.register(Some(r1), Speaker::Agent("x".into()), "well", e(1), None);
    assert!(
        f.thread(root).iter().all(|p| !matches!(p.speaker, Speaker::Player)),
        "exchange does not close, and does not require the player"
    );
    assert_eq!(f.depth(root), 2);
}

#[test]
fn the_tick_advances_only_when_asked() {
    let mut f = Forum::new();
    assert_eq!(f.tick(), 0);
    let a = f.register(None, Speaker::Player, "first", e(0), None);
    assert_eq!(f.advance(), 1);
    let b = f.register(None, Speaker::Player, "second", e(0), None);
    assert_eq!(f.get(a).unwrap().at, 0);
    assert_eq!(f.get(b).unwrap().at, 1);
}

#[test]
fn there_is_no_edit_and_no_delete() {
    let mut f = Forum::new();
    let id = f.register(None, Speaker::Player, "said", e(0), None);
    f.advance();
    assert_eq!(f.get(id).unwrap().body, "said");
    assert_eq!(f.posts().len(), 1);
}

#[test]
fn an_unmeasured_act_is_absent_not_inert() {
    let mut f = Forum::new();
    let id = f.register(None, Speaker::Player, "unmeasured", e(0), None);
    assert!(
        f.get(id).unwrap().act.is_none(),
        "None means not measured; Act::default() would mean measured-and-inert"
    );
    assert!(Act::default().is_inert());
}

#[test]
fn a_post_carries_a_direction_and_never_a_score() {
    let mut f = Forum::new();
    let act = Act { report: true, question: true };
    let id = f.register(None, Speaker::Player, "both at once", e(0), Some(act));
    let a = f.get(id).unwrap().act.unwrap();
    assert!(a.is_both(), "report and question together");
    assert!(!a.is_inert());
}

#[test]
fn a_broken_or_unknown_thread_has_no_root() {
    let mut f = Forum::new();
    let r = f.register(None, Speaker::Player, "root", e(0), None);
    let orphan = f.register(Some(closure::forum::PostId(99)), Speaker::Player, "to nothing", e(0), None);
    assert_eq!(f.root_of(r), Some(r));
    assert_eq!(f.root_of(orphan), None);
    assert_eq!(f.root_of(closure::forum::PostId(7)), None);
    assert!(f.get(closure::forum::PostId(7)).is_none());
    assert_eq!(f.depth(r), 0);
    assert!(f.get(r).unwrap().is_root());
    assert!(!f.get(orphan).unwrap().is_root());
}

#[test]
fn the_default_order_is_recency() {
    assert_eq!(Order::default(), Order::Recent);
}

fn subgroups() -> Vec<Subgroup> {
    vec![
        Subgroup { name: "watersports".into(), members: vec![0, 1, 2] },
        Subgroup { name: "carbon-composites".into(), members: vec![3, 4] },
        Subgroup { name: "lake-transport".into(), members: vec![5] },
    ]
}

fn city() -> ContactGraph<f64> {
    let mut g = ContactGraph::new(6);
    for (u, v, w) in [(0, 1, 2.0), (1, 2, 2.0), (2, 3, 1.0), (3, 4, 2.0), (4, 5, 2.0)] {
        g.add_contact(u, v, w).unwrap();
    }
    g
}

fn square_with(spoken: &[(u32, Position)]) -> Square {
    let mut sq = Square::new(subgroups());
    let mut ids = BTreeMap::new();
    for (v, t) in spoken {
        let id = *ids.entry(*v).or_insert_with(|| sq.add_voice(format!("v{v}")));
        sq.note(id, *t);
    }
    sq
}

#[test]
fn a_voice_carries_no_profile_until_it_is_fitted() {
    let sq = square_with(&[(0, 1)]);
    let v = sq.voice(VoiceId(0)).unwrap();
    assert_eq!(v.spoken_at, vec![1]);
    assert_eq!(v.name, "v0");
    assert_eq!(v.id, VoiceId(0));
}

#[test]
fn speaking_in_several_subgroups_is_not_a_conflict() {
    let sq = square_with(&[(0, 1), (0, 3)]);
    let v = sq.voice(VoiceId(0)).unwrap();
    let names: Vec<&str> = v.subgroups(sq.subgroups()).iter().map(|s| s.name.as_str()).collect();
    assert_eq!(names, vec!["watersports", "carbon-composites"]);
}

#[test]
fn there_is_no_search_by_attribute() {
    let sq = square_with(&[(0, 1)]);
    let all = sq.voices();
    assert_eq!(all.len(), 1);
    assert_eq!(sq.voices_in(&sq.subgroups()[0]).len(), 1);
    assert_eq!(sq.voices_in(&sq.subgroups()[1]).len(), 0);
}

#[test]
fn a_footprint_is_the_distinct_positions_in_order() {
    let sq = square_with(&[(0, 4), (0, 1), (0, 4), (0, 2)]);
    let v = sq.voice(VoiceId(0)).unwrap();
    assert_eq!(v.footprint(), vec![1, 2, 4]);
    assert!(sq.voice(VoiceId(1)).is_none());
}

#[test]
fn noting_an_unknown_voice_changes_nothing() {
    let mut sq = square_with(&[(0, 1)]);
    sq.note(VoiceId(5), 2);
    assert_eq!(sq.voices().len(), 1);
    assert_eq!(sq.voice(VoiceId(0)).unwrap().spoken_at, vec![1]);
}

#[test]
fn seeding_is_deterministic_in_the_seed() {
    let a = {
        let mut sq = Square::new(subgroups());
        seed(&mut sq, &city(), &Seeding::default(), 42)
    };
    let b = {
        let mut sq = Square::new(subgroups());
        seed(&mut sq, &city(), &Seeding::default(), 42)
    };
    assert_eq!(a, b, "same seed, same square (Cor. 11.14)");
    let c = {
        let mut sq = Square::new(subgroups());
        seed(&mut sq, &city(), &Seeding::default(), 43)
    };
    assert_ne!(a, c, "a different session opens on a different square");
}

#[test]
fn a_seeded_square_is_already_talking() {
    let mut sq = Square::new(subgroups());
    let out = seed(&mut sq, &city(), &Seeding::default(), 7);
    assert_eq!(out.len(), 8 * 3, "voices x posts");
    assert_eq!(sq.voices().len(), 8);
    assert!(sq.voices().iter().all(|v| !v.spoken_at.is_empty()));
    assert_eq!(sq.voice(VoiceId(3)).unwrap().name, "voice-3");
}

#[test]
fn seeded_voices_can_range_across_subgroups() {
    let mut sq = Square::new(subgroups());
    let _ = seed(&mut sq, &city(), &Seeding::default(), 3);
    let spread = sq
        .voices()
        .iter()
        .filter(|v| v.subgroups(sq.subgroups()).len() > 1)
        .count();
    assert!(spread > 0, "the square is not partitioned into silos");
}

#[test]
fn a_seeded_voice_walks_rather_than_scattering() {
    let c = city();
    let regions: Vec<BTreeSet<Position>> =
        subgroups().into_iter().map(|s| s.members.into_iter().collect()).collect();
    let near: Vec<Vec<usize>> = (0..regions.len())
        .map(|i| {
            (0..regions.len())
                .filter(|j| *j != i)
                .filter(|j| regions[i].iter().any(|u| regions[*j].iter().any(|v| c.weight(*u, *v).is_some())))
                .collect()
        })
        .collect();
    for s in 0..40u64 {
        let mut sq = Square::new(subgroups());
        let _ = seed(&mut sq, &c, &Seeding::default(), s);
        for v in sq.voices() {
            let foot = v.footprint();
            let spoke: BTreeSet<usize> = (0..regions.len())
                .filter(|i| foot.iter().any(|t| regions[*i].contains(t)))
                .collect();
            let start = *spoke.iter().next().unwrap();
            let mut seen = BTreeSet::from([start]);
            let mut frontier = vec![start];
            while let Some(i) = frontier.pop() {
                for j in &near[i] {
                    if spoke.contains(j) && seen.insert(*j) {
                        frontier.push(*j);
                    }
                }
            }
            assert_eq!(seen.len(), spoke.len(), "seed {s}, voice {:?}: not a walk", v.id);
        }
    }
}

#[test]
fn a_square_with_no_regions_is_silent() {
    let mut sq = Square::new(Vec::new());
    let out = seed(&mut sq, &city(), &Seeding::default(), 1);
    assert!(out.is_empty());
    assert!(sq.voices().is_empty());
}

#[test]
fn opening_a_square_registers_every_utterance_as_a_root() {
    let mut sq = Square::new(subgroups());
    let out = seed(&mut sq, &city(), &Seeding { voices: 2, posts_each: 2 }, 9);
    let mut f = Forum::new();
    let ids = open_square(&mut f, &sq, &out);
    assert_eq!(ids.len(), 4);
    for (k, id) in ids.iter().enumerate() {
        let p = f.get(*id).unwrap();
        assert!(p.is_root());
        assert!(p.act.is_none());
        assert_eq!(p.speaker, Speaker::Voice(out[k].voice));
        assert_eq!(p.terminus(), out[k].terminus);
        assert_eq!(p.emitted.record.get(), 0);
        assert_eq!(p.body, utterance_body(&sq, &out[k]));
    }
}

#[test]
fn an_utterance_body_names_its_region() {
    let sq = square_with(&[(0, 4)]);
    let u = closure::voice::Utterance { voice: VoiceId(0), terminus: 4 };
    assert_eq!(utterance_body(&sq, &u), "[carbon-composites] voice 0 speaking at 4");
    let lost = closure::voice::Utterance { voice: VoiceId(12), terminus: 40 };
    assert_eq!(utterance_body(&sq, &lost), "[the square] voice 12 speaking at 40");
}

fn num(n: u64) -> Value {
    Value::from(n)
}

fn error_value(e: String) -> Value {
    let mut m = serde_json::Map::new();
    m.insert("error".to_string(), Value::String(e));
    Value::Object(m)
}

#[test]
fn convergence_is_order_independent() {
    let subs = ["a", "b", "c", "d"];
    let mut first: Runtime<Value> = Runtime::new();
    for s in subs {
        first.converge(s, 1, vec![num(1)]);
    }
    let mut second: Runtime<Value> = Runtime::new();
    for s in subs.iter().rev() {
        second.converge(s, 1, vec![num(1)]);
    }
    assert_eq!(first.protocol_fingerprint(), second.protocol_fingerprint(), "Theorem 11.9");
}

#[test]
fn convergence_is_idempotent() {
    let mut rt: Runtime<Value> = Runtime::new();
    rt.converge("a", 1, vec![num(1)]);
    rt.converge("a", 0, vec![num(1)]);
    assert_eq!(rt.read("a").len(), 1);
    assert_eq!(rt.len(), 1);
}

#[test]
fn a_failing_chunk_does_not_halt_the_run() {
    let mut rt: Runtime<Value> = Runtime::new();
    let chunks: Vec<Box<dyn FnOnce() -> Result<Value, String>>> = vec![
        Box::new(|| Ok(num(1))),
        Box::new(|| Err(String::from("boom"))),
        Box::new(|| Ok(num(3))),
    ];
    let out = rt.execute("n", chunks, error_value);
    assert_eq!(out.len(), 3, "Corollary 11.6: every chunk ran");
    assert!(out[1].get("error").is_some(), "the anomaly is a value");
    assert_eq!(rt.read("n").len(), 3, "and it did not suppress the others");
    assert_eq!(rt.record(), 3);
}

#[test]
fn edges_are_produced_by_reading_not_declared() {
    let mut rt: Runtime<Value> = Runtime::new();
    rt.identify("a");
    rt.identify("b");
    assert!(rt.edges().is_empty(), "no edges before any reading");
    rt.emit("a", num(1), None);
    rt.emit("b", num(2), Some("a"));
    assert_eq!(rt.edges().len(), 1, "Proposition 11.12");
    rt.emit("b", num(3), Some("a"));
    rt.emit("b", num(4), Some("b"));
    assert_eq!(rt.edges().len(), 1, "an edge is held once, and a node does not cause itself");
    assert_eq!(rt.trajectory(), vec!["a", "b"]);
}

#[test]
fn the_fingerprint_is_sixteen_hex_digits_of_the_node_names() {
    let mut rt: Runtime<Value> = Runtime::new();
    let empty = rt.protocol_fingerprint();
    assert_eq!(empty, "e3b0c44298fc1c14", "the digest of nothing");
    rt.emit("b", num(1), None);
    rt.emit("a", num(2), None);
    let f = rt.protocol_fingerprint();
    assert_eq!(f.len(), 16);
    assert!(f.chars().all(|c| c.is_ascii_hexdigit() && !c.is_ascii_uppercase()));
    let mut other: Runtime<Value> = Runtime::new();
    other.identify("a");
    other.identify("b");
    assert_eq!(other.protocol_fingerprint(), f, "values are not read");
}

#[test]
fn reading_an_unknown_node_reads_nothing() {
    let rt: Runtime<Value> = Runtime::new();
    assert!(rt.read("nowhere").is_empty());
    assert!(rt.is_empty());
    assert_eq!(rt.record(), 0);
}

fn record(pairs: &[(&str, &str)]) -> SubstrateRecord {
    let mut r = Attributes::new();
    for (k, v) in pairs {
        r.insert((*k).to_owned(), (*v).to_owned());
    }
    r
}

fn population() -> Population<f64> {
    let mut shared = ContactGraph::new(6);
    for (u, v, w) in [(0, 1, 2.0), (1, 2, 3.0), (2, 3, 2.0), (3, 4, 4.0), (4, 5, 2.0), (0, 5, 3.0)] {
        shared.add_contact(u, v, w).unwrap();
    }
    let modules = vec![
        Module {
            name: "commuter".into(),
            members: (0..4).collect(),
            matches: vec![("age_band".into(), vec!["20-39".into(), "40-59".into()])],
        },
        Module {
            name: "resident".into(),
            members: (2..6).collect(),
            matches: vec![("origin".into(), vec!["local".into()])],
        },
    ];
    Population { modules, shared }
}

#[test]
fn matching_modules_are_reported_without_identity() {
    let pop = population();
    let r = record(&[("age_band", "20-39"), ("origin", "local")]);
    let names = pop.matching_modules(&r);
    assert_eq!(names, vec!["commuter", "resident"]);
}

#[test]
fn a_record_matching_nothing_admits_nowhere() {
    let pop = population();
    let r = record(&[("age_band", "0-19")]);
    assert!(pop.matching_modules(&r).is_empty());
    assert!(!pop.modules[0].admits(&r));
}

#[test]
fn a_later_value_replaces_an_earlier_one() {
    let mut r = record(&[("origin", "away"), ("age_band", "20-39")]);
    r.insert("origin".to_owned(), "local".to_owned());
    assert_eq!(r.len(), 2);
    assert_eq!(r.get("origin").unwrap(), "local");
    assert_eq!(r.entries()[0].0, "origin", "a key keeps its place");
    assert!(r.contains_key("age_band"));
    assert!(!r.contains_key("district"));
}

#[test]
fn an_identity_starts_with_nothing_settled_and_settles_once() {
    let mut id = Identity::new();
    assert!(id.is_empty());
    assert!(!id.has("car"));
    let first = id.ask(Some(2.0f64.to_bits()), "grundschule", &["Hirschengraben", "Wipkingen"]).unwrap();
    assert!(id.has("grundschule"));
    let again = id.ask(Some(7.0f64.to_bits()), "grundschule", &["Hirschengraben", "Wipkingen"]).unwrap();
    assert_eq!(first, again, "a settled answer is not re-rolled");
    assert_eq!(id.len(), 1);
    assert!(!id.has("car"));
}

#[test]
fn nothing_is_drawn_without_options_or_an_invariant() {
    let mut id = Identity::default();
    assert_eq!(id.ask(Some(1), "car", &[]), None);
    assert_eq!(id.ask(None, "car", &["yes", "no"]), None);
    assert!(id.is_empty());
}

#[test]
fn the_answer_is_drawn_by_the_fnv_hash_of_key_and_invariant() {
    let chi: u64 = 0x4000_0000_0000_0000;
    let mut h: u64 = 0xcbf2_9ce4_8422_2325;
    for b in "age-band".as_bytes().iter().chain(chi.to_be_bytes().iter()) {
        h ^= u64::from(*b);
        h = h.wrapping_mul(0x0000_0100_0000_01b3);
    }
    let options = ["a", "b", "c"];
    let expected = options[(h % 3) as usize];
    let mut id = Identity::new();
    assert_eq!(id.ask(Some(chi), "age-band", &options).unwrap(), expected);
    assert_eq!(id.settled().get("age-band").unwrap(), expected);
}

#[test]
fn a_moderator_is_cut_from_its_region_and_caps_to_a_footprint() {
    let c = city();
    let m = Moderator::new(&c, vec![2, 3, 4], |g: &ContactGraph<f64>| Some(g.order() as f64 / 4.0)).unwrap();
    assert_eq!(m.region(), &[2, 3, 4]);
    assert_eq!(m.graph().order(), 3);
    assert_eq!(m.graph().edges(), vec![(0, 1, 1.0), (1, 2, 2.0)]);
    assert_eq!(m.goal(), 0.75);
    let cap = m.cap(&c, &[4, 1, 3]);
    assert_eq!(cap.region, vec![3, 4]);
    assert_eq!(cap.contacts, vec![(3, 4, 2.0)]);
    assert!(Moderator::new(&c, vec![5], |_: &ContactGraph<f64>| None).is_none());
    assert_eq!(fresh().get(), 0);
}

#[test]
fn amalgamation_keeps_the_sharper_of_two_readings() {
    let faint = Cap { region: vec![0, 1], contacts: vec![(0, 1, 1.0)] };
    let sharp = Cap { region: vec![0, 1], contacts: vec![(0, 1, 4.0)] };
    let g = amalgamate(&[faint, sharp], f64::max).unwrap();
    assert_eq!(g.weight(0, 1), Some(4.0));
}

#[test]
fn amalgamating_caps_renumbers_the_union_of_their_regions() {
    let left = Cap { region: vec![7, 3], contacts: vec![(3, 7, 2.0)] };
    let right = Cap { region: vec![9, 7], contacts: vec![(7, 9, 1.0), (9, 40, 5.0)] };
    let g = amalgamate(&[left, right], f64::max).unwrap();
    assert_eq!(g.order(), 3);
    assert_eq!(g.edges(), vec![(0, 1, 2.0), (1, 2, 1.0)]);
    let lone = Cap { region: vec![4], contacts: vec![] };
    assert!(amalgamate(&[lone], f64::max).is_none(), "one position is nobody");
    let apart = Cap { region: vec![1, 2], contacts: vec![(5, 6, 1.0)] };
    assert!(amalgamate(&[apart], f64::max).is_none(), "no contact among the members");
    let c = Cap { region: vec![0, 1], contacts: vec![(0, 1, 3.0)] };
    let ch = Character::amalgamated(&[c], f64::max).unwrap();
    assert!(ch.identity.is_empty());
    let a = ch.prune("someone", Some(3.0));
    assert_eq!(a.record().get(), 0, "not yet an individual (Cor. 8.8)");
    assert_eq!(a.chi(), Some(3.0));
}

#[test]
fn a_round_reads_as_a_thread_with_no_visible_question() {
    let mut f = Forum::new();
    let answers = vec![
        Answer { speaker: Speaker::Agent("r/0".into()), body: "[r] about 2".into(), about: 2, act: Act { report: true, question: false } },
        Answer { speaker: Speaker::Agent("r/1".into()), body: "[r] about 2".into(), about: 2, act: Act::default() },
        Answer { speaker: Speaker::Agent("r/2".into()), body: "[r] about 2".into(), about: 2, act: Act { report: false, question: true } },
    ];
    let ids = post_round(&mut f, answers);
    assert_eq!(ids.len(), 3);
    assert!(f.get(ids[0]).unwrap().is_root());
    assert_eq!(f.get(ids[1]).unwrap().parent, Some(ids[0]));
    assert_eq!(f.get(ids[2]).unwrap().parent, Some(ids[0]));
    assert_eq!(f.thread(ids[0]).len(), 3);
    assert!(f.get(ids[1]).unwrap().act.unwrap().is_inert(), "an inert turn is measured, not absent");
    assert!(post_round(&mut f, Vec::new()).is_empty());
}

#[test]
fn relabelling_moves_contacts_and_keeps_weights() {
    let mut g = ContactGraph::<f64>::new(4);
    g.add_contact(0, 1, 1.5).unwrap();
    g.add_contact(2, 3, 2.5).unwrap();
    let h = g.relabel(&[3, 2, 1, 0]);
    assert_eq!(h.order(), 4);
    assert_eq!(h.edges(), vec![(0, 1, 2.5), (2, 3, 1.5)]);
}

#[test]
fn recency_order_is_newest_first() {
    let mut f = Forum::new();
    let a = f.register(None, Speaker::Player, "a", e(0), None);
    f.advance();
    let b = f.register(None, Speaker::Player, "b", e(0), None);
    let c = f.register(None, Speaker::Player, "c", e(0), None);
    assert_eq!(f.newest_first(&[a, b, c]), vec![c, b, a]);
    assert_eq!(f.newest_first(&[b, a]), vec![b, a]);
    assert!(f.newest_first(&[]).is_empty());
}

fn twelve() -> ContactGraph<f64> {
    let mut g = ContactGraph::new(12);
    for u in 0..11 {
        g.add_contact(u, u + 1, if u % 4 == 0 { 1.0 } else { 2.0 }).unwrap();
    }
    g.add_contact(0, 3, 1.5).unwrap();
    g.add_contact(4, 7, 1.5).unwrap();
    g.add_contact(8, 11, 1.5).unwrap();
    g
}

#[test]
fn a_blunted_contact_is_sharp_for_a_sibling() {
    let c = twelve();
    let m = Moderator::new(&c, (0..8).collect(), |_: &ContactGraph<f64>| Some(0.25)).unwrap();
    let parts = m.split(3, |w: f64| w * 0.5);
    assert_eq!(parts.len(), 3);
    for p in &parts {
        assert!(p.graph.is_connected(), "an instance that lost its region is absent, not ignorant");
        assert_eq!(p.goal(), m.goal(), "instances share the goal exactly");
    }
    for (u, v, w) in m.graph().edges() {
        assert!(
            parts.iter().any(|p| p.graph.weight(u, v) == Some(w)),
            "contact {u}-{v} is blunt for everyone"
        );
    }
    assert!(m.split(0, |w: f64| w).is_empty());
}

#[test]
fn splitting_is_deterministic() {
    let c = twelve();
    let m = Moderator::new(&c, (0..7).collect(), |_: &ContactGraph<f64>| Some(0.25)).unwrap();
    let a: Vec<_> = m.split(3, |w: f64| w * 0.5).iter().map(|i| i.graph.edges()).collect();
    let b: Vec<_> = m.split(3, |w: f64| w * 0.5).iter().map(|i| i.graph.edges()).collect();
    assert_eq!(a, b);
}

/// The least cut weight over every proper part of the positions.
fn separation(g: &ContactGraph<f64>) -> Option<f64> {
    let n = g.order();
    if n < 2 || g.edges().is_empty() {
        return None;
    }
    let mut best = f64::INFINITY;
    for mask in 1u64..(1u64 << (n - 1)) {
        let part: BTreeSet<Position> = (0..n).filter(|i| mask >> i & 1 == 1).collect();
        let cut: f64 = g
            .edges()
            .into_iter()
            .filter(|(u, v, _)| part.contains(u) != part.contains(v))
            .map(|(_, _, w)| w)
            .sum();
        best = best.min(cut);
    }
    best.is_finite().then_some(best)
}

/// A moderator's goal: a quarter of its separation cost.
fn quarter(g: &ContactGraph<f64>) -> Option<f64> {
    Some(separation(g)? * 0.25)
}

fn moderators() -> Vec<Moderator<f64>> {
    let c = city();
    subgroups()
        .into_iter()
        .filter_map(|s| Moderator::new(&c, s.members, quarter))
        .collect()
}

fn span(lo: Position, hi: Position) -> Vec<Position> {
    (lo..hi).collect()
}

#[test]
fn instances_are_the_same_character_not_different_ones() {
    let m = Moderator::new(&twelve(), span(0, 6), quarter).unwrap();
    let parts = m.split(3, |w: f64| w * 0.5);
    assert!(parts.iter().all(|i| i.goal() == m.goal()));
}

#[test]
fn two_subgroups_differ_only_by_region() {
    let c = twelve();
    let a = Moderator::new(&c, span(0, 5), quarter).unwrap();
    let b = Moderator::new(&c, span(0, 5), quarter).unwrap();
    assert_eq!(separation(a.graph()), separation(b.graph()));
    assert_eq!(a.goal(), b.goal());
}

#[test]
fn amalgamating_caps_reassembles_a_character() {
    let c = twelve();
    let m1 = Moderator::new(&c, span(0, 6), quarter).unwrap();
    let m2 = Moderator::new(&c, span(5, 12), quarter).unwrap();
    let heard: Vec<Position> = vec![1, 2, 3, 7, 8, 9];
    let caps = vec![m1.cap(&c, &heard), m2.cap(&c, &heard)];
    let ch = Character::amalgamated(&caps, f64::max).expect("a character to reassemble");
    assert!(separation(&ch.graph).is_some(), "the reassembly has an invariant");
}

#[test]
fn a_character_prunes_to_an_agent_with_no_history() {
    let c = twelve();
    let m = Moderator::new(&c, span(0, 6), quarter).unwrap();
    let heard: Vec<Position> = vec![1, 2, 3, 4];
    let ch = Character::amalgamated(&[m.cap(&c, &heard)], f64::max).unwrap();
    let a = ch.prune("someone", separation(&ch.graph));
    assert_eq!(a.record().get(), 0, "not yet an individual (Cor. 8.8)");
    assert_eq!(a.chi(), separation(&ch.graph), "the character is what was pruned");
}

#[test]
fn an_identity_starts_with_nothing_settled() {
    let ch = {
        let c = twelve();
        let m = Moderator::new(&c, span(0, 6), quarter).unwrap();
        let heard: Vec<Position> = vec![1, 2, 3];
        Character::amalgamated(&[m.cap(&c, &heard)], f64::max).unwrap()
    };
    assert!(ch.identity.is_empty(), "nothing is true of them until something asks");
    assert!(!ch.identity.has("car"));
}

#[test]
fn moderator_an_attribute_exists_only_once_it_is_asked_for() {
    let c = twelve();
    let m = Moderator::new(&c, span(0, 6), quarter).unwrap();
    let heard: Vec<Position> = vec![1, 2, 3, 4];
    let mut ch = Character::amalgamated(&[m.cap(&c, &heard)], f64::max).unwrap();
    let chi = separation(&ch.graph).map(f64::to_bits);

    assert!(!ch.identity.has("grundschule"));
    let first = ch.identity.ask(chi, "grundschule", &["Hirschengraben", "Wipkingen"]).unwrap();
    assert!(ch.identity.has("grundschule"));

    let again = ch.identity.ask(chi, "grundschule", &["Hirschengraben", "Wipkingen"]).unwrap();
    assert_eq!(first, again);

    assert_eq!(ch.identity.len(), 1, "only what was asked exists");
    assert!(!ch.identity.has("car"));
    assert!(!ch.identity.has("music"));
}

#[test]
fn identity_is_a_solution_space_not_a_person() {
    let c = twelve();
    let m = Moderator::new(&c, span(0, 8), quarter).unwrap();
    let heard: Vec<Position> = vec![1, 2, 3, 4, 5];
    let mut ch = Character::amalgamated(&[m.cap(&c, &heard)], f64::max).unwrap();
    let chi = separation(&ch.graph).map(f64::to_bits);
    ch.identity.ask(chi, "age-band", &["30-45", "45-60"]);
    ch.identity.ask(chi, "education", &["apprenticeship", "tertiary"]);
    assert_eq!(ch.identity.len(), 2);
    assert!(
        !ch.identity.has("car") && !ch.identity.has("district"),
        "the rest is generated on demand, or never"
    );
}

#[test]
fn being_audible_in_several_regions_needs_no_reconciling() {
    let (c, mods) = (city(), moderators());
    let sq = square_with(&[(0, 1), (0, 2), (0, 3), (0, 4)]);
    let heard = sq.audible_to(VoiceId(0), &mods);
    assert!(heard.len() > 1);
    assert!(
        sq.character(VoiceId(0), &c, &mods, f64::max).is_some(),
        "overlap is the ordinary case, not a conflict to resolve"
    );
}

#[test]
fn pruning_a_voice_yields_an_agent_with_a_record_at_zero() {
    let (c, mods) = (city(), moderators());
    let sq = square_with(&[(0, 0), (0, 1), (0, 2)]);
    let name = sq.voice(VoiceId(0)).unwrap().name.clone();
    let ch = sq.character(VoiceId(0), &c, &mods, f64::max).unwrap();
    let a = ch.prune(&name, separation(&ch.graph));
    assert_eq!(a.record().get(), 0, "not yet an individual");
}

#[test]
fn pruning_asks_for_no_profile_because_none_was_ever_listed() {
    let (c, mods) = (city(), moderators());
    let sq = square_with(&[(0, 0), (0, 1), (0, 2)]);
    let mut ch = sq.character(VoiceId(0), &c, &mods, f64::max).unwrap();
    assert!(ch.identity.is_empty(), "nothing is true of them yet");
    let chi = separation(&ch.graph).map(f64::to_bits);
    ch.identity.ask(chi, "age-band", &["30-45", "45-60"]);
    assert_eq!(ch.identity.len(), 1, "only what was asked exists");
}


#[test]
fn ranging_wider_reaches_more_of_the_character() {
    let (c, mods) = (city(), moderators());
    let narrow = square_with(&[(0, 1)]);
    assert_eq!(narrow.audible_to(VoiceId(0), &mods).len(), 1);
    let wide = square_with(&[(0, 1), (0, 3), (0, 4)]);
    assert_eq!(wide.audible_to(VoiceId(0), &mods).len(), 2);
    let ch = wide.character(VoiceId(0), &c, &mods, f64::max).unwrap();
    assert!(ch.graph.order() > 1, "more posts is more character, not a contradiction");
}

#[test]
fn a_voice_too_narrow_to_be_anyone_yields_no_character() {
    let (c, mods) = (city(), moderators());
    let sq = square_with(&[(0, 5)]);
    assert!(sq.character(VoiceId(0), &c, &mods, f64::max).is_none());
}

#[test]
fn an_unknown_voice_has_no_character() {
    let (c, mods) = (city(), moderators());
    let sq = square_with(&[(0, 1)]);
    assert!(sq.character(VoiceId(99), &c, &mods, f64::max).is_none());
    assert!(sq.audible_to(VoiceId(99), &mods).is_empty());
}

#[test]
fn pruning_narrows_to_the_overlap_of_the_modules_a_record_falls_in() {
    let pop = population();
    let none = record(&[("nothing", "matches")]);
    assert_eq!(pop.prune_members(&none), None);
    let both = record(&[("age_band", "20-39"), ("origin", "local")]);
    assert_eq!(pop.prune_members(&both), Some(vec![2, 3]));
    let one = record(&[("age_band", "40-59")]);
    assert_eq!(pop.prune_members(&one), Some(vec![0, 1, 2, 3]));
}

#[test]
fn the_default_act_is_inert() {
    let a = Act::default();
    assert!(a.is_inert());
    assert!(!a.is_both());
}
