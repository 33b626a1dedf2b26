use std::collections::BTreeSet;
use closure::closure::{Consideration, Reach, Region, commits_to, is_closed, reach};
use closure::graph::ContactGraph;
use closure::identity::{Agent, Phase, Record};
use closure::invariants::{InvariantViolation, invariants, refusals};
use closure::outcome::{Outcome, Route, classify};
use closure::psychon::Psychon;
use closure::token::SessionToken;
use closure::Error;

fn region(xs: &[u32]) -> Region {
    Region::new(xs)
}

fn setup() -> (Consideration, Consideration) {
    let a = Consideration::new("a", 0, region(&[0, 1, 2])).with_provenance("verified");
    let b = Consideration::new("b", 0, region(&[3, 4, 5])).with_provenance("rumour");
    (a, b)
}

#[test]
fn closure_is_stronger_than_any_threshold() {
    let (a, b) = setup();
    assert!(
        !is_closed(0, std::slice::from_ref(&a), &[a.clone(), b]),
        "Theorem 4.6"
    );
    let only_a = [a];
    assert!(is_closed(0, &only_a, &only_a), "closed once nothing else reaches");
}

#[test]
fn provenance_is_not_read() {
    let (a, b) = setup();
    let base = is_closed(0, std::slice::from_ref(&a), &[a.clone(), b.clone()]);
    let a2 = a.with_provenance("something else entirely");
    let b2 = b.with_provenance("and another");
    assert_eq!(base, is_closed(0, std::slice::from_ref(&a2), &[a2.clone(), b2]), "Theorem 4.9");
}

#[test]
fn truth_is_not_read() {
    let (a, b) = setup();
    let base = is_closed(0, std::slice::from_ref(&a), &[a.clone(), b.clone()]);
    let a2 = a.with_veridical(false);
    let b2 = b.with_veridical(false);
    assert_eq!(base, is_closed(0, std::slice::from_ref(&a2), &[a2.clone(), b2]), "Theorem 4.11");
}

#[test]
fn availability_is_not_monotone() {
    let a = Consideration::new("a", 0, region(&[0, 1]));
    let existing = [a.clone()];
    assert!(is_closed(0, &existing, &existing));
    let newcomer = Consideration::new("n", 0, region(&[7, 8]));
    assert!(!is_closed(0, &existing, &[a, newcomer]));
}

#[test]
fn a_newcomer_reaching_a_known_region_keeps_the_search_closed() {
    let a = Consideration::new("a", 0, region(&[0, 1]));
    let echo = Consideration::new("echo", 0, region(&[1, 0]));
    let existing = [a.clone()];
    assert!(is_closed(0, &existing, &[a, echo]));
}

#[test]
fn nothing_available_leaves_the_search_closed() {
    let a = Consideration::new("a", 0, region(&[0, 1]));
    assert!(is_closed(0, &[a], &[]), "every available consideration (none) is already reached");
}

#[test]
fn commitment_needs_closure_and_reach() {
    let (a, b) = setup();
    let ra = region(&[0, 1, 2]);
    let only_a = [a.clone()];
    assert!(commits_to(0, &ra, &only_a, &only_a));
    assert!(!commits_to(0, &ra, &only_a, &[a.clone(), b]));
    assert!(!commits_to(0, &region(&[9]), &only_a, &only_a));
    assert!(!commits_to(1, &ra, &only_a, &only_a), "a seed nothing resolves reaches nothing");
}

#[test]
fn reach_holds_each_region_once() {
    let a = Consideration::new("a", 0, region(&[0, 1]));
    let b = Consideration::new("b", 0, region(&[1, 0, 1]));
    let c = Consideration::new("c", 0, region(&[5]));
    let r = reach(0, &[a, b, c]);
    assert_eq!(r.len(), 2);
    assert!(r.contains(&region(&[0, 1])));
    assert!(r.contains(&region(&[5])));
}

#[test]
fn invariants_are_indexed_in_order() {
    for (i, inv) in invariants().iter().enumerate() {
        assert_eq!(inv.index as usize, i + 1);
    }
}

#[test]
fn all_three_routes_are_reachable() {
    let (a, b) = (region(&[0, 1]), region(&[2, 3]));
    let unreachable = region(&[9]);
    let mut sufficient = Reach::empty();
    sufficient.insert(a.clone());
    sufficient.insert(b.clone());
    let ca = Consideration::new("a", 0, a.clone());
    let cb = Consideration::new("b", 0, b.clone());

    let just_a = [ca.clone()];
    let a_and_b = [ca, cb];

    assert_eq!(classify(0, &a, &just_a, &just_a, &sufficient), Route::Committed);
    assert_eq!(classify(0, &b, &just_a, &just_a, &sufficient), Route::Ignorance);
    assert_eq!(classify(0, &a, &just_a, &a_and_b, &sufficient), Route::Inertia);
    assert_eq!(classify(0, &unreachable, &just_a, &just_a, &sufficient), Route::Confusion);
}

#[test]
fn declination_carries_at_least_two_regions() {
    let mut r = Reach::empty();
    r.insert(region(&[0]));
    r.insert(region(&[1]));
    match Outcome::from_reach(r).unwrap() {
        Outcome::Declined { cells } => assert!(cells.len() >= 2),
        Outcome::Resolved { .. } => panic!("expected a declination"),
    }
}

#[test]
fn a_single_region_resolves_and_none_is_no_outcome() {
    let mut r = Reach::empty();
    r.insert(region(&[4, 2]));
    match Outcome::from_reach(r).unwrap() {
        Outcome::Resolved { cell } => assert!(cell.same_as(&region(&[2, 4]))),
        Outcome::Declined { .. } => panic!("expected a resolution"),
    }
    assert!(Outcome::from_reach(Reach::empty()).is_none());
}

fn opacity_pair() -> (Psychon, Psychon) {
    let (bot, a, b) = (0, 1, 2);
    let mut g1 = Psychon::new(bot);
    for v in [a, bot, b, bot] {
        g1.step(v);
    }
    let mut g2 = Psychon::new(bot);
    for v in [b, bot, a, bot] {
        g2.step(v);
    }
    (g1, g2)
}

#[test]
fn thm_5_4_distinct_walks_emit_identically() {
    let (g1, g2) = opacity_pair();
    assert_eq!(g1.emit(), g2.emit(), "Theorem 5.4: same terminus, same record");
}

#[test]
fn the_record_advances_on_every_step() {
    let mut p = Psychon::new(0);
    assert_eq!(p.record().get(), 0);
    p.step(1);
    p.step(0);
    assert_eq!(p.record().get(), 2, "every step deposits");
    assert_eq!(p.steps(), 2);
}

#[test]
fn a_returning_walk_does_not_return_the_record() {
    let mut p = Psychon::new(4);
    p.step(9);
    p.step(4);
    assert_eq!(p.terminus(), 4, "same place");
    assert_eq!(p.record().get(), 2, "later time");
}

#[test]
fn emission_carries_the_terminus_and_the_record_only() {
    let mut p = Psychon::new(3);
    p.step(8);
    let e = p.emit();
    assert_eq!(e.terminus, 8);
    assert_eq!(e.record, p.record());
}

#[test]
fn a_resumed_psychon_keeps_its_record() {
    let mut r = Record::new();
    r.commit();
    r.commit();
    let mut p = Psychon::resumed(5, r);
    assert_eq!(p.record().get(), 2);
    p.step(6);
    assert_eq!(p.record().get(), 3);
    assert_eq!(p.steps(), 1);
}

fn rng() -> closure::rng::SeededRng {
    closure::rng::SeededRng::new(20260902)
}

#[test]
fn generated_tokens_round_trip() {
    let mut r = rng();
    for _ in 0..256 {
        let t = SessionToken::generate(&mut r);
        assert_eq!(SessionToken::parse(t.as_str()).unwrap(), t);
    }
}

#[test]
fn parsing_is_forgiving_about_case_and_dashes() {
    let mut r = rng();
    let t = SessionToken::generate(&mut r);
    let mangled = t.as_str().to_ascii_lowercase().replace('-', " ");
    assert_eq!(SessionToken::parse(&mangled).unwrap(), t);
}

#[test]
fn ambiguous_characters_are_rejected() {
    assert!(SessionToken::parse("CLOSURE-OOOO-1111-IIII").is_err());
}

#[test]
fn wrong_length_is_rejected() {
    assert!(SessionToken::parse("CLOSURE-ABC").is_err());
}

#[test]
fn token_errors_say_what_was_wrong() {
    match SessionToken::parse("CLOSURE-ABC") {
        Err(Error::Token(m)) => assert_eq!(m, "expected 12 characters after the prefix, got 3"),
        _ => panic!("expected a token error"),
    }
    match SessionToken::parse("CLOSURE-OOOO-1111-IIII") {
        Err(Error::Token(m)) => assert_eq!(m, "character 'O' is not in the token alphabet"),
        _ => panic!("expected a token error"),
    }
    let e = SessionToken::parse("x").unwrap_err();
    assert_eq!(e.message(), "malformed token: expected 12 characters after the prefix, got 1");
}

#[test]
fn a_token_parses_to_its_canonical_form() {
    let t = SessionToken::parse("  closure abcd efgh jkmn ").unwrap();
    assert_eq!(t.as_str(), "CLOSURE-ABCD-EFGH-JKMN");
    let bare = SessionToken::parse("abcd-efgh-jkmn").unwrap();
    assert_eq!(bare, t);
}

fn agent() -> Agent<f64> {
    let mut g = ContactGraph::<f64>::new(3);
    g.add_contact(0, 1, 2.0).unwrap();
    g.add_contact(1, 2, 3.0).unwrap();
    g.add_contact(0, 2, 2.0).unwrap();
    Agent::new("t".to_string(), g, Some(4.0))
}

#[test]
fn undo_raises_the_record() {
    let a = agent();
    let mut r = a.record();
    let before = r.get();
    r.undo();
    assert!(r.get() > before, "Theorem 5.9(ii)");
}

#[test]
fn determination_deposits_before_returning() {
    let mut a = agent();
    let before = a.record();
    let order = a.determine(|g: &ContactGraph<f64>| g.order()).unwrap();
    assert_eq!(order, 3);
    assert!(a.record() > before, "Invariant 4");
}

#[test]
fn acts_are_refused_during_construction() {
    let mut a = agent();
    a.set_phase(Phase::Construction);
    assert!(
        matches!(a.determine(|_: &ContactGraph<f64>| ()), Err(InvariantViolation::PhaseExclusion)),
        "Invariant 5"
    );
    assert_eq!(a.record().get(), 0, "a refused act deposits nothing");
    a.set_phase(Phase::Commitment);
    assert!(a.determine(|_: &ContactGraph<f64>| ()).is_ok());
}

#[test]
fn a_fresh_copy_is_not_the_original() {
    let mut a = agent();
    a.determine(|_: &ContactGraph<f64>| ()).unwrap();
    let copy = Agent::new("t".to_string(), a.graph.clone(), a.chi());
    assert_eq!(a.chi(), copy.chi(), "same invariant");
    assert_ne!(a.record(), copy.record(), "different individual (Thm 5.9(iii))");
}

#[test]
fn violations_and_errors_carry_their_messages() {
    assert_eq!(
        InvariantViolation::MissingDeposit.message(),
        "Invariant 4: determination returned without advancing the record"
    );
    assert_eq!(
        Error::Invariant(InvariantViolation::PhaseExclusion).message(),
        "invariant violated: Invariant 5: no act may be emitted during a construction phase"
    );
    assert_eq!(Error::Graph("x".to_string()).message(), "malformed contact graph: x");
}

#[test]
fn a_contact_graph_is_simple_and_keeps_the_last_weight() {
    let mut g = ContactGraph::<f64>::new(4);
    assert!(g.add_contact(1, 1, 1.0).is_err(), "no self-loops");
    g.add_contact(2, 0, 1.0).unwrap();
    g.add_contact(0, 2, 5.0).unwrap();
    assert_eq!(g.weight(2, 0), Some(5.0));
    assert_eq!(g.weight(0, 1), None);
    assert_eq!(g.edges(), vec![(0, 2, 5.0)]);
    assert!(!g.is_connected());
    g.add_contact(1, 2, 1.0).unwrap();
    g.add_contact(3, 1, 1.0).unwrap();
    assert!(g.is_connected());
}

#[test]
fn the_induced_subgraph_is_renumbered_in_order() {
    let mut g = ContactGraph::<f64>::new(6);
    g.add_contact(1, 3, 2.0).unwrap();
    g.add_contact(3, 5, 4.0).unwrap();
    g.add_contact(0, 1, 7.0).unwrap();
    let h = g.induced(&[5, 3, 1]);
    assert_eq!(h.order(), 3);
    assert_eq!(h.edges(), vec![(0, 1, 2.0), (1, 2, 4.0)]);
}

#[test]
fn regions_are_held_in_the_order_of_their_positions() {
    assert_eq!(region(&[2, 1, 2]).positions(), &[1, 2]);
    let mut r = Reach::empty();
    r.insert(region(&[3, 4]));
    r.insert(region(&[2, 1]));
    r.insert(region(&[1]));
    r.insert(region(&[4, 3]));
    let listed: Vec<Vec<u32>> = r.regions().iter().map(|g| g.positions().to_vec()).collect();
    assert_eq!(listed, vec![vec![1], vec![1, 2], vec![3, 4]]);
}

#[test]
fn the_same_seed_mints_the_same_token() {
    let a = SessionToken::generate(&mut closure::rng::SeededRng::new(42));
    let b = SessionToken::generate(&mut closure::rng::SeededRng::new(42));
    assert_eq!(a, b);
    let mut rng = closure::rng::SeededRng::new(42);
    let first = SessionToken::generate(&mut rng);
    assert_eq!(first, a);
    let mut differs = false;
    for _ in 0..8 {
        if SessionToken::generate(&mut rng) != a {
            differs = true;
        }
    }
    assert!(differs, "the generator moves on after a token");
}

#[test]
fn a_minted_token_draws_every_character_from_the_alphabet() {
    let mut seen = BTreeSet::new();
    let mut rng = closure::rng::SeededRng::new(7);
    for _ in 0..64 {
        let t = SessionToken::generate(&mut rng);
        let s = t.as_str().to_owned();
        for c in s.chars().skip("CLOSURE-".len()).filter(|c| *c != '-') {
            assert!(c.is_ascii_digit() || c.is_ascii_uppercase());
            assert!(!"01IO".contains(c), "no ambiguous characters");
            seen.insert(c);
        }
    }
    assert!(seen.len() > 20, "draws are spread over the alphabet");
}

#[test]
fn the_three_refusals_are_stated_in_order() {
    let r = refusals();
    assert_eq!(r.len(), 3);
    assert_eq!(r[0].capability, "success or failure verdict");
    assert_eq!(r[1].certified_by, "Theorem 12.9, Theorem 11.15");
    assert_eq!(r[2].capability, "instance-fitted effect sizes");
}
