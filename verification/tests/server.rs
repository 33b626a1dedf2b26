use closure::cli::{Config, Context, credential, default_web};
use closure::graph::{ContactGraph, Position};
use closure::moderator::Moderator;
use closure::session::{city_name, default_city, routes, seed_from, CITY_NAME_LIMIT};
use closure::society::{Affordance, Society, affordance_for, weave, Region};
use closure::token::SessionToken;
use closure::voice::{Seeding, Square, Subgroup, seed};
use closure::weather::{after_fetch, before_fetch, considers, register_observation};
use closure::forum::{Forum, Speaker};
use closure::node::Runtime;
use std::collections::BTreeSet;

fn seeds() -> impl Iterator<Item = u64> {
    (0..64u64).map(|i| i.wrapping_mul(0x9E37_79B9_7F4A_7C15))
}

fn generate(s: u64) -> Society<f64> {
    Society::generate(s, 2.0, 1.0)
}

#[test]
fn the_separator_keeps_a_name_from_bleeding_into_a_token() {
    assert_ne!(seed_from("AB", "C"), seed_from("A", "BC"));
}

#[test]
fn the_seed_is_fnv_over_token_zero_and_name() {
    let mut h: u64 = 0xcbf2_9ce4_8422_2325;
    for b in "T".bytes().chain([0u8]).chain("kigali".bytes()) {
        h ^= u64::from(b);
        h = h.wrapping_mul(0x0000_0100_0000_01b3);
    }
    assert_eq!(seed_from("T", "kigali"), h);
}

#[test]
fn naming_a_different_city_opens_a_different_society() {
    let mut rng = closure::rng::SeededRng::new(5);
    let token = SessionToken::generate(&mut rng);
    let a = seed_from(token.as_str(), "kigali");
    let b = seed_from(token.as_str(), "zuerich");
    assert_ne!(a, b);
    assert_ne!(
        generate(a).regions.len() * 100 + generate(a).order() as usize,
        generate(b).regions.len() * 100 + generate(b).order() as usize,
        "two names drew the same shape; unlucky, but check the mixing"
    );
}

#[test]
fn the_same_name_and_token_reopen_the_same_square() {
    let mut rng = closure::rng::SeededRng::new(6);
    let token = SessionToken::generate(&mut rng);
    assert_eq!(seed_from(token.as_str(), "kigali"), seed_from(token.as_str(), "kigali"));
}

#[test]
fn no_route_reports_a_verdict_or_an_attribution() {
    let forbidden = [
        "score", "progress", "win", "lose", "attribution", "succeeded", "rank", "vote", "karma",
        "top", "best",
    ];
    for route in routes() {
        for word in forbidden {
            assert!(!route.contains(word), "route {route} would report a verdict");
        }
    }
    assert_eq!(routes().len(), 13);
}

#[test]
fn a_city_is_any_trimmed_name_of_bounded_length() {
    assert_eq!(city_name("  kigali ").unwrap(), "kigali");
    assert_eq!(city_name("valparaíso").unwrap(), "valparaíso");
    assert_eq!(city_name("   ").unwrap_err(), "a city needs a name; any name will do");
    let long = "x".repeat(CITY_NAME_LIMIT + 1);
    assert_eq!(city_name(&long).unwrap_err(), "that city name is too long to carry around");
    let edge = "é".repeat(CITY_NAME_LIMIT);
    assert_eq!(city_name(&edge).unwrap(), edge, "the limit counts characters, not bytes");
    assert_eq!(default_city(), "somewhere");
}

#[test]
fn the_same_seed_generates_the_same_society() {
    for s in seeds().take(8) {
        let a = generate(s);
        let b = generate(s);
        assert_eq!(a.order(), b.order());
        let names = |x: &Society<f64>| x.regions.iter().map(|r| r.name.clone()).collect::<Vec<_>>();
        assert_eq!(names(&a), names(&b));
        for u in 0..a.order() {
            for v in 0..a.order() {
                assert_eq!(a.graph.weight(u, v), b.graph.weight(u, v));
            }
        }
    }
}

#[test]
fn different_seeds_generate_different_societies() {
    let shapes: BTreeSet<(u32, usize)> = seeds()
        .map(|s| {
            let x = generate(s);
            (x.order(), x.regions.len())
        })
        .collect();
    assert!(shapes.len() > 4, "got {shapes:?}");
}

#[test]
fn no_society_is_the_old_zuerich() {
    for s in seeds() {
        for r in generate(s).regions {
            assert_ne!(r.name, "watersports");
            assert_ne!(r.name, "eth-materials");
        }
    }
}

#[test]
fn neighbouring_regions_overlap() {
    for s in seeds() {
        let soc = generate(s);
        let subs = soc.subgroups();
        for w in subs.windows(2) {
            let a: BTreeSet<Position> = w[0].members.iter().copied().collect();
            assert!(w[1].members.iter().any(|p| a.contains(p)), "seed {s}");
        }
    }
}

#[test]
fn some_region_is_indoors_and_some_is_not() {
    let kinds: BTreeSet<Affordance> = seeds()
        .flat_map(|s| generate(s).regions.into_iter().map(|r| r.affords).collect::<Vec<_>>())
        .collect();
    assert!(kinds.contains(&Affordance::Indoors));
    assert!(kinds.len() >= 3, "got {kinds:?}");
}

#[test]
fn the_regions_cover_the_graph_and_nothing_beyond_it() {
    for s in seeds() {
        let soc = generate(s);
        let covered: BTreeSet<Position> = soc.subgroups().into_iter().flat_map(|g| g.members).collect();
        assert_eq!(covered, (0..soc.order()).collect::<BTreeSet<_>>(), "seed {s}");
    }
}

#[test]
fn the_cheapest_cut_is_at_a_boundary_not_inside_a_region() {
    for s in seeds() {
        let soc = generate(s);
        let starts: BTreeSet<Position> = soc.regions.iter().map(|r| r.span.0).collect();
        for u in 0..soc.order() {
            for v in (u + 1)..soc.order() {
                let Some(w) = soc.graph.weight(u, v) else {
                    continue;
                };
                let crosses = v == u + 1 && starts.contains(&v);
                if crosses {
                    assert!((w - 1.0f64).abs() < 1e-9, "seed {s}: {u}-{v} at {w}");
                } else {
                    assert!(w >= 1.0, "seed {s}: {u}-{v} at {w}");
                }
            }
        }
    }
}

#[test]
fn every_region_is_connected_along_its_span() {
    for s in seeds() {
        let soc = generate(s);
        for r in &soc.regions {
            for u in r.span.0..r.span.1 - 1 {
                assert!(soc.graph.weight(u, u + 1).is_some(), "seed {s}");
            }
            assert!((4..=8).contains(&(r.span.1 - r.span.0)));
        }
        assert!((5..=9).contains(&soc.regions.len()));
    }
}

#[test]
fn a_region_is_found_by_name_and_its_affordance_read() {
    let soc = generate(17);
    let first = &soc.regions[0];
    assert_eq!(soc.affordance_of(&first.name), Some(first.affords));
    assert_eq!(soc.affordance_of("nowhere-at-all"), None);
    assert!(first.name.contains('-'));
}

#[test]
fn a_weave_joins_every_neighbour_and_adds_chords_inside_regions() {
    let regions = vec![
        Region { name: "a-b".into(), span: (0, 5), affords: Affordance::Open },
        Region { name: "c-d".into(), span: (3, 8), affords: Affordance::Water },
    ];
    let mut rng = closure::rng::SeededRng::new(1);
    let g = weave(8, &regions, &mut rng, 2u8, 1u8);
    for u in 0..7u32 {
        let w = g.weight(u, u + 1).unwrap();
        assert_eq!(w, if u + 1 == 3 { 1 } else { 2 });
    }
    for (u, v, w) in g.edges() {
        if v != u + 1 {
            assert!(v >= u + 2 && w == 2);
            assert!(regions.iter().any(|r| r.span.0 <= u && v < r.span.1));
        }
    }
}

#[test]
fn a_society_is_habitable_at_any_seed() {
    for i in 0..32usize {
        let s = (i as u64).wrapping_mul(0x9E37_79B9_7F4A_7C15) ^ 0x5EED;
        let soc = generate(s);
        let mut square = Square::new(soc.subgroups());
        let _ = seed(&mut square, &soc.graph, &Seeding::default(), s);
        assert!(!square.voices().is_empty(), "seed {s}: nobody is talking");
        assert!(square.voices().iter().all(|v| !v.spoken_at.is_empty()));
    }
}

#[test]
fn a_url_joins_host_and_path_with_one_slash() {
    let ctx = Context { host: "https://api.example//".to_string(), json: false };
    assert_eq!(ctx.url("//v1/session"), "https://api.example/v1/session");
    assert_eq!(ctx.url("health"), "https://api.example/health");
}

#[test]
fn a_credential_is_read_or_its_absence_explained() {
    let mut cfg = Config::default();
    assert_eq!(cfg.web, "");
    assert_eq!(credential(&cfg).unwrap_err(), "not logged in; run `closure login` first");
    cfg.credential = Some("dev-1".to_string());
    assert_eq!(credential(&cfg).unwrap(), "dev-1");
    assert_eq!(default_web(), "https://play.closure.city");
}

#[test]
fn what_is_under_a_roof_is_never_reached() {
    for windy in [false, true] {
        for wet in [false, true] {
            for harsh in [false, true] {
                for code in [0, 3, 45, 61, 95] {
                    let c = considers(windy, wet, harsh, code);
                    assert!(!c.contains(&Affordance::Indoors));
                    for s in seeds().take(8) {
                        let soc = generate(s);
                        let reached = soc.reached_by(&c);
                        for r in &soc.regions {
                            if r.affords == Affordance::Indoors {
                                assert!(!reached.contains(&r.name), "seed {s}: {}", r.name);
                            }
                        }
                    }
                }
            }
        }
    }
}

#[test]
fn an_ordinary_day_is_a_consideration_for_nothing() {
    let c = considers(false, false, false, 0);
    assert!(c.is_empty());
    for s in seeds() {
        assert!(generate(s).reached_by(&c).is_empty());
    }
}

#[test]
fn a_region_is_reached_once_however_many_rules_name_it() {
    let c = considers(false, true, true, 45);
    assert_eq!(c.iter().filter(|a| **a == Affordance::Transit).count(), 1, "got {c:?}");
    assert_eq!(c, vec![Affordance::Transit, Affordance::Open, Affordance::Water]);
    for s in seeds() {
        let r = generate(s).reached_by(&c);
        let soc = generate(s);
        let expected: Vec<String> = soc
            .regions
            .iter()
            .filter(|x| c.contains(&x.affords))
            .map(|x| x.name.clone())
            .collect();
        assert_eq!(r, expected);
    }
}

#[test]
fn wind_is_a_consideration_for_water_and_nothing_else() {
    assert_eq!(considers(true, false, false, 0), vec![Affordance::Water]);
}

#[test]
fn a_report_lands_only_where_a_region_has_a_character() {
    let mut city: ContactGraph<f64> = ContactGraph::new(6);
    city.add_contact(0, 1, 2.0).unwrap();
    city.add_contact(2, 3, 2.0).unwrap();
    city.add_contact(4, 5, 2.0).unwrap();
    let square = Square::new(vec![
        Subgroup { name: String::from("harbour"), members: vec![0, 1] },
        Subgroup { name: String::from("market"), members: vec![2, 3] },
        Subgroup { name: String::from("hill"), members: vec![4, 5] },
    ]);
    let mods = vec![
        Moderator::new(&city, vec![4, 5], |_: &ContactGraph<f64>| Some(0.5)).unwrap(),
        Moderator::new(&city, vec![0, 1], |_: &ContactGraph<f64>| Some(0.5)).unwrap(),
    ];
    let termini: Vec<Option<Position>> = vec![None, Some(1)];
    let reached = vec![
        String::from("nowhere"),
        String::from("harbour"),
        String::from("market"),
        String::from("hill"),
    ];
    // "nowhere" is no region, "market" has no character, and the hill's
    // character has no terminus: only the harbour is landed on.
    assert_eq!(square.landings(&mods, &termini, &reached), vec![(1usize, 1u32)]);
    let everywhere: Vec<Option<Position>> = vec![Some(4), Some(0)];
    assert_eq!(square.landings(&mods, &everywhere, &reached), vec![(1usize, 0u32), (3usize, 4u32)]);
}

/// The least cut weight over every proper part of the positions.
fn least_cut(g: &ContactGraph<f64>) -> Option<f64> {
    let n = g.order();
    if n < 2 || g.edges().is_empty() {
        return None;
    }
    let mut best = f64::INFINITY;
    for mask in 1u64..(1u64 << (n - 1)) {
        let part: BTreeSet<Position> = (0..n).filter(|i| mask >> i & 1 == 1).collect();
        let cut: f64 = g
            .edges()
            .into_iter()
            .filter(|(u, v, _)| part.contains(u) != part.contains(v))
            .map(|(_, _, w)| w)
            .sum();
        best = best.min(cut);
    }
    best.is_finite().then_some(best)
}

fn characters_of(soc: &Society<f64>) -> Vec<Moderator<f64>> {
    soc.subgroups()
        .into_iter()
        .filter_map(|s| Moderator::new(&soc.graph, s.members, |g: &ContactGraph<f64>| Some(least_cut(g)? * 0.25)))
        .collect()
}

#[test]
fn a_moderator_is_not_a_roster() {
    for s in seeds().take(16) {
        for m in characters_of(&generate(s)) {
            assert!(m.region().len() > 1);
            assert_eq!(m.graph().order() as usize, m.region().len());
        }
    }
}

#[test]
fn the_reach_is_blind_to_how_extreme_the_reading_is() {
    // 26.7 °C and -5 °C, both at 30 km/h with no rain and code 0: windy,
    // dry, and harsh either way.
    let hot = considers(true, false, true, 0);
    let cold = considers(true, false, true, 0);
    assert_eq!(hot, cold);
    for s in seeds() {
        let soc = generate(s);
        assert_eq!(soc.reached_by(&hot), soc.reached_by(&cold));
    }
}

#[test]
fn the_same_weather_reaches_different_places_in_different_societies() {
    // 30 °C, 30 km/h, 5 mm, code 45: every rule trips.
    let c = considers(true, true, true, 45);
    let shapes: BTreeSet<Vec<String>> = seeds().map(|s| generate(s).reached_by(&c)).collect();
    assert!(shapes.len() > 4, "got {} distinct reaches", shapes.len());
}

#[test]
fn each_draw_below_four_stands_for_one_affordance() {
    assert_eq!(affordance_for(0), Affordance::Water);
    assert_eq!(affordance_for(1), Affordance::Open);
    assert_eq!(affordance_for(2), Affordance::Transit);
    assert_eq!(affordance_for(3), Affordance::Indoors);
}

#[test]
fn a_report_posts_one_root_per_landing_and_emits_on_each_node() {
    let mut city: ContactGraph<f64> = ContactGraph::new(4);
    city.add_contact(0, 1, 2.0).unwrap();
    city.add_contact(2, 3, 2.0).unwrap();
    let square = Square::new(vec![
        Subgroup { name: String::from("harbour"), members: vec![0, 1] },
        Subgroup { name: String::from("market"), members: vec![2, 3] },
    ]);
    let mods = vec![
        Moderator::new(&city, vec![0, 1], |_: &ContactGraph<f64>| Some(0.5)).unwrap(),
        Moderator::new(&city, vec![2, 3], |_: &ContactGraph<f64>| Some(0.5)).unwrap(),
    ];
    let termini: Vec<Option<Position>> = vec![Some(1), Some(3)];
    let reached = vec![String::from("market"), String::from("harbour")];
    let bodies = vec![String::from("wet market"), String::from("windy harbour")];
    let mut rt: Runtime<u32> = Runtime::new();
    let mut forum = Forum::new();
    let ids = register_observation(&mut rt, &mut forum, &square, &mods, &termini, &reached, "open-meteo", 7, &bodies);
    assert_eq!(ids.len(), 2);
    assert_eq!(forum.posts().len(), 2);
    assert_eq!(forum.posts()[0].body, "wet market");
    assert_eq!(forum.posts()[0].emitted.terminus, 3);
    assert_eq!(forum.posts()[1].emitted.terminus, 1);
    assert!(forum.posts().iter().all(|p| p.parent.is_none() && p.act.is_none()));
    assert_eq!(forum.posts()[1].speaker, Speaker::World(String::from("open-meteo")));
    assert_eq!(rt.record(), 3);
    assert_eq!(rt.len(), 3);
    assert_eq!(rt.read("weather/market"), &[7]);
    assert_eq!(rt.edges().len(), 2);
}

#[test]
fn a_young_reading_is_served_and_an_old_one_refetched() {
    assert_eq!(before_fetch(&Some((599_000u64, 26)), 600_000), Some(26));
    assert_eq!(before_fetch(&Some((600_000u64, 26)), 600_000), None);
    assert_eq!(before_fetch::<u32>(&None, 600_000), None);
}

#[test]
fn a_source_that_is_down_serves_the_stale_reading() {
    assert_eq!(after_fetch(Some(1), Some(2)), (Some(2), true));
    assert_eq!(after_fetch(Some(1), None), (Some(1), false));
    assert_eq!(after_fetch::<u32>(None, None), (None, false));
}
