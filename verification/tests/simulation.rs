use hg::catalog::{accepts, accepts_relaxed, admits, check_weights, EventData};
use hg::chance::WeightError;
use hg::district::{have_distinct_ids, District};
use hg::event::{Event, EventCategory, EventError};
use hg::pronouns::Pronouns;
use hg::rate::DeathRate;
use hg::simulation::{
    build_sim, following, forces_kill, quota_after, Simulation, SimulationError,
};
use hg::tribute::Tribute;

fn tribute(id: usize, name: &str) -> Tribute {
    Tribute::new(id, name.to_string(), String::new(), Pronouns::They)
}

fn district(number: usize, tributes: Vec<Tribute>) -> District {
    District {
        file_name: format!("district_{}", number),
        name: format!("District {}", number),
        tributes,
    }
}

fn template(
    category: EventCategory,
    text: &str,
    killed: &[&str],
    killers: &[&str],
    weight: i32,
) -> Event {
    Event {
        file_name: "event".to_string(),
        text: text.to_string(),
        killed: killed.iter().map(|s| s.to_string()).collect(),
        killers: killers.iter().map(|s| s.to_string()).collect(),
        category,
        weight,
    }
}

fn quiet(category: EventCategory) -> Event {
    template(category, "(P1) hides.", &[], &[], 50)
}

fn fight(category: EventCategory) -> Event {
    template(category, "(P1) and (P2) fight; (P1) kills (P2).", &["(P2)"], &["(P1)"], 50)
}

fn four_in_two() -> Vec<District> {
    vec![
        district(1, vec![tribute(1, "Ann"), tribute(2, "Bob")]),
        district(2, vec![tribute(3, "Cyd"), tribute(4, "Dee")]),
    ]
}

fn rate(numerator: u32, denominator: u32) -> DeathRate {
    DeathRate::new(numerator, denominator).unwrap()
}

fn game(districts: Vec<District>, events: Vec<Event>, death_rate: DeathRate) -> Simulation {
    assert!(have_distinct_ids(&districts));
    Simulation::new(districts, events, death_rate)
}

fn living_ids(sim: &Simulation) -> Vec<usize> {
    sim.get_living_tributes().iter().map(|t| t.get_id()).collect()
}

#[test]
fn death_rate_is_a_fraction_between_zero_and_one() {
    assert!(DeathRate::new(0, 1).is_some());
    assert!(DeathRate::new(1, 1).is_some());
    assert!(DeathRate::new(17, 100).is_some());
    assert!(DeathRate::new(2, 1).is_none());
    assert!(DeathRate::new(0, 0).is_none());
}

#[test]
fn quota_is_the_share_of_the_living_rounded_down() {
    assert_eq!(rate(17, 100).quota(24), 4);
    assert_eq!(rate(17, 100).quota(5), 0);
    assert_eq!(rate(17, 100).quota(6), 1);
    assert_eq!(rate(1, 2).quota(7), 3);
    assert_eq!(rate(0, 1).quota(1000), 0);
    assert_eq!(rate(1, 1).quota(1000), 1000);
    assert_eq!(rate(4294967295, 4294967295).quota(usize::MAX), usize::MAX);
    assert_eq!(rate(1, 3).quota(0), 0);
}

#[test]
fn identities_must_differ_across_districts() {
    assert!(have_distinct_ids(&four_in_two()));
    assert!(have_distinct_ids(&Vec::new()));
    let twice = vec![
        district(1, vec![tribute(1, "Ann"), tribute(2, "Bob")]),
        district(2, vec![tribute(3, "Cyd"), tribute(1, "Dee")]),
    ];
    assert!(!have_distinct_ids(&twice));
    let twice_in_one = vec![district(1, vec![tribute(5, "Ann"), tribute(5, "Bob")])];
    assert!(!have_distinct_ids(&twice_in_one));
}

#[test]
fn game_needs_events_and_districts() {
    let r = build_sim(four_in_two(), Vec::new(), rate(0, 1));
    assert!(matches!(r, Err(SimulationError::NoEvents)));
    let r = build_sim(Vec::new(), vec![quiet(EventCategory::Day)], rate(0, 1));
    assert!(matches!(r, Err(SimulationError::NoDistricts)));
    let r = build_sim(Vec::new(), Vec::new(), rate(0, 1));
    assert!(matches!(r, Err(SimulationError::NoEvents)));
    let sim = build_sim(four_in_two(), vec![quiet(EventCategory::Day)], rate(0, 1)).unwrap();
    assert_eq!(sim.get_category_title(), "The Bloodbath");
    assert_eq!(sim.get_districts().len(), 2);
}

#[test]
fn new_game_starts_with_the_bloodbath() {
    let sim = game(
        four_in_two(),
        vec![
            quiet(EventCategory::Night),
            fight(EventCategory::Bloodbath),
            quiet(EventCategory::Day),
            quiet(EventCategory::Bloodbath),
            quiet(EventCategory::End),
        ],
        rate(17, 100),
    );
    assert!(!sim.is_end());
    assert!(!sim.has_next_events());
    assert!(!sim.has_winner());
    assert_eq!(sim.get_category_title(), "The Bloodbath");
    assert_eq!(living_ids(&sim), vec![1, 2, 3, 4]);
    assert!(sim.has_fatal());
    let all = sim.get_all_events();
    let listed: Vec<(EventCategory, String)> =
        all.iter().map(|e| (e.category, e.text.clone())).collect();
    assert_eq!(
        listed,
        vec![
            (EventCategory::Bloodbath, "(P1) and (P2) fight; (P1) kills (P2).".to_string()),
            (EventCategory::Bloodbath, "(P1) hides.".to_string()),
            (EventCategory::Day, "(P1) hides.".to_string()),
            (EventCategory::Night, "(P1) hides.".to_string()),
        ]
    );
    let districts = sim.get_districts();
    assert_eq!(districts[0].name, "District 1");
    assert_eq!(districts[1].tributes[1].name, "Dee");
}

#[test]
fn phases_follow_each_other_and_the_day_rises_after_the_night() {
    let events = vec![
        quiet(EventCategory::Bloodbath),
        quiet(EventCategory::Day),
        quiet(EventCategory::Night),
    ];
    let mut sim = game(four_in_two(), events, rate(0, 1));
    let mut titles = vec![sim.get_category_title()];
    for _ in 0..7 {
        sim.step().unwrap();
        titles.push(sim.get_category_title());
    }
    assert_eq!(
        titles,
        vec![
            "The Bloodbath",
            "Day 1",
            "Fallen Tributes - Day 1",
            "Night 1",
            "Day 2",
            "Fallen Tributes - Day 2",
            "Night 2",
            "Day 3",
        ]
    );
    assert!(!sim.is_end());
    assert_eq!(living_ids(&sim), vec![1, 2, 3, 4]);
}

#[test]
fn quiet_phase_gives_every_living_tribute_its_event() {
    let mut sim = game(four_in_two(), vec![quiet(EventCategory::Bloodbath)], rate(0, 1));
    sim.step().unwrap();
    assert!(sim.has_next_events());
    let results = sim.get_clear_next_events();
    assert_eq!(results.len(), 4);
    let mut texts: Vec<String> = results.iter().map(|r| r.text.clone()).collect();
    texts.sort();
    assert_eq!(texts, vec!["Ann hides.", "Bob hides.", "Cyd hides.", "Dee hides."]);
    for r in &results {
        assert_eq!(r.tributes.len(), 1);
        assert!(r.killed.is_empty() && r.killers.is_empty());
    }
}

#[test]
fn fetching_twice_gives_all_and_then_nothing() {
    let mut sim = game(four_in_two(), vec![quiet(EventCategory::Bloodbath)], rate(0, 1));
    sim.step().unwrap();
    assert!(sim.has_next_events());
    let first = sim.get_clear_next_events();
    assert_eq!(first.len(), 4);
    assert!(!sim.has_next_events());
    let second = sim.get_clear_next_events();
    assert!(second.is_empty());
    assert_eq!(sim.get_category_title(), "Day 1");
    assert_eq!(living_ids(&sim), vec![1, 2, 3, 4]);
}

#[test]
fn bloodbath_of_fights_kills_one_in_each_and_leaves_two() {
    for _ in 0..30 {
        let mut sim = game(four_in_two(), vec![fight(EventCategory::Bloodbath)], rate(17, 100));
        sim.step().unwrap();
        let results = sim.get_clear_next_events();
        assert_eq!(results.len(), 2);
        let mut bound: Vec<usize> = Vec::new();
        for r in &results {
            assert_eq!(r.killed.len(), 1);
            assert_eq!(r.killers.len(), 1);
            assert_eq!(r.tributes.len(), 2);
            let expected = format!(
                "{} and {} fight; {} kills {}.",
                r.tributes[0].name, r.tributes[1].name, r.tributes[0].name, r.tributes[1].name
            );
            assert_eq!(r.text, expected);
            bound.extend(r.tributes.iter().map(|t| t.get_id()));
        }
        bound.sort();
        assert_eq!(bound, vec![1, 2, 3, 4]);
        let living = sim.get_living_tributes();
        assert_eq!(living.len(), 2);
        for t in &living {
            assert_eq!(t.kills, 1);
            assert!(results.iter().any(|r| r.killers[0] == t.get_id()));
        }
        assert_eq!(sim.get_category_title(), "Day 1");
    }
}

#[test]
fn fallen_are_reported_with_their_districts() {
    let events = vec![
        fight(EventCategory::Bloodbath),
        quiet(EventCategory::Day),
        quiet(EventCategory::Night),
    ];
    let mut sim = game(four_in_two(), events, rate(1, 2));
    sim.step().unwrap();
    let fights = sim.get_clear_next_events();
    sim.step().unwrap();
    assert_eq!(sim.get_clear_next_events().len(), 2);
    assert_eq!(sim.get_category_title(), "Fallen Tributes - Day 1");
    sim.step().unwrap();
    let report = sim.get_clear_next_events();
    assert_eq!(report.len(), 3);
    assert_eq!(report[0].text, "2 cannon shots can be heard in the distance.\n");
    assert!(report[0].tributes.is_empty());
    let mut dead: Vec<usize> = fights.iter().map(|r| r.killed[0]).collect();
    dead.sort();
    let mut reported: Vec<usize> = Vec::new();
    for entry in &report[1..] {
        assert_eq!(entry.tributes.len(), 1);
        let t = &entry.tributes[0];
        assert!(!t.is_alive);
        let home = if t.get_id() <= 2 { "District 1" } else { "District 2" };
        assert_eq!(entry.text, format!("{} from {}", t.name, home));
        assert!(entry.killed.is_empty() && entry.killers.is_empty());
        reported.push(t.get_id());
    }
    reported.sort();
    assert_eq!(reported, dead);
    assert_eq!(sim.get_category_title(), "Night 1");
    sim.step().unwrap();
    sim.step().unwrap();
    assert_eq!(sim.get_category_title(), "Fallen Tributes - Day 2");
    sim.step().unwrap();
    let report = sim.get_clear_next_events();
    assert_eq!(report.len(), 1);
    assert_eq!(report[0].text, "No cannon shots can be heard in the distance.\n");
}

#[test]
fn single_fallen_is_one_cannon_shot() {
    let districts = vec![district(1, vec![tribute(1, "Ann"), tribute(2, "Bob"), tribute(3, "Cyd")])];
    let events = vec![
        fight(EventCategory::Bloodbath),
        quiet(EventCategory::Bloodbath),
        quiet(EventCategory::Day),
    ];
    let mut sim = game(districts, events, rate(1, 3));
    sim.step().unwrap();
    let results = sim.get_clear_next_events();
    assert_eq!(results.len(), 2);
    assert_eq!(results.iter().map(|r| r.killed.len()).sum::<usize>(), 1);
    sim.step().unwrap();
    sim.step().unwrap();
    let report = sim.get_clear_next_events();
    assert_eq!(report.len(), 2);
    assert_eq!(report[0].text, "1 cannon shot can be heard in the distance.\n");
    assert!(report[1].text.ends_with(" from District 1"));
}

#[test]
fn last_tribute_alive_wins() {
    let mut ann = tribute(1, "Ann");
    ann.kill();
    let districts = vec![district(1, vec![ann]), district(2, vec![tribute(2, "Bob")])];
    let mut sim = game(districts, vec![quiet(EventCategory::Bloodbath)], rate(17, 100));
    assert!(sim.has_winner());
    assert!(!sim.is_end());
    sim.step().unwrap();
    assert!(sim.is_end());
    assert_eq!(sim.get_category_title(), "The Winner");
    let winner = sim.get_winner().unwrap();
    assert_eq!(winner.get_id(), 2);
    assert_eq!(winner.name, "Bob");
    assert_eq!(sim.get_trib_dist_name(winner), "District 2");
    let results = sim.get_clear_next_events();
    assert_eq!(results.len(), 1);
    assert_eq!(results[0].text, "Bob hides.");
}

#[test]
fn step_after_the_end_changes_nothing() {
    let districts = vec![district(1, vec![tribute(1, "Ann")])];
    let mut sim = game(districts, vec![quiet(EventCategory::Bloodbath)], rate(0, 1));
    sim.step().unwrap();
    assert!(sim.is_end());
    assert_eq!(sim.get_clear_next_events().len(), 1);
    for _ in 0..3 {
        assert!(sim.step().is_ok());
        assert!(sim.is_end());
        assert!(!sim.has_next_events());
        assert!(sim.get_clear_next_events().is_empty());
        assert_eq!(sim.get_category_title(), "The Winner");
        assert_eq!(living_ids(&sim), vec![1]);
    }
}

#[test]
fn game_without_tributes_has_no_winner() {
    let mut sim =
        game(vec![district(1, Vec::new())], vec![quiet(EventCategory::Bloodbath)], rate(0, 1));
    assert!(sim.has_winner());
    assert!(sim.get_winner().is_none());
    sim.step().unwrap();
    assert!(sim.is_end());
    assert!(!sim.has_next_events());
    assert!(sim.get_winner().is_none());
}

#[test]
fn whole_games_end_with_one_winner() {
    for round in 0..40 {
        let mut districts = Vec::new();
        let mut id = 0;
        for d in 0..4 {
            let mut tributes = Vec::new();
            for _ in 0..(1 + (round + d) % 4) {
                id += 1;
                tributes.push(tribute(id, &format!("T{}", id)));
            }
            districts.push(district(d + 1, tributes));
        }
        let mut events = Vec::new();
        for category in [EventCategory::Bloodbath, EventCategory::Day, EventCategory::Night] {
            events.push(quiet(category));
            events.push(fight(category));
            events.push(template(
                category,
                "(P1) ambushes (P2) and (P3).",
                &["(P2)", "(P3)"],
                &["(P1)"],
                20,
            ));
        }
        let mut sim = game(districts, events, rate(1, 3));
        let mut steps = 0;
        while !sim.is_end() {
            let before = sim.get_living_tributes().len();
            let fallen_phase = sim.get_category_title().starts_with("Fallen");
            sim.step().unwrap();
            let after = sim.get_living_tributes().len();
            assert!(after >= 1);
            assert!(after <= before);
            let results = sim.get_clear_next_events();
            if !fallen_phase {
                let kills: usize = results.iter().map(|r| r.killed.len()).sum();
                assert_eq!(kills, before - after);
                assert!(kills <= before - 1);
                let mut bound: Vec<usize> = Vec::new();
                for r in &results {
                    assert_eq!(r.killed.is_empty(), r.killers.is_empty());
                    assert!(matches!(r.tributes.len(), 1 | 2 | 3));
                    bound.extend(r.tributes.iter().map(|t| t.get_id()));
                }
                let total = bound.len();
                bound.sort();
                bound.dedup();
                assert_eq!(bound.len(), total);
                assert_eq!(total, before);
            } else {
                assert_eq!(after, before);
            }
            steps += 1;
            assert!(steps < 10000);
        }
        assert_eq!(sim.get_living_tributes().len(), 1);
        let winner = sim.get_winner().unwrap();
        assert!(winner.is_alive);
        assert_eq!(sim.get_category_title(), "The Winner");
    }
}

#[test]
fn two_living_take_the_one_kill_event() {
    for _ in 0..30 {
        let districts = vec![district(1, vec![tribute(1, "Ann"), tribute(2, "Bob")])];
        let events = vec![
            quiet(EventCategory::Bloodbath),
            fight(EventCategory::Bloodbath),
        ];
        let mut sim = game(districts, events, rate(0, 1));
        sim.step().unwrap();
        let results = sim.get_clear_next_events();
        assert_eq!(results.len(), 1);
        assert_eq!(results[0].killed.len(), 1);
        assert!(sim.is_end());
        assert_eq!(sim.get_living_tributes().len(), 1);
    }
}

#[test]
fn relaxed_rule_lets_two_living_go_on_without_a_kill() {
    let districts = vec![district(1, vec![tribute(1, "Ann"), tribute(2, "Bob")])];
    let mut sim = game(districts, vec![quiet(EventCategory::Bloodbath)], rate(1, 1));
    sim.step().unwrap();
    let results = sim.get_clear_next_events();
    assert_eq!(results.len(), 2);
    assert_eq!(sim.get_living_tributes().len(), 2);
    assert_eq!(sim.get_category_title(), "Day 1");
}

#[test]
fn kill_is_forced_while_the_quota_is_open() {
    for _ in 0..30 {
        let events = vec![
            template(EventCategory::Bloodbath, "(P1) hides.", &[], &[], 1),
            template(EventCategory::Bloodbath, "(P1) drowns.", &["(P1)"], &["(P1)"], 230),
        ];
        let mut sim = game(four_in_two(), events, rate(1, 2));
        sim.step().unwrap();
        let results = sim.get_clear_next_events();
        assert_eq!(results.len(), 4);
        let kills: usize = results.iter().map(|r| r.killed.len()).sum();
        assert!(kills >= 2);
        assert!(kills <= 3);
    }
}

#[test]
fn draw_goes_by_weight() {
    let catalog = EventData::create(vec![
        template(EventCategory::Day, "(P1) never.", &[], &[], 0),
        template(EventCategory::Day, "(P1) rarely.", &[], &[], 1),
        template(EventCategory::Day, "(P1) mostly.", &[], &[], 99),
    ]);
    assert!(!catalog.has_fatal());
    let pool = vec![tribute(1, "Ann"), tribute(2, "Bob"), tribute(3, "Cyd")];
    let mut mostly = 0;
    let mut rarely = 0;
    for _ in 0..400 {
        let ev = catalog.get_random_event(&pool, 3, false).unwrap().unwrap();
        match ev.text.as_str() {
            "(P1) mostly." => mostly += 1,
            "(P1) rarely." => rarely += 1,
            other => panic!("drawn with weight 0: {}", other),
        }
    }
    assert!(mostly > 300);
    assert!(mostly + rarely == 400);
}

#[test]
fn draw_takes_only_what_fits() {
    let catalog = EventData::create(vec![
        template(EventCategory::Day, "(P1) and (P2) and (P3) talk.", &[], &[], 200),
        fight(EventCategory::Day),
        quiet(EventCategory::Day),
        template(EventCategory::Day, "(P1) kills (P2) twice.", &["(P2)", "(P2)"], &["(P1)"], 50),
    ]);
    assert!(catalog.has_fatal());
    let pool = vec![tribute(1, "Ann"), tribute(2, "Bob")];
    let one = vec![tribute(1, "Ann")];
    let mut fights = 0;
    for _ in 0..200 {
        let ev = catalog.get_random_event(&pool, 2, false).unwrap().unwrap();
        if ev.text == "(P1) and (P2) fight; (P1) kills (P2)." {
            fights += 1;
        } else {
            assert_eq!(ev.text, "(P1) hides.");
        }
        let ev = catalog.get_random_event(&pool, 5, true).unwrap().unwrap();
        assert!(ev.get_num_tributes_required() <= 2);
        assert!(ev.killed.len() > 0 || ev.text == "(P1) hides.");
        let ev = catalog.get_random_event(&one, 5, false).unwrap().unwrap();
        assert_eq!(ev.text, "(P1) hides.");
        let ev = catalog.get_random_event(&one, 5, true).unwrap().unwrap();
        assert_eq!(ev.text, "(P1) hides.");
        let ev = catalog.get_random_event(&one, 2, false).unwrap().unwrap();
        assert_eq!(ev.text, "(P1) hides.");
    }
    assert!(fights > 150);
    let none: Vec<Tribute> = Vec::new();
    assert!(matches!(
        catalog.get_random_event(&none, 5, false),
        Err(SimulationError::NoEligibleEvent)
    ));
}

#[test]
fn empty_catalog_gives_no_template() {
    let catalog = EventData::create(Vec::new());
    assert!(!catalog.has_fatal());
    let pool = vec![tribute(1, "Ann")];
    assert!(matches!(catalog.get_random_event(&pool, 1, false), Ok(None)));
    assert!(matches!(catalog.get_random_event(&pool, 5, true), Ok(None)));
    assert!(matches!(catalog.draw_counted(&Vec::new(), 0, false), Ok(None)));
}

#[test]
fn phase_with_an_empty_catalog_passes_without_events() {
    let mut sim = game(four_in_two(), vec![quiet(EventCategory::Day)], rate(1, 2));
    assert!(sim.step().is_ok());
    assert!(!sim.has_next_events());
    assert_eq!(sim.get_category_title(), "Day 1");
    assert_eq!(living_ids(&sim), vec![1, 2, 3, 4]);
    sim.step().unwrap();
    assert_eq!(sim.get_clear_next_events().len(), 4);
}

#[test]
fn relaxed_rule_waits_for_twenty_five_rejections() {
    let f = fight(EventCategory::Day);
    let q = quiet(EventCategory::Day);
    for rejections in [0, 1, 24] {
        assert!(!admits(&q, 1, 2, false, rejections));
        assert!(!admits(&q, 1, 5, true, rejections));
        assert!(admits(&q, 1, 5, false, rejections));
        assert!(admits(&f, 2, 2, true, rejections));
        assert!(!admits(&f, 1, 2, true, rejections));
    }
    for rejections in [25, 26, u32::MAX] {
        assert!(admits(&q, 1, 2, false, rejections));
        assert!(admits(&q, 1, 5, true, rejections));
        assert!(!admits(&q, 0, 5, true, rejections));
        assert!(admits(&f, 2, 2, true, rejections));
        assert!(!admits(&f, 2, 1, false, rejections));
    }
}

#[test]
fn draw_counts_its_rejections() {
    let catalog = EventData::create(vec![quiet(EventCategory::Day), fight(EventCategory::Day)]);
    let pool = vec![tribute(1, "Ann"), tribute(2, "Bob")];
    for _ in 0..200 {
        let (ev, rejections) = catalog.draw_counted(&pool, 2, false).unwrap().unwrap();
        assert!(rejections <= 25);
        assert!(ev.killed.len() == 1 || (ev.killed.is_empty() && rejections == 25));
        let (ev, rejections) = catalog.draw_counted(&pool, 5, true).unwrap().unwrap();
        assert!(ev.killed.len() == 1 || (ev.killed.is_empty() && rejections == 25));
        let (ev, rejections) = catalog.draw_counted(&pool, 5, false).unwrap().unwrap();
        assert!(rejections == 0);
        assert!(ev.get_num_tributes_required() <= 2);
    }
    let only_quiet = EventData::create(vec![quiet(EventCategory::Day)]);
    let (ev, rejections) = only_quiet.draw_counted(&pool, 2, false).unwrap().unwrap();
    assert_eq!(ev.text, "(P1) hides.");
    assert_eq!(rejections, 25);
}

#[test]
fn kill_is_forced_while_a_template_kills_and_quota_is_left() {
    assert!(forces_kill(true, 1));
    assert!(forces_kill(true, usize::MAX));
    assert!(!forces_kill(true, 0));
    assert!(!forces_kill(false, 3));
    assert!(!forces_kill(false, 0));
    assert_eq!(quota_after(4, 1), 3);
    assert_eq!(quota_after(4, 4), 0);
    assert_eq!(quota_after(1, 2), 0);
    assert_eq!(quota_after(0, 0), 0);
}

#[test]
fn each_phase_has_the_phase_that_follows() {
    assert_eq!(following(EventCategory::Bloodbath, 1), (EventCategory::Day, 1));
    assert_eq!(following(EventCategory::Day, 1), (EventCategory::FallenTributes, 1));
    assert_eq!(following(EventCategory::FallenTributes, 7), (EventCategory::Night, 7));
    assert_eq!(following(EventCategory::Night, 7), (EventCategory::Day, 8));
    assert_eq!(following(EventCategory::Night, u32::MAX), (EventCategory::Day, u32::MAX));
    assert_eq!(following(EventCategory::End, 3), (EventCategory::End, 3));
}

#[test]
fn acceptance_rules() {
    let f = fight(EventCategory::Day);
    let q = quiet(EventCategory::Day);
    assert!(accepts(&f, 2, 3, false));
    assert!(accepts(&f, 2, 2, true));
    assert!(!accepts(&f, 1, 3, false));
    assert!(!accepts(&f, 2, 1, false));
    assert!(!accepts(&f, 2, 0, false));
    assert!(accepts(&q, 1, 1, false));
    assert!(!accepts(&q, 1, 3, true));
    assert!(!accepts(&q, 1, 2, false));
    assert!(!accepts(&q, 0, 3, false));
    assert!(accepts_relaxed(&q, 1));
    assert!(!accepts_relaxed(&q, 0));
    assert!(!accepts_relaxed(&f, 2));
}

#[test]
fn weights_are_checked() {
    assert_eq!(check_weights(&vec![]), Some(WeightError::NoItem));
    assert_eq!(check_weights(&vec![1, -1, 2]), Some(WeightError::InvalidWeight));
    assert_eq!(check_weights(&vec![-5]), Some(WeightError::InvalidWeight));
    assert_eq!(check_weights(&vec![0, 0]), Some(WeightError::AllWeightsZero));
    assert_eq!(check_weights(&vec![i32::MAX, 1]), Some(WeightError::InvalidWeight));
    assert_eq!(check_weights(&vec![i32::MAX, 1, -1]), Some(WeightError::InvalidWeight));
    assert_eq!(check_weights(&vec![i32::MAX, 0]), None);
    assert_eq!(check_weights(&vec![0, 1]), None);
    assert_eq!(check_weights(&vec![230, 1, 50]), None);
}

#[test]
fn bad_weights_fail_the_step() {
    let cases = [
        (vec![template(EventCategory::Bloodbath, "(P1) x", &[], &[], 0)], WeightError::AllWeightsZero),
        (
            vec![
                quiet(EventCategory::Bloodbath),
                template(EventCategory::Bloodbath, "(P1) x", &[], &[], -3),
            ],
            WeightError::InvalidWeight,
        ),
        (
            vec![
                template(EventCategory::Bloodbath, "(P1) x", &[], &[], i32::MAX),
                template(EventCategory::Bloodbath, "(P1) y", &[], &[], i32::MAX),
            ],
            WeightError::InvalidWeight,
        ),
    ];
    for (mut events, expected) in cases {
        events.push(quiet(EventCategory::Day));
        let mut sim = game(four_in_two(), events, rate(0, 1));
        match sim.step() {
            Err(SimulationError::WeightedRandomError { source }) => assert_eq!(source, expected),
            other => panic!("unexpected {:?}", other),
        }
        assert_eq!(sim.get_category_title(), "The Bloodbath");
        assert!(!sim.has_next_events());
        assert_eq!(living_ids(&sim), vec![1, 2, 3, 4]);
    }
}

#[test]
fn step_fails_where_no_template_can_be_accepted() {
    let districts = vec![district(1, vec![tribute(1, "Ann"), tribute(2, "Bob"), tribute(3, "Cyd")])];
    let events = vec![template(EventCategory::Bloodbath, "(P1) greets (P2).", &[], &[], 50)];
    let mut sim = game(districts, events, rate(0, 1));
    assert!(matches!(sim.step(), Err(SimulationError::NoEligibleEvent)));
    assert_eq!(sim.get_category_title(), "The Bloodbath");
    assert!(!sim.has_next_events());
    assert_eq!(living_ids(&sim), vec![1, 2, 3]);
}

#[test]
fn event_error_fails_the_step() {
    let events = vec![template(EventCategory::Bloodbath, "(P1) calls (them2).", &[], &[], 50)];
    let mut sim = game(four_in_two(), events, rate(0, 1));
    match sim.step() {
        Err(SimulationError::EventError {
            event_error: EventError::MissingPlayerIdentifier { player_num, .. },
        }) => assert_eq!(player_num, 2),
        other => panic!("unexpected {:?}", other),
    }
    assert_eq!(sim.get_category_title(), "The Bloodbath");
    let events = vec![template(EventCategory::Bloodbath, "(P1) falls.", &[], &["(P1)"], 50)];
    let mut sim = game(four_in_two(), events, rate(0, 1));
    assert!(matches!(
        sim.step(),
        Err(SimulationError::EventError { event_error: EventError::MissingFieldsError { .. } })
    ));
}

#[test]
fn district_of_a_tribute_is_found_by_identity() {
    let sim = game(four_in_two(), vec![quiet(EventCategory::Bloodbath)], rate(0, 1));
    assert_eq!(sim.get_trib_dist_name(&tribute(1, "whoever")), "District 1");
    assert_eq!(sim.get_trib_dist_name(&tribute(4, "Dee")), "District 2");
    assert_eq!(sim.get_trib_dist_name(&tribute(9, "Zed")), "Unknown District");
}

#[test]
fn living_are_listed_for_the_terminal() {
    let mut ann = tribute(1, "Ann");
    ann.add_kill();
    let mut bob = tribute(2, "Bob");
    bob.kill();
    let mut cyd = tribute(3, "Cyd");
    for _ in 0..12 {
        cyd.add_kill();
    }
    let districts = vec![
        district(1, vec![ann, bob]),
        district(2, vec![cyd, tribute(4, "Dee")]),
    ];
    let sim = game(districts, vec![quiet(EventCategory::Bloodbath)], rate(0, 1));
    assert_eq!(
        sim.cli_display_living(),
        "Living tributes:\n\tAnn (District 1) [1 kill]\n\tCyd (District 2) [12 kills]\n\tDee (District 2) [0 kills]\n"
    );
    assert_eq!(sim.get_winner().unwrap().get_id(), 1);
    assert_eq!(living_ids(&sim), vec![1, 3, 4]);
}

#[test]
fn phase_without_catalog_draws_nothing() {
    let events = vec![quiet(EventCategory::Bloodbath), quiet(EventCategory::Day)];
    let mut sim = game(four_in_two(), events, rate(0, 1));
    sim.step().unwrap();
    sim.step().unwrap();
    assert_eq!(sim.get_category_title(), "Fallen Tributes - Day 1");
    assert!(!sim.has_fatal());
    let pool = sim.get_living_tributes();
    assert!(matches!(sim.get_rand_event(&pool, 4, false), Ok(None)));
}

#[test]
fn results_of_a_step_are_all_published() {
    let mut orders: Vec<Vec<usize>> = Vec::new();
    for _ in 0..40 {
        let districts = vec![district(
            1,
            (1..=6).map(|i| tribute(i, &format!("T{}", i))).collect(),
        )];
        let mut sim = game(districts, vec![quiet(EventCategory::Bloodbath)], rate(0, 1));
        sim.step().unwrap();
        let results = sim.get_clear_next_events();
        let order: Vec<usize> = results.iter().map(|r| r.tributes[0].get_id()).collect();
        let mut sorted = order.clone();
        sorted.sort();
        assert_eq!(sorted, vec![1, 2, 3, 4, 5, 6]);
        for r in &results {
            assert_eq!(r.text, format!("T{} hides.", r.tributes[0].get_id()));
        }
        if !orders.contains(&order) {
            orders.push(order);
        }
    }
    assert!(orders.len() > 1);
}
