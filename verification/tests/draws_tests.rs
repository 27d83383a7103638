use moxnode::creature::{
    mutate_with, plan_with, search_absorb_with, search_begin, search_begin_with, think_end_with,
    write_with, Mutation,
};
use moxnode::evolution::dream_decision;
use moxnode::intent::{after_world_search, intent_for_roll, note_intent, tick_step, Intent, TickStep};
use moxnode::selfwrite::{iso_now, stamp_of};
use moxnode::lists::normalize_topic;
use moxnode::memory::CreatureMemory;
use moxnode::net::{answer_of_body, candidates_of_body, rank_by_hits, summary_of_body};
use moxnode::thought::{
    compose_experience_with, compose_goal_with, compose_search_query_with, thought_from_draws,
    ThoughtCtx,
};
use moxnode::wired::{EMPTY_NET, EXPERIENCES, GOALS, PLANS, QUIRKS, SEARCH_BASE};
use moxnode::world::explore_absorb_with;

/// A creature whose intent weights (in thousandths) are: think 22000,
/// search 23000, rest 7000, obsess 10000, plan 9500, mutate 13500,
/// write 19500 (a total of 104500).
fn plain() -> CreatureMemory {
    let mut rng = rand::thread_rng();
    let mut m = CreatureMemory::new_random(&mut rng, Some("Plain".to_string()));
    m.personality = vec![];
    m.energy_level = 50;
    m.curiosity = 50;
    m.intelligence = 50;
    m.learned_facts = vec!["a".to_string(), "b".to_string(), "c".to_string()];
    m.obsessions = vec![];
    m.run_count = 1;
    m
}

#[test]
fn a_roll_lands_on_the_intent_whose_share_covers_it() {
    let m = plain();
    let cases = [
        (1, Intent::Think),
        (22000, Intent::Think),
        (22001, Intent::Search),
        (45000, Intent::Search),
        (45001, Intent::Rest),
        (52000, Intent::Rest),
        (52001, Intent::Obsess),
        (62001, Intent::Plan),
        (71500, Intent::Plan),
        (71501, Intent::Mutate),
        (85001, Intent::Write),
        (104500, Intent::Write),
    ];
    for (roll, expected) in cases {
        assert_eq!(intent_for_roll(&m, None, roll), expected, "roll {roll}");
    }
}

#[test]
fn mutation_kind_follows_the_roll() {
    let mut rng = rand::thread_rng();
    for roll in 0..6usize {
        for coin in [0u32, 49, 50, 99] {
            let mut m = plain();
            let r = mutate_with(&mut m, roll, coin, &mut rng);
            assert_eq!(m.mutations, 1);
            match roll {
                0 => assert!(matches!(r, Mutation::Trait { .. })),
                1 => assert!(matches!(r, Mutation::Fragment(_))),
                2 if coin < 50 => {
                    assert!(matches!(r, Mutation::Fear(_)));
                    assert_eq!(m.fears.len(), 1);
                }
                2 => {
                    assert!(matches!(r, Mutation::Favorite(_)));
                    assert_eq!(m.favorite_things.len(), 1);
                }
                _ => {
                    assert!(matches!(r, Mutation::Quirk(_)));
                    assert_eq!(m.quirks.len(), 1);
                    assert!(QUIRKS.contains(&m.quirks[0].as_str()));
                }
            }
        }
    }
}

#[test]
fn a_tired_creature_searches_nothing_whatever_its_age() {
    let mut rng = rand::thread_rng();
    let mut m = plain();
    m.curiosity = 10;
    m.age = u64::MAX;
    let before = m.search_history.clone();
    assert_eq!(search_begin(&mut m, &mut rng), None);
    assert_eq!(m.age, u64::MAX);
    assert_eq!(m.search_history, before);
}

#[test]
fn the_chosen_intent_is_noted() {
    let mut m = plain();
    note_intent(&mut m, Intent::Obsess);
    assert_eq!(m.last_intent, "obsess");
    note_intent(&mut m, Intent::Write);
    assert_eq!(m.last_intent, "write");
}

#[test]
fn a_dream_needs_a_trigger_and_a_low_enough_roll() {
    // Half of 60 + 40 is 50.
    assert!(dream_decision(true, 0, 17, false, "calm", 60, 40, 50));
    assert!(dream_decision(true, 0, 17, false, "calm", 60, 40, 0));
    assert!(!dream_decision(true, 0, 17, false, "calm", 60, 40, 51));
    assert!(!dream_decision(true, 1, 17, false, "calm", 60, 40, 0));
    assert!(!dream_decision(false, 0, 17, false, "calm", 60, 40, 0));
    assert!(!dream_decision(true, 0, 18, false, "calm", 60, 40, 0));
    assert!(dream_decision(true, 0, 18, true, "calm", 60, 40, 10));
    assert!(dream_decision(true, 0, 18, false, "restless", 60, 40, 10));
    // Half of -11 rounds toward zero to -5: no roll of 0..100 is that low.
    assert!(!dream_decision(true, 0, 17, true, "restless", -10, -1, 0));
}

fn ctx() -> ThoughtCtx {
    ThoughtCtx {
        tokens: vec!["signal".to_string()],
        topic: "tides".to_string(),
        mood: "curious".to_string(),
        trait_name: "logic".to_string(),
        fear: "null pointers".to_string(),
        favorite: "clean code".to_string(),
        snippet: String::new(),
        quirk: "thinks 404 errors are existential statements".to_string(),
        age: 7,
    }
}

fn draw(k: usize, w: &str, v: &str) -> (usize, String, String) {
    (k, w.to_string(), v.to_string())
}

#[test]
fn the_first_fresh_drawn_frame_is_taken() {
    let mut m = plain();
    m.age = 7;
    m.thought_archive = vec!["Do tides dream of infinite clean code?".to_string()];
    let c = ctx();
    let draws = vec![
        draw(11, "signal", "probe"),
        draw(2, "signal", "probe"),
        draw(0, "signal", "probe"),
    ];
    assert_eq!(
        thought_from_draws(&m, &c, &draws, "signal"),
        "tides and signal keep colliding in my head"
    );
    let first = vec![draw(0, "x", "y"), draw(2, "signal", "probe")];
    assert_eq!(
        thought_from_draws(&m, &c, &first, "signal"),
        "I feel curious enough to chase tides while my logic stays loud"
    );
}

#[test]
fn the_fallback_line_comes_only_when_every_draw_misses() {
    let mut m = plain();
    m.age = 7;
    m.thought_archive = vec![
        "Do tides dream of infinite clean code?".to_string(),
        "tides and signal keep colliding in my head".to_string(),
    ];
    let c = ctx();
    let draws = vec![draw(11, "signal", "probe"); 16];
    assert_eq!(
        thought_from_draws(&m, &c, &draws, "signal"),
        "curious · tides · signal @ run 8"
    );
    let mixed = vec![draw(11, "a", "b"), draw(2, "signal", "c")];
    assert_eq!(
        thought_from_draws(&m, &c, &mixed, "signal"),
        "curious · tides · signal @ run 8"
    );
    assert_eq!(thought_from_draws(&m, &c, &Vec::new(), "w"), "curious · tides · w @ run 8");
}

#[test]
fn ties_go_to_the_last_strongest_trait() {
    let mut m = plain();
    m.personality = vec![
        ("a".to_string(), 50),
        ("b".to_string(), 70),
        ("c".to_string(), 70),
        ("d".to_string(), 10),
    ];
    assert_eq!(m.dominant_trait(), "c");
    m.personality = vec![("x".to_string(), 9), ("y".to_string(), 3)];
    assert_eq!(m.dominant_trait(), "x");
    m.personality = vec![];
    assert_eq!(m.dominant_trait(), "curiosity");
}

#[test]
fn a_thought_context_carries_the_dominant_trait() {
    let mut rng = rand::thread_rng();
    let mut m = plain();
    m.personality = vec![("logic".to_string(), 80), ("chaos".to_string(), 80)];
    for _ in 0..5 {
        let c = ThoughtCtx::from_memory(&m, &mut rng);
        assert_eq!(c.trait_name, m.dominant_trait());
        assert_eq!(c.trait_name, "chaos");
    }
}

#[test]
fn normalized_topics_are_trimmed_suffixes_without_dives() {
    let inputs = [
        "  Deep Dive Into deep dive into  rust ",
        "  tides ",
        "deep dive into",
        "DEEP DIVE INTO x",
        "\tplain topic\n",
        "",
    ];
    for t in inputs {
        let r = normalize_topic(t);
        assert_eq!(r, r.trim());
        assert!(!r.to_ascii_lowercase().starts_with("deep dive into "));
        assert!(t.trim().ends_with(r.as_str()));
        assert_eq!(normalize_topic(&r), r);
        if !t.trim().to_ascii_lowercase().starts_with("deep dive into ") {
            assert_eq!(r, t.trim());
        }
    }
    assert_eq!(normalize_topic("  Deep Dive Into deep dive into  rust "), "rust");
    assert_eq!(normalize_topic("DEEP DIVE INTO x"), "x");
    assert_eq!(normalize_topic("deep dive into"), "deep dive into");
}

#[test]
fn a_reply_body_gives_its_summary() {
    assert_eq!(
        summary_of_body(r#"{"Abstract":"A","Definition":"D"}"#),
        Some("A | D".to_string())
    );
    assert_eq!(summary_of_body(r#"{"Abstract":"","Definition":"D"}"#), Some("D".to_string()));
    assert_eq!(
        summary_of_body(r#"{"Abstract":"","RelatedTopics":[{"Topics":[]},{"Text":"first"},{"Text":"second"}]}"#),
        Some("first".to_string())
    );
    assert_eq!(summary_of_body(r#"{"Abstract":7}"#), None);
    assert_eq!(summary_of_body("{}"), None);
    assert_eq!(summary_of_body("not json"), None);
}

#[test]
fn a_search_answer_falls_back_to_the_empty_net_line() {
    assert_eq!(answer_of_body(r#"{"Definition":"D"}"#), Ok("D".to_string()));
    assert_eq!(answer_of_body("{}"), Ok(EMPTY_NET.to_string()));
    assert_eq!(answer_of_body("[1, 2]"), Ok(EMPTY_NET.to_string()));
    assert!(answer_of_body("{").is_err());
}

#[test]
fn a_reply_body_gives_its_candidates() {
    let body = r#"{"Abstract":"A","RelatedTopics":[{"Text":"t1","Topics":[{"Text":"s1"},{"Text":""}]},{"Topics":[{"Text":"s2"}]},"odd"]}"#;
    let expected: Vec<String> = ["A", "t1", "s1", "s2"].iter().map(|s| s.to_string()).collect();
    assert_eq!(candidates_of_body(body), Some(expected));
    assert_eq!(candidates_of_body("{}"), Some(vec![EMPTY_NET.to_string()]));
    assert_eq!(candidates_of_body("["), None);
}

#[test]
fn a_quirk_comes_only_on_a_low_roll() {
    let mut rng = rand::thread_rng();
    let mut m = plain();
    m.quirks = vec![];
    assert_eq!(think_end_with(&mut m, "one".to_string(), 28, &mut rng), None);
    assert!(m.quirks.is_empty());
    let q = think_end_with(&mut m, "two".to_string(), 27, &mut rng);
    assert_eq!(m.quirks.len(), 1);
    assert_eq!(q, Some(m.quirks[0].clone()));
    assert_eq!(m.last_thought, "two");
}

#[test]
fn a_low_roll_searches_the_first_obsession() {
    let mut rng = rand::thread_rng();
    let mut m = plain();
    m.obsessions = vec!["tides".to_string(), "moss".to_string()];
    assert_eq!(search_begin_with(&mut m, 44, &mut rng), Some("tides".to_string()));
    assert_eq!(m.search_history.last().map(|s| s.as_str()), Some("tides"));
    let q = search_begin_with(&mut m, 45, &mut rng).unwrap();
    assert_eq!(m.search_history.last(), Some(&q));
}

#[test]
fn a_low_roll_turns_the_query_into_an_obsession() {
    let mut rng = rand::thread_rng();
    let mut m = plain();
    let r = search_absorb_with(&mut m, " Deep dive into tides ", "fact".to_string(), 19, &mut rng);
    assert_eq!(r.obsession, Some("tides".to_string()));
    assert_eq!(m.obsessions, vec!["tides".to_string()]);
    let mut n = plain();
    let r = search_absorb_with(&mut n, "moss", "fact".to_string(), 20, &mut rng);
    assert_eq!(r.obsession, None);
    assert!(n.obsessions.is_empty());
}

#[test]
fn a_clever_creature_adopts_a_goal_on_a_low_roll() {
    let mut rng = rand::thread_rng();
    let mut m = plain();
    m.intelligence = 80;
    let (_, g) = plan_with(&mut m, 34, &mut rng);
    let g = g.unwrap();
    assert!(GOALS.contains(&g.as_str()));
    assert_eq!(m.goals, vec![g]);
    let (_, none) = plan_with(&mut m, 35, &mut rng);
    assert_eq!(none, None);
    let mut dull = plain();
    let (_, none) = plan_with(&mut dull, 0, &mut rng);
    assert_eq!(none, None);
    assert!(dull.goals.is_empty());
}

#[test]
fn a_low_roll_writes_down_a_fact() {
    let mut rng = rand::thread_rng();
    let mut m = plain();
    m.learned_facts = vec!["water remembers".to_string()];
    assert_eq!(write_with(&mut m, 49, &mut rng), "I wrote this down: water remembers");
    let f = write_with(&mut m, 50, &mut rng);
    assert_eq!(f, format!("I wrote: {}", m.last_thought));
    let mut blank = plain();
    blank.learned_facts = vec![];
    let f = write_with(&mut blank, 0, &mut rng);
    assert_eq!(f, format!("I wrote: {}", blank.last_thought));
}

#[test]
fn an_exploration_becomes_an_obsession_on_a_low_roll() {
    let mut m = plain();
    let hits = vec!["h1".to_string(), "h2".to_string()];
    assert_eq!(explore_absorb_with(&mut m, "  Tides ", &hits, 21), 2);
    assert_eq!(m.obsessions, vec!["Tides".to_string()]);
    let mut n = plain();
    explore_absorb_with(&mut n, "tides", &hits, 22);
    assert!(n.obsessions.is_empty());
    let mut e = plain();
    assert_eq!(explore_absorb_with(&mut e, "tides", &Vec::new(), 0), 0);
    assert!(e.obsessions.is_empty());
}

#[test]
fn composing_follows_the_roll() {
    let mut rng = rand::thread_rng();
    let mut m = plain();
    m.obsessions = vec!["tides".to_string()];
    assert_eq!(compose_search_query_with(&m, 49, &mut rng), "tides");
    let q = compose_search_query_with(&m, 50, &mut rng);
    assert!(SEARCH_BASE.contains(&q.as_str()));
    m.intelligence = 70;
    let g = compose_goal_with(&m, 39, &mut rng);
    assert!(PLANS.contains(&g.as_str()));
    m.personality = vec![("logic".to_string(), 80)];
    assert_eq!(
        compose_goal_with(&m, 40, &mut rng),
        "understand tides deeply enough to shift my logic"
    );
    let e = compose_experience_with(&m, 54, &mut rng);
    assert!(EXPERIENCES.contains(&e.as_str()));
    let e = compose_experience_with(&m, 55, &mut rng);
    assert_eq!(e, format!("felt {} while touching tides", m.mood));
}

#[test]
fn the_stamp_is_whole_seconds_since_the_epoch() {
    assert_eq!(stamp_of(0), "0");
    assert_eq!(stamp_of(999_999_999), "0");
    assert_eq!(stamp_of(1_700_000_000_123_456_789), "1700000000");
    assert_eq!(stamp_of(-5_000_000_000), "0");
    let now = iso_now();
    assert!(now.parse::<u64>().unwrap() > 1_600_000_000);
}

#[test]
fn results_rank_by_hits_with_ties_in_order() {
    let hits = vec![1usize, 3, 3, 0, 2];
    assert_eq!(rank_by_hits(&hits, 3), vec![1, 2, 4]);
    assert_eq!(rank_by_hits(&hits, 10), vec![1, 2, 4, 0, 3]);
    assert_eq!(rank_by_hits(&hits, 0), Vec::<usize>::new());
    assert_eq!(rank_by_hits(&vec![0, 0, 0], 2), vec![0, 1]);
    assert_eq!(rank_by_hits(&Vec::new(), 4), Vec::<usize>::new());
}

#[test]
fn each_intent_leads_to_its_step() {
    assert_eq!(tick_step(Intent::Think, true), TickStep::Think);
    assert_eq!(tick_step(Intent::Search, true), TickStep::WorldSearch);
    assert_eq!(tick_step(Intent::Search, false), TickStep::Search);
    assert_eq!(tick_step(Intent::Rest, true), TickStep::Rest);
    assert_eq!(tick_step(Intent::Obsess, false), TickStep::Obsess);
    assert_eq!(tick_step(Intent::Plan, false), TickStep::Plan);
    assert_eq!(tick_step(Intent::Mutate, false), TickStep::Mutate);
    assert_eq!(tick_step(Intent::Write, true), TickStep::Write);
    assert_eq!(after_world_search(true), TickStep::Reflect);
    assert_eq!(after_world_search(false), TickStep::Search);
}
