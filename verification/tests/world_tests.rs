use moxnode::evolution::RitualClock;
use moxnode::memory::CreatureMemory;
use moxnode::world::{apply_bias, decide_search, explore_absorb, should_search, QueryBias};

fn owned(v: &[&str]) -> Vec<String> {
    v.iter().map(|s| s.to_string()).collect()
}

fn creature() -> CreatureMemory {
    let mut rng = rand::thread_rng();
    let mut m = CreatureMemory::new_random(&mut rng, Some("Wanderer".to_string()));
    m.personality = vec![("curiosity".to_string(), 10)];
    m.curiosity = 60;
    m.energy_level = 60;
    m.intelligence = 60;
    m
}

#[test]
fn bias_words_the_query() {
    assert_eq!(apply_bias(QueryBias::Evidence, "memory"), "evidence for memory");
    assert_eq!(apply_bias(QueryBias::Novel, "memory"), "novel perspectives on memory");
    assert_eq!(apply_bias(QueryBias::Symbolic, "memory"), "memory symbolic meaning");
    assert_eq!(apply_bias(QueryBias::Plain, "memory"), "memory");
}

#[test]
fn no_search_without_internet_or_drive() {
    let mut rng = rand::thread_rng();
    let mut m = creature();
    m.mood = "confused".to_string();
    let none: Vec<RitualClock> = Vec::new();
    assert_eq!(should_search(&m, false, true, &none, "memory", QueryBias::Plain, &mut rng), None);
    m.curiosity = 10;
    m.energy_level = 10;
    assert_eq!(should_search(&m, true, true, &none, "memory", QueryBias::Plain, &mut rng), None);
}

#[test]
fn no_trigger_no_search() {
    let mut rng = rand::thread_rng();
    let m = creature();
    let none: Vec<RitualClock> = Vec::new();
    for _ in 0..20 {
        assert_eq!(should_search(&m, true, false, &none, "memory", QueryBias::Plain, &mut rng), None);
    }
}

#[test]
fn a_confused_creature_may_search_its_top_topic() {
    let mut rng = rand::thread_rng();
    let mut m = creature();
    m.mood = "confused".to_string();
    let none: Vec<RitualClock> = Vec::new();
    for _ in 0..20 {
        if let Some(s) = should_search(&m, true, false, &none, "memory", QueryBias::Evidence, &mut rng) {
            assert_eq!(s, "confusion|evidence for memory");
        }
    }
}

#[test]
fn a_due_ritual_may_trigger_a_search_on_an_obsession() {
    let mut rng = rand::thread_rng();
    let mut m = creature();
    m.run_count = 30;
    let rituals = vec![RitualClock { name: "reflection".to_string(), cadence_runs: 10, last_run: 5 }];
    for _ in 0..20 {
        if let Some(s) = should_search(&m, true, false, &rituals, "memory", QueryBias::Plain, &mut rng) {
            assert_eq!(s, "ritual|memory");
        }
    }
    m.obsessions = owned(&["quantum foam"]);
    for _ in 0..20 {
        if let Some(s) = should_search(&m, true, false, &rituals, "memory", QueryBias::Symbolic, &mut rng) {
            assert!(
                s == "obsession reinforcement|quantum foam symbolic meaning"
                    || s == "ritual|quantum foam symbolic meaning"
            );
        }
    }
}

#[test]
fn exploration_keeps_the_first_five_results() {
    let mut rng = rand::thread_rng();
    let mut m = creature();
    let hits = owned(&["h1", "h2", "", "h4", "h5", "h6", "h7"]);
    let stored = explore_absorb(&mut m, "Deep dive into tides", &hits, &mut rng);
    assert_eq!(stored, 5);
    assert_eq!(m.learned_facts, owned(&["h1", "h2", "h4", "h5"]));
    assert_eq!(m.intelligence, 61);
    assert!(m.obsessions.is_empty() || m.obsessions == owned(&["tides"]));
}

#[test]
fn exploration_with_nothing_found() {
    let mut rng = rand::thread_rng();
    let mut m = creature();
    m.intelligence = 100;
    let stored = explore_absorb(&mut m, "tides", &Vec::new(), &mut rng);
    assert_eq!(stored, 0);
    assert!(m.learned_facts.is_empty());
    assert!(m.obsessions.is_empty());
    assert_eq!(m.intelligence, 100);
}

#[test]
fn search_decisions_by_roll() {
    let none: Vec<RitualClock> = Vec::new();
    let mut m = creature();
    m.mood = "confused".to_string();
    assert_eq!(
        decide_search(&m, true, false, &none, "memory", QueryBias::Evidence, 99, 99, 44, 0),
        Some("confusion|evidence for memory".to_string())
    );
    assert_eq!(decide_search(&m, true, false, &none, "memory", QueryBias::Plain, 0, 0, 45, 0), None);
    assert_eq!(decide_search(&m, false, false, &none, "memory", QueryBias::Plain, 0, 0, 0, 0), None);
    let mut c = creature();
    c.personality = vec![("curiosity".to_string(), 90)];
    assert_eq!(
        decide_search(&c, true, true, &none, "memory", QueryBias::Plain, 34, 99, 34, 0),
        Some("curiosity spike|memory".to_string())
    );
    assert_eq!(
        decide_search(&c, true, true, &none, "memory", QueryBias::Plain, 35, 99, 54, 0),
        Some("contradiction|memory".to_string())
    );
    let mut o = creature();
    o.obsessions = vec!["tides".to_string(), "moons".to_string()];
    assert_eq!(
        decide_search(&o, true, false, &none, "memory", QueryBias::Novel, 99, 29, 29, 1),
        Some("obsession reinforcement|novel perspectives on moons".to_string())
    );
    assert_eq!(decide_search(&o, true, false, &none, "memory", QueryBias::Plain, 99, 30, 0, 1), None);
    let due = vec![RitualClock { name: "reflection".to_string(), cadence_runs: 1, last_run: 0 }];
    o.run_count = 5;
    assert_eq!(
        decide_search(&o, true, false, &due, "memory", QueryBias::Symbolic, 99, 30, 49, 0),
        Some("ritual|tides symbolic meaning".to_string())
    );
}
