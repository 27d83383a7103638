use moxnode::creature::{
    finish_tick, maybe_quirk, mutate, obsess, plan, rest, search_absorb, search_begin, sleep_ms,
    think_begin, think_end, update_mood, Mutation, MOODS,
};
use moxnode::memory::CreatureMemory;
use moxnode::wired::{FAVORITES, FEARS, GOALS, QUIRKS};

fn owned(v: &[&str]) -> Vec<String> {
    v.iter().map(|s| s.to_string()).collect()
}

/// A calm, middling creature: no rule but the random one decides its mood.
fn calm() -> CreatureMemory {
    let mut rng = rand::thread_rng();
    let mut m = CreatureMemory::new_random(&mut rng, Some("Calm".to_string()));
    m.personality = vec![
        ("curiosity".to_string(), 40),
        ("anxiety".to_string(), 60),
        ("chaos".to_string(), 10),
    ];
    m.energy_level = 50;
    m.curiosity = 50;
    m.intelligence = 50;
    m
}

#[test]
fn turbo_sleep_is_short() {
    let mut rng = rand::thread_rng();
    assert_eq!(sleep_ms(&calm(), &mut rng, true), 80);
}

#[test]
fn sleep_follows_energy_and_curiosity() {
    let mut rng = rand::thread_rng();
    let mut m = calm();
    assert_eq!(sleep_ms(&m, &mut rng, false), 3000);
    m.energy_level = 90;
    assert_eq!(sleep_ms(&m, &mut rng, false), 2000);
    m.energy_level = 20;
    assert_eq!(sleep_ms(&m, &mut rng, false), 8000);
    m.energy_level = 50;
    m.curiosity = 90;
    assert_eq!(sleep_ms(&m, &mut rng, false), 2100);
}

#[test]
fn chaotic_sleep_stays_in_bounds() {
    let mut rng = rand::thread_rng();
    let mut m = calm();
    m.set_trait("chaos", 90);
    for _ in 0..50 {
        let ms = sleep_ms(&m, &mut rng, false);
        assert!((1500..7500).contains(&ms));
    }
}

#[test]
fn mood_rules_in_order() {
    let mut rng = rand::thread_rng();
    let mut m = calm();
    m.energy_level = 10;
    update_mood(&mut m, &mut rng);
    assert_eq!(m.mood, "tired");

    let mut m = calm();
    m.learned_facts = (0..11).map(|i| format!("f{i}")).collect();
    m.intelligence = 90;
    update_mood(&mut m, &mut rng);
    assert_eq!(m.mood, "enlightened");

    let mut m = calm();
    m.search_history = (0..19).map(|i| format!("q{i}")).collect();
    update_mood(&mut m, &mut rng);
    assert_eq!(m.mood, "overwhelmed");

    let mut m = calm();
    m.energy_level = 90;
    m.set_trait("chaos", 70);
    update_mood(&mut m, &mut rng);
    assert_eq!(m.mood, "chaotic");

    let mut m = calm();
    m.set_trait("curiosity", 80);
    update_mood(&mut m, &mut rng);
    assert_eq!(m.mood, "curious");

    let mut m = calm();
    update_mood(&mut m, &mut rng);
    assert!(MOODS.contains(&m.mood.as_str()));
}

#[test]
fn finishing_a_tick_counts_and_clamps() {
    let mut rng = rand::thread_rng();
    let mut m = calm();
    m.energy_level = 150;
    m.run_count = 4;
    finish_tick(&mut m, &mut rng);
    assert_eq!(m.run_count, 5);
    assert_eq!(m.energy_level, 100);
    let mut t = calm();
    t.energy_level = -20;
    finish_tick(&mut t, &mut rng);
    assert_eq!(t.energy_level, 0);
    assert_eq!(t.mood, "tired");
}

#[test]
fn resting_restores_energy() {
    let mut rng = rand::thread_rng();
    let mut m = calm();
    rest(&mut m, &mut rng);
    assert_eq!(m.age, 1);
    assert_eq!(m.mood, "serene");
    assert!((58..72).contains(&m.energy_level));
}

#[test]
fn a_tired_creature_does_not_search() {
    let mut rng = rand::thread_rng();
    let mut m = calm();
    m.curiosity = 10;
    assert_eq!(search_begin(&mut m, &mut rng), None);
    assert_eq!(m.age, 0);
    assert!(m.search_history.is_empty());
}

#[test]
fn a_search_is_recorded_and_absorbed() {
    let mut rng = rand::thread_rng();
    let mut m = calm();
    let q = search_begin(&mut m, &mut rng).expect("curious enough");
    assert_eq!(m.age, 1);
    assert_eq!(m.search_history, vec![q.clone()]);
    let before = m.energy_level;
    let r = search_absorb(&mut m, &q, "a fact".to_string(), &mut rng);
    assert_eq!(m.learned_facts, owned(&["a fact"]));
    assert_eq!(m.last_thought, r.thought);
    assert!(before - 12 < m.energy_level && m.energy_level <= before - 3);
    assert!((50..53).contains(&m.intelligence));
    if let Some(o) = r.obsession {
        assert!(m.obsessions.contains(&o));
    } else {
        assert!(m.obsessions.is_empty());
    }
}

#[test]
fn thinking_remembers_the_thought() {
    let mut rng = rand::thread_rng();
    let mut m = calm();
    let t = think_begin(&mut m, &mut rng);
    assert_eq!(m.age, 1);
    assert!(!t.is_empty());
    let before = m.energy_level;
    let q = think_end(&mut m, t.clone(), &mut rng);
    assert_eq!(m.last_thought, t);
    assert!(before - 8 <= m.energy_level && m.energy_level < before + 12);
    if let Some(q) = q {
        assert!(QUIRKS.contains(&q.as_str()));
    }
}

#[test]
fn quirks_come_from_the_list() {
    let mut rng = rand::thread_rng();
    let mut m = calm();
    let q = maybe_quirk(&mut m, &mut rng).expect("first quirk is new");
    assert!(QUIRKS.contains(&q.as_str()));
    assert_eq!(m.quirks, vec![q]);
}

#[test]
fn obsessing_on_a_fact() {
    let mut rng = rand::thread_rng();
    let mut m = calm();
    m.learned_facts = owned(&["  Deep dive into quantum foam  "]);
    let (topic, thought) = obsess(&mut m, &mut rng);
    assert_eq!(topic, "quantum foam");
    assert_eq!(m.obsessions, owned(&["quantum foam"]));
    assert_eq!(m.last_thought, thought);
}

#[test]
fn planning_keeps_the_plan() {
    let mut rng = rand::thread_rng();
    let mut m = calm();
    let (p, goal) = plan(&mut m, &mut rng);
    assert_eq!(m.plans, vec![p]);
    assert!(goal.is_none());
    let mut clever = calm();
    clever.intelligence = 95;
    let (_, goal) = plan(&mut clever, &mut rng);
    if let Some(g) = goal {
        assert!(GOALS.contains(&g.as_str()));
        assert_eq!(clever.goals, vec![g]);
    }
}

#[test]
fn writing_stores_a_fragment() {
    let mut rng = rand::thread_rng();
    let mut m = calm();
    let f = moxnode::creature::write(&mut m, &mut rng);
    assert_eq!(f, format!("I wrote: {}", m.last_thought));
    assert_eq!(m.memory_fragments, vec![("fragment_0".to_string(), f)]);
    let g = moxnode::creature::write(&mut m, &mut rng);
    assert_eq!(m.memory_fragments[1], ("fragment_1".to_string(), g));
}

#[test]
fn mutation_changes_one_thing() {
    let mut rng = rand::thread_rng();
    for _ in 0..20 {
        let mut m = calm();
        let r = mutate(&mut m, &mut rng);
        assert_eq!(m.mutations, 1);
        assert_eq!(m.age, 1);
        assert_eq!(m.experiences.len(), 1);
        match r {
            Mutation::Trait { name, change, value } => {
                assert!((-12..=12).contains(&change));
                assert_eq!(m.trait_val(&name), value);
                assert!((0..=100).contains(&value));
            }
            Mutation::Fragment(f) => {
                assert_eq!(m.memory_fragments, vec![("fragment_0".to_string(), f)]);
            }
            Mutation::Fear(f) => assert!(FEARS.contains(&f.as_str()) && m.fears == vec![f]),
            Mutation::Favorite(f) => {
                assert!(FAVORITES.contains(&f.as_str()) && m.favorite_things == vec![f])
            }
            Mutation::Quirk(q) => assert_eq!(q.is_some(), m.quirks.len() == 1),
        }
    }
}
