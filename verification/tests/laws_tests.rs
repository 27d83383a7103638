use moxnode::creature::{
    finish_tick, maybe_quirk, mutate, obsess, plan, rest, search_absorb, search_begin, think_begin,
    think_end,
};
use moxnode::memory::CreatureMemory;
use moxnode::world::explore_absorb;
use std::collections::HashSet;

fn caps_hold(m: &CreatureMemory) -> bool {
    m.thought_archive.len() <= 40
        && m.learned_facts.len() <= 20
        && m.search_history.len() <= 25
        && m.obsessions.len() <= 8
        && m.plans.len() <= 6
        && m.goals.len() <= 4
        && m.quirks.len() <= 20
        && m.fears.len() <= 12
        && m.favorite_things.len() <= 12
        && m.experiences.len() <= 14
}

fn distinct(v: &[String]) -> bool {
    let set: HashSet<&String> = v.iter().collect();
    set.len() == v.len()
}

fn repeat_free(m: &CreatureMemory) -> bool {
    distinct(&m.thought_archive)
        && distinct(&m.learned_facts)
        && distinct(&m.search_history)
        && distinct(&m.obsessions)
        && distinct(&m.plans)
        && distinct(&m.goals)
        && distinct(&m.quirks)
        && distinct(&m.fears)
        && distinct(&m.favorite_things)
        && distinct(&m.experiences)
        && distinct(&m.personality.iter().map(|e| e.0.clone()).collect::<Vec<_>>())
        && distinct(&m.memory_fragments.iter().map(|e| e.0.clone()).collect::<Vec<_>>())
}


#[test]
fn a_long_life_stays_within_caps_and_free_of_repeats() {
    let mut rng = rand::thread_rng();
    let mut m = CreatureMemory::new_random(&mut rng, Some("Elder".to_string()));
    m.intelligence = 90;
    assert!(caps_hold(&m) && repeat_free(&m));
    for n in 0..400u32 {
        match n % 8 {
            0 => {
                let t = think_begin(&mut m, &mut rng);
                think_end(&mut m, t, &mut rng);
            }
            1 => {
                m.curiosity = 60;
                if let Some(q) = search_begin(&mut m, &mut rng) {
                    let fact = format!("fact number {}", n % 37);
                    search_absorb(&mut m, &q, fact, &mut rng);
                }
            }
            2 => {
                obsess(&mut m, &mut rng);
            }
            3 => {
                plan(&mut m, &mut rng);
            }
            4 => {
                moxnode::creature::write(&mut m, &mut rng);
            }
            5 => {
                mutate(&mut m, &mut rng);
            }
            6 => {
                rest(&mut m, &mut rng);
                maybe_quirk(&mut m, &mut rng);
            }
            _ => {
                let hits: Vec<String> = (0..7).map(|k| format!("hit {}", (n + k) % 29)).collect();
                m.intelligence = 90;
                explore_absorb(&mut m, "tides", &hits, &mut rng);
            }
        }
        finish_tick(&mut m, &mut rng);
        assert!(caps_hold(&m), "caps broken after step {n}");
        assert!(repeat_free(&m), "repeat after step {n}");
        assert!((0..=100).contains(&m.energy_level));
    }
}

#[test]
fn sanitizing_twice_is_sanitizing_once() {
    let mut rng = rand::thread_rng();
    let mut m = CreatureMemory::new_random(&mut rng, Some("Tidy".to_string()));
    m.experiences = vec!["a".into(), "".into(), "a".into(), "b".into()];
    m.obsessions = vec!["  Deep dive into tides ".into(), "tides".into(), "Moon".into()];
    m.plans = vec!["p".into(), "p".into()];
    m.energy_level = -40;
    m.curiosity = 400;
    m.personality = vec![];
    m.sanitize();
    let once = m.clone();
    m.sanitize();
    assert_eq!(m.experiences, once.experiences);
    assert_eq!(m.obsessions, once.obsessions);
    assert_eq!(m.plans, once.plans);
    assert_eq!(m.personality, once.personality);
    assert_eq!(m.energy_level, once.energy_level);
    assert_eq!(m.curiosity, once.curiosity);
    assert_eq!(once.obsessions, vec!["tides".to_string(), "Moon".to_string()]);
}

#[test]
fn writing_a_trait_or_fragment_again_keeps_keys_distinct() {
    let mut rng = rand::thread_rng();
    let mut m = CreatureMemory::new_random(&mut rng, Some("Keys".to_string()));
    assert_eq!(m.personality.len(), 10);
    assert!(repeat_free(&m));
    m.set_trait("logic", 3);
    m.set_trait("logic", 4);
    m.set_trait("wonder", 5);
    assert_eq!(m.personality.len(), 11);
    assert_eq!(m.trait_val("logic"), 4);
    m.set_fragment("fragment_0".to_string(), "a".to_string());
    m.set_fragment("fragment_0".to_string(), "b".to_string());
    assert_eq!(m.memory_fragments, vec![("fragment_0".to_string(), "b".to_string())]);
    assert!(repeat_free(&m));
}
