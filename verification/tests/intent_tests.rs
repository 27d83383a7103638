use moxnode::intent::{choose_intent, Intent, IntentInfluence};
use moxnode::memory::CreatureMemory;

/// A creature whose weights (in thousandths) are: think 22000, search
/// 23000, rest 7000, obsess 10000, plan 9500, mutate 13500, write 19500.
fn plain() -> CreatureMemory {
    let mut rng = rand::thread_rng();
    let mut m = CreatureMemory::new_random(&mut rng, Some("Plain".to_string()));
    m.personality = vec![];
    m.energy_level = 50;
    m.curiosity = 50;
    m.intelligence = 50;
    m.learned_facts = vec!["a".to_string(), "b".to_string(), "c".to_string()];
    m.obsessions = vec![];
    m.run_count = 1;
    m
}

fn only(keep: usize) -> IntentInfluence {
    let base = [22000, 23000, 7000, 10000, 9500, 13500, 19500];
    let mut cancel = [0i32; 7];
    for i in 0..7 {
        if i != keep {
            cancel[i] = -base[i];
        }
    }
    IntentInfluence {
        think: cancel[0],
        search: cancel[1],
        rest: cancel[2],
        obsess: cancel[3],
        plan: cancel[4],
        mutate: cancel[5],
        write: cancel[6],
    }
}

#[test]
fn the_only_weighted_intent_is_chosen() {
    let mut rng = rand::thread_rng();
    let m = plain();
    let order = [
        Intent::Think,
        Intent::Search,
        Intent::Rest,
        Intent::Obsess,
        Intent::Plan,
        Intent::Mutate,
        Intent::Write,
    ];
    for (k, expected) in order.iter().enumerate() {
        for _ in 0..10 {
            assert_eq!(choose_intent(&m, &mut rng, Some(only(k))), *expected);
        }
    }
}

#[test]
fn zero_weights_fall_on_the_first_intent() {
    let mut rng = rand::thread_rng();
    let m = plain();
    let zero = IntentInfluence {
        think: -22000,
        search: -23000,
        rest: -7000,
        obsess: -10000,
        plan: -9500,
        mutate: -13500,
        write: -19500,
    };
    assert_eq!(choose_intent(&m, &mut rng, Some(zero)), Intent::Think);
}

#[test]
fn tired_creatures_mostly_rest() {
    let mut rng = rand::thread_rng();
    let mut m = plain();
    m.energy_level = 10;
    // Rest weighs 7000 + 450 * 20 + 40000 = 56000; cancel everything else.
    let inf = IntentInfluence {
        think: -22000,
        search: -(23000 * 3 / 10),
        rest: 0,
        obsess: -10000,
        plan: -9500,
        mutate: -13500,
        write: -19500,
    };
    for _ in 0..10 {
        assert_eq!(choose_intent(&m, &mut rng, Some(inf)), Intent::Rest);
    }
}

#[test]
fn any_intent_may_come_without_influence() {
    let mut rng = rand::thread_rng();
    let m = plain();
    for _ in 0..20 {
        let i = choose_intent(&m, &mut rng, None);
        assert!(!i.label().is_empty());
    }
}
