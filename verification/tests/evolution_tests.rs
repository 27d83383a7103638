use moxnode::evolution::{
    close_dream, cluster_memories, compose_dream, conflict_line, decide_ritual, detect_ritual, habit_pull_at,
    nudge_dominant, distort_text, dream_due,
    ecology_distort, facts_to_sync, finish_leap, first_chars, habit_intent, habit_pattern,
    leap_due, leap_queries, mark_done, normalize_key, prefix_line, record_intent,
    remember_phrase, ritual_due, ritual_intent, style_thought, voice_label, LeapState,
    RitualClock,
};
use moxnode::intent::Intent;
use moxnode::memory::CreatureMemory;

fn owned(v: &[&str]) -> Vec<String> {
    v.iter().map(|s| s.to_string()).collect()
}

fn clock(name: &str, cadence: u64, last: u64) -> RitualClock {
    RitualClock { name: name.to_string(), cadence_runs: cadence, last_run: last }
}

#[test]
fn habit_patterns_by_intent() {
    assert_eq!(habit_pattern(Intent::Search), "curiosity: revisit familiar ideas");
    assert_eq!(habit_pattern(Intent::Think), "reflection: loop known thoughts");
    assert_eq!(habit_pattern(Intent::Rest), "stress: recurring rest pattern");
    assert_eq!(habit_pattern(Intent::Obsess), "confusion: orbit one topic");
    assert_eq!(habit_pattern(Intent::Plan), "habit:plan");
    assert_eq!(habit_pattern(Intent::Write), "habit:write");
}

#[test]
fn a_habit_forms_on_every_sixth_repeat() {
    let mut counts: Vec<(String, u32)> = Vec::new();
    let mut recent: Vec<String> = Vec::new();
    let patterns: Vec<String> = Vec::new();
    for n in 1..=12u32 {
        let due = record_intent(&mut counts, &mut recent, &patterns, Intent::Think);
        if n % 6 == 0 {
            assert_eq!(due, Some(("reflection: loop known thoughts".to_string(), n)));
        } else {
            assert_eq!(due, None);
        }
    }
    assert_eq!(counts, vec![("think".to_string(), 12)]);
    assert_eq!(recent.len(), 12);
}

#[test]
fn a_known_habit_does_not_form_again() {
    let mut counts = vec![("search".to_string(), 5), ("think".to_string(), 2)];
    let mut recent = owned(&["search"]);
    let patterns = owned(&["curiosity: revisit familiar ideas"]);
    let due = record_intent(&mut counts, &mut recent, &patterns, Intent::Search);
    assert_eq!(due, None);
    assert_eq!(counts, vec![("search".to_string(), 6), ("think".to_string(), 2)]);
    assert_eq!(recent, owned(&["search", "search"]));
}

#[test]
fn recent_intents_keep_the_last_twelve() {
    let mut counts: Vec<(String, u32)> = Vec::new();
    let mut recent: Vec<String> = (0..12).map(|i| format!("old{i}")).collect();
    let patterns: Vec<String> = Vec::new();
    record_intent(&mut counts, &mut recent, &patterns, Intent::Rest);
    assert_eq!(recent.len(), 12);
    assert_eq!(recent[0], "old1");
    assert_eq!(recent[11], "rest");
}

#[test]
fn habits_pull_only_matching_intents() {
    let mut rng = rand::thread_rng();
    for _ in 0..30 {
        let r = habit_intent(&owned(&["reflection: loop known thoughts"]), "calm", 50, 50, &mut rng);
        assert!(r.is_none() || r == Some(Intent::Think));
        let s = habit_intent(&owned(&["stress: recurring rest pattern"]), "calm", 50, 80, &mut rng);
        assert!(s.is_none());
    }
    assert!(habit_intent(&Vec::new(), "confused", 99, 0, &mut rng).is_none());
}

#[test]
fn rituals_fall_due_after_their_cadence() {
    assert!(ritual_due(&clock("reflection", 10, 5), 15));
    assert!(!ritual_due(&clock("reflection", 10, 5), 14));
    assert!(!ritual_due(&clock("reflection", 10, 20), 3));
    let rs = vec![clock("search_again", 50, 0), clock("reflection", 10, 5)];
    assert_eq!(ritual_intent(&rs, true, 15), Some(Intent::Write));
    assert_eq!(ritual_intent(&rs, true, 14), None);
    assert_eq!(ritual_intent(&rs, false, 15), None);
    assert_eq!(ritual_intent(&rs, true, 60), Some(Intent::Search));
    let odd = vec![clock("humming", 1, 0)];
    assert_eq!(ritual_intent(&odd, true, 1), Some(Intent::Think));
}

#[test]
fn marking_a_ritual_done() {
    let mut rs = vec![clock("reflection", 10, 5), clock("search_again", 9, 1), clock("reflection", 4, 2)];
    mark_done(&mut rs, "reflection", 20);
    assert_eq!(rs[0].last_run, 20);
    assert_eq!(rs[1].last_run, 1);
    assert_eq!(rs[2].last_run, 2);
    mark_done(&mut rs, "nothing", 30);
    assert_eq!(rs[0].last_run, 20);
}

#[test]
fn rituals_need_five_alike() {
    let mut rng = rand::thread_rng();
    let none: Vec<RitualClock> = Vec::new();
    assert!(detect_ritual(&owned(&["think", "think", "think", "think"]), &none, 9, &mut rng).is_none());
    assert!(detect_ritual(&owned(&["think", "search", "think", "think", "think"]), &none, 9, &mut rng).is_none());
    assert!(detect_ritual(&owned(&["rest", "rest", "rest", "rest", "rest"]), &none, 9, &mut rng).is_none());
    let held = vec![clock("memory_revisit", 8, 0)];
    assert!(detect_ritual(&owned(&["think"; 5]), &held, 9, &mut rng).is_none());
    for _ in 0..20 {
        if let Some(c) = detect_ritual(&owned(&["write"; 6]), &none, 9, &mut rng) {
            assert_eq!(c.name, "reflection");
            assert_eq!(c.last_run, 9);
            assert!((8..24).contains(&c.cadence_runs));
        }
    }
}

#[test]
fn voices_by_index() {
    assert_eq!(voice_label(0), "Explorer");
    assert_eq!(voice_label(1), "Archivist");
    assert_eq!(voice_label(2), "Skeptic");
    assert_eq!(voice_label(3), "Dreamer");
    assert_eq!(voice_label(4), "Philosopher");
    assert_eq!(voice_label(9), "Philosopher");
}

#[test]
fn priority_keys_are_cut_to_24_chars() {
    assert_eq!(normalize_key("short"), "short");
    assert_eq!(normalize_key("abcdefghijklmnopqrstuvwxyz"), "abcdefghijklmnopqrstuvwx");
    assert_eq!(first_chars("héllo", 2), vec!['h', 'é']);
}

#[test]
fn line_markers() {
    assert_eq!(prefix_line(3, false, "search"), "💭");
    assert_eq!(prefix_line(4, true, "think"), "💭");
    assert_eq!(prefix_line(1, true, "think"), "···");
    assert_eq!(prefix_line(0, true, "search"), "⌁");
    assert_eq!(prefix_line(0, true, "world"), "◈");
    assert_eq!(prefix_line(0, true, "dream"), "•");
}

#[test]
fn dreams_recall_memories_cut_short() {
    let long = "a".repeat(60);
    assert_eq!(ecology_distort(&long, true), format!("{}~", "a".repeat(40)));
    assert_eq!(ecology_distort(&long, false), "a".repeat(50));
    assert_eq!(ecology_distort("tiny", true), "tiny~");
    assert_eq!(ecology_distort("tiny", false), "tiny");
}

#[test]
fn a_dream_of_nothing() {
    let mut rng = rand::thread_rng();
    let d = compose_dream(&Vec::new(), &Vec::new(), &Vec::new(), &mut rng);
    let options = [
        "in sleep, static argued with the void",
        "a broken loop: unfinished logic became the void",
        "I tasted static but it meant the void",
        "the void wore the mask of static",
    ];
    assert!(options.contains(&d.as_str()));
}

#[test]
fn a_dream_of_something() {
    let mut rng = rand::thread_rng();
    let mems = vec![("old server".to_string(), true)];
    let d = compose_dream(&mems, &owned(&["rust"]), &owned(&["leap: rust"]), &mut rng);
    let options = [
        "in sleep, old server~ argued with rust",
        "a broken loop: leap: rust became rust",
        "I tasted old server~ but it meant rust",
        "rust wore the mask of old server~",
    ];
    assert!(options.contains(&d.as_str()));
}

#[test]
fn dream_cooldown_and_triggers() {
    let mut rng = rand::thread_rng();
    let mut cd = 2u64;
    assert!(!dream_due(true, &mut cd, 17, true, "restless", 100, 100, &mut rng));
    assert_eq!(cd, 1);
    let mut off = 0u64;
    assert!(!dream_due(false, &mut off, 17, true, "restless", 100, 100, &mut rng));
    assert_eq!(off, 0);
    let mut ready = 0u64;
    assert!(dream_due(true, &mut ready, 34, false, "calm", 100, 100, &mut rng));
    assert_eq!(ready, 0);
    assert!(!dream_due(true, &mut ready, 5, false, "calm", 100, 100, &mut rng));
    assert!(!dream_due(true, &mut ready, 17, true, "restless", -100, -100, &mut rng));
}

#[test]
fn leap_defaults_and_schedule() {
    let l = LeapState::default();
    assert_eq!(l.interval, 100);
    assert_eq!(l.total_leaps, 0);
    assert_eq!(l.last_leap_run, 0);
    assert_eq!(l.theme, "memory");
    let mut cd = 0u64;
    assert!(leap_due(true, &mut cd, 100, 200));
    assert!(!leap_due(true, &mut cd, 100, 0));
    assert!(!leap_due(true, &mut cd, 100, 150));
    let mut busy = 3u64;
    assert!(!leap_due(true, &mut busy, 100, 200));
    assert_eq!(busy, 2);
    let mut idle = 0u64;
    assert!(!leap_due(false, &mut idle, 100, 200));
}

#[test]
fn leap_searches() {
    assert_eq!(
        leap_queries("memory"),
        owned(&["memory forgetting", "memory cognition", "memory nostalgia", "digital memory evolution"])
    );
}

#[test]
fn closing_a_dream() {
    let mut cd = 0u64;
    let mut contradictions = owned(&["a", "b"]);
    close_dream(&mut cd, &mut contradictions);
    assert_eq!(cd, 8);
    assert!(contradictions.is_empty());
}

#[test]
fn finishing_a_leap() {
    let mut rng = rand::thread_rng();
    let mut m = CreatureMemory::new_random(&mut rng, None);
    let mut leap = LeapState::default();
    let mut cd = 0u64;
    let mut dream_cd = 5u64;
    let mut contradictions = owned(&["resurfaced: x"]);
    finish_leap(&mut m, &mut leap, &mut cd, &mut dream_cd, &mut contradictions, "memory".to_string(), 200);
    assert_eq!(dream_cd, 0);
    assert_eq!(contradictions, owned(&["resurfaced: x", "leap: memory"]));
    assert_eq!(m.age, 1);
    assert_eq!(m.obsessions, owned(&["memory"]));
    assert_eq!(leap.theme, "memory");
    assert_eq!(leap.total_leaps, 1);
    assert_eq!(leap.last_leap_run, 200);
    assert_eq!(leap.interval, 99);
    assert_eq!(cd, 12);
    leap.interval = 10;
    finish_leap(&mut m, &mut leap, &mut cd, &mut dream_cd, &mut contradictions, "memory".to_string(), 210);
    assert_eq!(leap.interval, 10);
    assert_eq!(m.obsessions, owned(&["memory"]));
}

#[test]
fn memories_cluster_with_their_best_match() {
    let contents = owned(&["alpha beta gamma", "alpha beta delta", "zeta eta theta"]);
    let mut clusters = vec![7u32, 8, 9];
    cluster_memories(&contents, &mut clusters);
    assert_eq!(clusters, vec![1, 0, 9]);
}

#[test]
fn a_single_shared_word_does_not_cluster() {
    let contents = owned(&["alpha beta", "alpha gamma"]);
    let mut clusters = vec![3u32, 4];
    cluster_memories(&contents, &mut clusters);
    assert_eq!(clusters, vec![3, 4]);
}

#[test]
fn distortion_blots_a_word() {
    let mut rng = rand::thread_rng();
    assert_eq!(distort_text("short", true, &mut rng), "short");
    let s = "one two three four five six seven";
    assert_eq!(distort_text(s, false, &mut rng), s);
    assert!(!distort_text("a long sentence of three", true, &mut rng).is_empty());
    let d = distort_text(s, true, &mut rng);
    let words: Vec<&str> = d.split(' ').collect();
    assert_eq!(words.len(), 7);
    assert_eq!(words.iter().filter(|w| **w == "[...]").count(), 1);
}

#[test]
fn styled_thoughts() {
    let phrases = owned(&["between ticks", "in the wire"]);
    assert_eq!(style_thought(&phrases, true, true, "hello".to_string()), "between ticks, hello");
    assert_eq!(style_thought(&phrases, true, false, "hello".to_string()), "hello");
    assert_eq!(style_thought(&phrases, false, true, "hello".to_string()), "hello");
    assert_eq!(style_thought(&Vec::new(), true, true, "hello".to_string()), "hello");
}

#[test]
fn phrases_are_kept_once_and_twelve_at_most() {
    let mut p = owned(&["a", "b"]);
    remember_phrase(&mut p, "a".to_string());
    assert_eq!(p, owned(&["a", "b"]));
    remember_phrase(&mut p, "c".to_string());
    assert_eq!(p, owned(&["a", "b", "c"]));
    let mut full: Vec<String> = (0..12).map(|i| format!("p{i}")).collect();
    remember_phrase(&mut full, "new".to_string());
    assert_eq!(full.len(), 12);
    assert_eq!(full[0], "p1");
    assert_eq!(full[11], "new");
}

#[test]
fn voice_conflicts() {
    assert_eq!(conflict_line(2, true), "Skeptic wants search, Archivist wants preservation");
    assert_eq!(conflict_line(0, false), "Explorer wants search, Explorer wants preservation");
}

#[test]
fn newest_facts_are_synced_once() {
    let facts = owned(&["f1", "f2", "f3", "f4"]);
    assert_eq!(facts_to_sync(&facts, &Vec::new()), owned(&["f4", "f3", "f2"]));
    assert_eq!(facts_to_sync(&facts, &owned(&["f3"])), owned(&["f4", "f2"]));
    let repeated = owned(&["x", "y", "y"]);
    assert_eq!(facts_to_sync(&repeated, &Vec::new()), owned(&["y", "x"]));
    assert_eq!(facts_to_sync(&Vec::new(), &Vec::new()), Vec::<String>::new());
}

#[test]
fn a_ritual_emerges_on_a_low_roll() {
    let none: Vec<RitualClock> = Vec::new();
    let five = owned(&["search"; 5]);
    let c = decide_ritual(&five, &none, 12, 39, 17).expect("emerges");
    assert_eq!(c.name, "search_again");
    assert_eq!(c.cadence_runs, 17);
    assert_eq!(c.last_run, 12);
    assert!(decide_ritual(&five, &none, 12, 40, 17).is_none());
    let writes = owned(&["think", "write", "write", "write", "write", "write"]);
    assert_eq!(decide_ritual(&writes, &none, 3, 0, 8).map(|c| c.name), Some("reflection".to_string()));
    assert!(decide_ritual(&owned(&["write"; 5]), &vec![clock("reflection", 9, 0)], 3, 0, 8).is_none());
    assert!(decide_ritual(&owned(&["plan"; 5]), &none, 3, 0, 8).is_none());
}

#[test]
fn habit_pulls_by_roll() {
    let calm = "calm";
    assert_eq!(habit_pull_at("confusion: orbit one topic", "confused", 0, 100, (34, 99, 99, 99)), Some(Intent::Search));
    assert_eq!(habit_pull_at("confusion: orbit one topic", "confused", 0, 100, (35, 99, 99, 99)), None);
    assert_eq!(habit_pull_at("curiosity: revisit familiar ideas", calm, 71, 100, (99, 29, 99, 99)), Some(Intent::Search));
    assert_eq!(habit_pull_at("curiosity: revisit familiar ideas", calm, 70, 100, (0, 0, 0, 0)), None);
    assert_eq!(habit_pull_at("stress: recurring rest pattern", calm, 0, 34, (99, 99, 39, 99)), Some(Intent::Rest));
    assert_eq!(habit_pull_at("stress: recurring rest pattern", calm, 0, 35, (0, 0, 0, 0)), None);
    assert_eq!(habit_pull_at("reflection: loop known thoughts", calm, 0, 0, (99, 99, 99, 24)), Some(Intent::Think));
    assert_eq!(habit_pull_at("reflection: loop known thoughts", calm, 0, 0, (99, 99, 99, 25)), None);
    assert_eq!(habit_pull_at("habit:plan", "confused", 99, 0, (0, 0, 0, 0)), None);
}

#[test]
fn a_dream_nudges_the_strongest_trait_on_a_low_roll() {
    let mut rng = rand::thread_rng();
    let mut m = CreatureMemory::new_random(&mut rng, None);
    m.personality = vec![("logic".to_string(), 40), ("chaos".to_string(), 99)];
    let before = m.personality.clone();
    nudge_dominant(&mut m, 30, 3);
    assert_eq!(m.personality, before);
    nudge_dominant(&mut m, 29, 3);
    assert_eq!(m.personality, vec![("logic".to_string(), 40), ("chaos".to_string(), 100)]);
    nudge_dominant(&mut m, 0, -3);
    assert_eq!(m.trait_val("chaos"), 97);
    let mut empty = CreatureMemory::new_random(&mut rng, None);
    empty.personality = vec![];
    nudge_dominant(&mut empty, 0, 3);
    assert!(empty.personality.is_empty());
}
