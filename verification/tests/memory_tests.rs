use moxnode::memory::{
    format_duration, format_since, format_since_at, name_from, node_name, random_name,
    swarm_file_name, CreatureMemory, NAME_PREFIXES, NAME_SUFFIXES, TRAITS,
};

fn owned(v: &[&str]) -> Vec<String> {
    v.iter().map(|s| s.to_string()).collect()
}

fn fresh() -> CreatureMemory {
    let mut rng = rand::thread_rng();
    CreatureMemory::new_random(&mut rng, Some("Moxnode".to_string()))
}

#[test]
fn durations_in_their_largest_unit() {
    assert_eq!(format_duration(0), "0s");
    assert_eq!(format_duration(42), "42s");
    assert_eq!(format_duration(59), "59s");
    assert_eq!(format_duration(60), "1m");
    assert_eq!(format_duration(3599), "59m");
    assert_eq!(format_duration(3600), "1h");
    assert_eq!(format_duration(86_399), "23h");
    assert_eq!(format_duration(86_400), "1d");
    assert_eq!(format_duration(200_000), "2d");
}

#[test]
fn since_with_a_parsed_stamp() {
    let ns: i128 = 1_000_000_000;
    assert_eq!(format_since_at("2024-01-01T00:00:00Z", Some(0), 90 * ns), "1m");
    assert_eq!(format_since_at("2024-01-01T00:00:00Z", Some(90 * ns), 0), "1m");
    assert_eq!(format_since_at("x", Some(5 * ns), 5 * ns), "0s");
}

#[test]
fn since_with_an_unparsed_stamp() {
    assert_eq!(format_since_at("2024-01-01 00:00:00.123456789", None, 0), "a while");
    assert_eq!(format_since_at("yesterday", None, 0), "unknown");
    assert_eq!(format_since("yesterday"), "unknown");
    assert_eq!(format_since("2024-01-01 00:00:00.123456789"), "a while");
}

#[test]
fn since_of_a_real_stamp_is_a_duration() {
    let s = format_since("2000-01-01T00:00:00Z");
    assert!(s.ends_with('d'));
    assert!(s.len() > 1);
}

#[test]
fn swarm_names_are_padded() {
    assert_eq!(swarm_file_name(7), "00007.json");
    assert_eq!(swarm_file_name(0), "00000.json");
    assert_eq!(swarm_file_name(123456), "123456.json");
    assert_eq!(node_name(42), "node-00042");
    assert_eq!(node_name(99999), "node-99999");
}

#[test]
fn names_from_the_lists() {
    assert_eq!(name_from(6, 6), "Moxnode");
    assert_eq!(name_from(0, 0), "Zyxling");
    let mut rng = rand::thread_rng();
    let n = random_name(&mut rng);
    assert!(NAME_PREFIXES.iter().any(|p| n.starts_with(p)));
    assert!(NAME_SUFFIXES.iter().any(|s| n.ends_with(s)));
}

#[test]
fn newborn_creature() {
    let m = fresh();
    assert_eq!(m.name, "Moxnode");
    assert_eq!(m.age, 0);
    assert_eq!(m.run_count, 0);
    assert_eq!(m.mood, "curious");
    assert_eq!(m.personality.len(), 10);
    for (i, (name, v)) in m.personality.iter().enumerate() {
        assert_eq!(name, TRAITS[i]);
        assert!((0..100).contains(v));
    }
    assert!((50..150).contains(&m.energy_level));
    assert!((50..100).contains(&m.intelligence));
    assert!((50..150).contains(&m.curiosity));
    assert_eq!(m.creation_time, m.last_run_time);
    assert!(m.learned_facts.is_empty() && m.thought_archive.is_empty());
}

#[test]
fn sanitize_tidies_a_loaded_memory() {
    let mut m = fresh();
    m.experiences = owned(&["a", "a", "", "b"]);
    m.obsessions = owned(&["Deep dive into rust", "rust", "  ", " go "]);
    m.thought_archive = owned(&["t", "t"]);
    m.energy_level = 150;
    m.curiosity = -3;
    m.intelligence = 55;
    m.personality = vec![];
    m.sanitize();
    assert_eq!(m.experiences, owned(&["a", "b"]));
    assert_eq!(m.obsessions, owned(&["rust", "go"]));
    assert_eq!(m.thought_archive, owned(&["t"]));
    assert_eq!(m.energy_level, 100);
    assert_eq!(m.curiosity, 0);
    assert_eq!(m.intelligence, 55);
    assert_eq!(m.personality.len(), 10);
}

#[test]
fn traits_read_and_set() {
    let mut m = fresh();
    m.personality = vec![("chaos".to_string(), 12), ("logic".to_string(), 90)];
    assert_eq!(m.trait_val("chaos"), 12);
    assert_eq!(m.trait_val("missing"), 50);
    assert_eq!(m.dominant_trait(), "logic");
    m.set_trait("chaos", 99);
    assert_eq!(m.trait_val("chaos"), 99);
    assert_eq!(m.dominant_trait(), "chaos");
    m.set_trait("empathy", 7);
    assert_eq!(m.trait_val("empathy"), 7);
    m.personality = vec![];
    assert_eq!(m.dominant_trait(), "curiosity");
}

#[test]
fn fragments_are_set_by_key() {
    let mut m = fresh();
    m.set_fragment("fragment_0".to_string(), "one".to_string());
    m.set_fragment("fragment_1".to_string(), "two".to_string());
    m.set_fragment("fragment_0".to_string(), "uno".to_string());
    assert_eq!(m.memory_fragments.len(), 2);
    assert!(m.memory_fragments.contains(&("fragment_0".to_string(), "uno".to_string())));
    assert!(m.memory_fragments.contains(&("fragment_1".to_string(), "two".to_string())));
}

#[test]
fn thoughts_are_remembered_once() {
    let mut m = fresh();
    m.remember_thought("same".to_string());
    m.remember_thought("same".to_string());
    assert_eq!(m.last_thought, "same");
    assert_eq!(m.thought_archive, owned(&["same"]));
    m.remember_thought(String::new());
    assert_eq!(m.last_thought, "");
    assert_eq!(m.thought_archive, owned(&["same"]));
}

#[test]
fn thought_archive_holds_forty() {
    let mut m = fresh();
    for i in 0..45 {
        m.remember_thought(format!("thought {i}"));
    }
    assert_eq!(m.thought_archive.len(), 40);
    assert_eq!(m.thought_archive[0], "thought 5");
}

#[test]
fn facts_and_searches_are_capped() {
    let mut m = fresh();
    m.push_fact(String::new());
    assert!(m.learned_facts.is_empty());
    for i in 0..30 {
        m.push_fact(format!("fact {i}"));
        m.push_search(format!("query {i}"));
    }
    assert_eq!(m.learned_facts.len(), 20);
    assert_eq!(m.learned_facts[0], "fact 10");
    assert_eq!(m.search_history.len(), 25);
    assert_eq!(m.search_history[0], "query 5");
}

#[test]
fn now_is_a_utc_stamp() {
    let s = moxnode::memory::now_iso();
    let b = s.as_bytes();
    assert!(b.len() >= 20);
    assert_eq!(b[4], b'-');
    assert_eq!(b[10], b'T');
    assert_eq!(b[13], b':');
    assert_eq!(*b.last().unwrap(), b'Z');
    assert_ne!(format_since(&s), "unknown");
}
