use moxnode::memory::CreatureMemory;
use moxnode::thought::{
    compose_experience, compose_goal, compose_search_query, compose_thought, has_bytes, pick_string,
    thought_text_with, ThoughtCtx,
};
use moxnode::wired::{pick, search_query, wired_text_with, EXPERIENCES, PLANS, SEARCH_BASE};

fn ctx() -> ThoughtCtx {
    ThoughtCtx {
        tokens: vec!["signal".to_string()],
        topic: "tides".to_string(),
        mood: "curious".to_string(),
        trait_name: "logic".to_string(),
        fear: "null pointers".to_string(),
        favorite: "clean code".to_string(),
        snippet: String::new(),
        quirk: "thinks 404 errors are existential statements".to_string(),
        age: 7,
    }
}

#[test]
fn thought_frames_fill_in_the_context() {
    let c = ctx();
    assert_eq!(
        thought_text_with(0, &c, "w", "v"),
        "I feel curious enough to chase tides while my logic stays loud"
    );
    assert_eq!(thought_text_with(1, &c, "signal", "v"), "run 7 rewired how I see tides — signal might be the hinge");
    assert_eq!(thought_text_with(12, &c, "signal", "v"), "tides and signal keep colliding in my head");
    assert_eq!(thought_text_with(6, &c, "w", "v"), "no fresh data — I invent pressure around tides");
    assert_eq!(thought_text_with(4, &c, "w", "probe"), "I want to probe tides before the next tick erases it");
}

#[test]
fn snippet_frame_when_there_is_a_snippet() {
    let mut c = ctx();
    c.snippet = "water moves".to_string();
    assert_eq!(thought_text_with(6, &c, "w", "v"), "water moves …does tides still hold?");
}

#[test]
fn wired_frames_fill_in_the_context() {
    let c = ctx();
    assert_eq!(wired_text_with(1, &c, "w"), "Do tides dream of infinite clean code?");
    assert_eq!(wired_text_with(10, &c, "w"), "404 isn't missing — it's tides refusing to be found");
    assert_eq!(
        wired_text_with(13, &c, "signal"),
        "My logic quirk says: signal before the next compile"
    );
    assert_eq!(wired_text_with(15 + 12, &c, "w"), "What if tides is the key to clean code?");
}

#[test]
fn picking_from_lists() {
    let mut rng = rand::thread_rng();
    assert_eq!(pick_string(&[], "the unknown", &mut rng), "the unknown");
    assert_eq!(pick_string(&["only".to_string()], "the unknown", &mut rng), "only");
    let p = pick(&SEARCH_BASE, &mut rng);
    assert!(SEARCH_BASE.contains(&p));
    assert_eq!(search_query(90, 90, Some("fixed"), &mut rng), "fixed");
    let q = search_query(0, 0, None, &mut rng);
    assert!(SEARCH_BASE.contains(&q.as_str()));
}

#[test]
fn byte_length_test() {
    assert!(has_bytes("héllo", 6));
    assert!(!has_bytes("héllo", 7));
    assert!(has_bytes("", 0));
}

#[test]
fn composed_texts() {
    let mut rng = rand::thread_rng();
    let mut m = CreatureMemory::new_random(&mut rng, Some("Poet".to_string()));
    m.intelligence = 10;
    let t = compose_thought(&m, &mut rng);
    assert!(!t.is_empty());
    let g = compose_goal(&m, &mut rng);
    assert!(g.starts_with("understand ") && g.contains(" deeply enough to shift my "));
    m.intelligence = 90;
    let g2 = compose_goal(&m, &mut rng);
    assert!(PLANS.contains(&g2.as_str()) || g2.starts_with("understand "));
    let e = compose_experience(&m, &mut rng);
    assert!(EXPERIENCES.contains(&e.as_str()) || e.starts_with("felt curious while touching "));
    let q = compose_search_query(&m, &mut rng);
    assert!(!q.is_empty());
}

#[test]
fn context_from_memory() {
    let mut rng = rand::thread_rng();
    let mut m = CreatureMemory::new_random(&mut rng, Some("Poet".to_string()));
    m.obsessions = vec!["tides".to_string()];
    m.learned_facts = vec!["Oceans store heat and carbon".to_string()];
    let c = ThoughtCtx::from_memory(&m, &mut rng);
    assert_eq!(c.topic, "tides");
    assert_eq!(c.snippet, "Oceans store heat and carbon");
    assert_eq!(c.fear, "the unknown");
    assert_eq!(c.favorite, "patterns");
    assert_eq!(c.quirk, "restless code");
    assert_eq!(c.mood, "curious");
    assert_eq!(c.tokens, vec!["carbon", "heat", "oceans", "store", "tides"]);
    assert_eq!(c.age, 0);
    let w = c.word(&mut rng);
    assert!(c.tokens.contains(&w));
}
