use moxnode::lists::{clamp, contains_str, dedupe, normalize_topic, push_cap, str_eq};

fn owned(v: &[&str]) -> Vec<String> {
    v.iter().map(|s| s.to_string()).collect()
}

#[test]
fn dedupe_drops_empty_and_repeated_entries() {
    let v = owned(&["a", "", "b", "a", "c", "b", ""]);
    assert_eq!(dedupe(v), owned(&["a", "b", "c"]));
}

#[test]
fn dedupe_of_empty_list_is_empty() {
    assert_eq!(dedupe(Vec::new()), Vec::<String>::new());
}

#[test]
fn dedupe_is_idempotent_on_an_example() {
    let v = owned(&["x", "y", "x", "", "z", "y"]);
    let once = dedupe(v);
    let twice = dedupe(once.clone());
    assert_eq!(once, twice);
}

#[test]
fn push_cap_appends_and_drops_oldest() {
    let mut v = owned(&["a", "b", "c"]);
    push_cap(&mut v, "d".to_string(), 3);
    assert_eq!(v, owned(&["b", "c", "d"]));
}

#[test]
fn push_cap_ignores_an_item_already_held() {
    let mut v = owned(&["a", "b", "c"]);
    push_cap(&mut v, "b".to_string(), 3);
    assert_eq!(v, owned(&["a", "b", "c"]));
}

#[test]
fn push_cap_under_the_cap_keeps_everything() {
    let mut v = owned(&["a"]);
    push_cap(&mut v, "b".to_string(), 8);
    assert_eq!(v, owned(&["a", "b"]));
}

#[test]
fn push_cap_twice_is_push_cap_once() {
    let mut once = owned(&["a", "b", "c"]);
    push_cap(&mut once, "z".to_string(), 2);
    let mut twice = once.clone();
    push_cap(&mut twice, "z".to_string(), 2);
    assert_eq!(once, twice);
    assert_eq!(once, owned(&["c", "z"]));
}

#[test]
fn clamp_keeps_values_in_range() {
    assert_eq!(clamp(150, 0, 100), 100);
    assert_eq!(clamp(-5, 0, 100), 0);
    assert_eq!(clamp(42, 0, 100), 42);
    assert_eq!(clamp(0, 0, 100), 0);
    assert_eq!(clamp(100, 0, 100), 100);
}

#[test]
fn normalize_topic_strips_repeated_dive_prefixes() {
    assert_eq!(
        normalize_topic("  Deep dive into deep dive into  rust  "),
        "rust"
    );
}

#[test]
fn normalize_topic_trims_plain_topics() {
    assert_eq!(normalize_topic("\t quantum computing \n"), "quantum computing");
    assert_eq!(normalize_topic(""), "");
}

#[test]
fn normalize_topic_is_idempotent_on_an_example() {
    let once = normalize_topic(" DEEP DIVE INTO  memory ");
    assert_eq!(once, "memory");
    assert_eq!(normalize_topic(&once), once);
}

#[test]
fn contains_and_equality_of_texts() {
    let v = owned(&["alpha", "beta"]);
    assert!(contains_str(&v, "beta"));
    assert!(!contains_str(&v, "gamma"));
    assert!(str_eq("same", "same"));
    assert!(!str_eq("same", "Same"));
}
