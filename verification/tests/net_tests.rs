use moxnode::net::{
    cache_key, ddg_url, extract_all_topics, extract_ddg, relevance_hits, search_candidates,
    search_tokens, DdgReply, DdgTopic,
};

fn some(s: &str) -> Option<String> {
    Some(s.to_string())
}

fn owned(v: &[&str]) -> Vec<String> {
    v.iter().map(|s| s.to_string()).collect()
}

#[test]
fn summary_joins_abstract_and_definition() {
    let r = DdgReply { abstract_text: some("A"), definition: some("D"), related: vec![] };
    assert_eq!(extract_ddg(&r), some("A | D"));
}

#[test]
fn summary_takes_one_of_abstract_or_definition() {
    let a = DdgReply { abstract_text: some("only abstract"), definition: some(""), related: vec![] };
    assert_eq!(extract_ddg(&a), some("only abstract"));
    let d = DdgReply { abstract_text: None, definition: some("only definition"), related: vec![] };
    assert_eq!(extract_ddg(&d), some("only definition"));
}

#[test]
fn summary_falls_back_to_first_topic_text() {
    let r = DdgReply {
        abstract_text: some(""),
        definition: None,
        related: vec![
            DdgTopic { text: None, topics: vec![some("nested")] },
            DdgTopic { text: some("T1"), topics: vec![] },
            DdgTopic { text: some("T2"), topics: vec![] },
        ],
    };
    assert_eq!(extract_ddg(&r), some("T1"));
}

#[test]
fn summary_of_an_empty_reply_is_none() {
    let r = DdgReply { abstract_text: None, definition: None, related: vec![] };
    assert_eq!(extract_ddg(&r), None);
    let e = DdgReply {
        abstract_text: None,
        definition: None,
        related: vec![DdgTopic { text: some(""), topics: vec![] }],
    };
    assert_eq!(extract_ddg(&e), None);
}

#[test]
fn all_topics_in_order_without_empty_ones() {
    let r = DdgReply {
        abstract_text: None,
        definition: None,
        related: vec![
            DdgTopic { text: some("a"), topics: vec![some("b"), None, some("")] },
            DdgTopic { text: some(""), topics: vec![some("c")] },
        ],
    };
    assert_eq!(extract_all_topics(&r), owned(&["a", "b", "c"]));
}

#[test]
fn relevance_counts_query_tokens_found() {
    assert_eq!(relevance_hits(&owned(&["rust", "lang"]), "Rust is a language"), 2);
    assert_eq!(relevance_hits(&owned(&["xyz"]), "Rust is a language"), 0);
    assert_eq!(relevance_hits(&owned(&[]), "anything"), 0);
}

#[test]
fn search_tokens_are_lowercase_runs_of_three_bytes() {
    assert_eq!(search_tokens("Hi, Rust-lang!"), owned(&["rust", "lang"]));
}

#[test]
fn request_url_percent_encodes_the_query() {
    assert_eq!(
        ddg_url("hello world!"),
        "https://api.duckduckgo.com/?q=hello%20world%21&format=json&no_html=1&skip_disambig=1"
    );
    assert_eq!(
        ddg_url("café-au_lait.~"),
        "https://api.duckduckgo.com/?q=caf%C3%A9-au_lait.~&format=json&no_html=1&skip_disambig=1"
    );
}

#[test]
fn cache_key_lower_cases_ascii() {
    assert_eq!(cache_key("Hello World ÄÖ"), "hello world ÄÖ");
}

#[test]
fn candidates_put_the_summary_first() {
    let r = DdgReply {
        abstract_text: some("sum"),
        definition: None,
        related: vec![DdgTopic { text: some("t1"), topics: vec![some("t2")] }],
    };
    assert_eq!(search_candidates(&r), owned(&["sum", "t1", "t2"]));
    let bare = DdgReply { abstract_text: None, definition: None, related: vec![] };
    assert_eq!(search_candidates(&bare), vec![moxnode::wired::EMPTY_NET.to_string()]);
    let topics_only = DdgReply {
        abstract_text: None,
        definition: None,
        related: vec![DdgTopic { text: some("t1"), topics: vec![] }],
    };
    assert_eq!(search_candidates(&topics_only), owned(&["t1", "t1"]));
}

#[test]
fn exploration_seeds_come_from_the_list() {
    let mut rng = rand::thread_rng();
    for _ in 0..10 {
        let q = moxnode::net::seed_exploration_queries(&mut rng);
        assert!(moxnode::net::EXPLORATION_SEEDS.contains(&q));
    }
}
