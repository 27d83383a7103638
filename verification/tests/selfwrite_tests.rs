use moxnode::memory::CreatureMemory;
use moxnode::selfwrite::{
    being_text, fragment_file_name, journal_line, manifest_text, signed_string, slug, write_plan,
};

fn owned(v: &[&str]) -> Vec<String> {
    v.iter().map(|s| s.to_string()).collect()
}

fn sample() -> CreatureMemory {
    let mut rng = rand::thread_rng();
    let mut m = CreatureMemory::new_random(&mut rng, Some("Moxnode".to_string()));
    m.run_count = 3;
    m.mood = "curious".to_string();
    m.energy_level = 70;
    m.last_thought = "hm".to_string();
    m.last_intent = "think".to_string();
    m.goals = owned(&["g1"]);
    m.obsessions = owned(&["rust"]);
    m.learned_facts = owned(&["f1", "f2"]);
    m.thought_archive = owned(&["t1"]);
    m
}

#[test]
fn slug_keeps_ascii_alphanumerics_lowercased() {
    assert_eq!(slug("Mox Node-1"), "mox_node_1");
    assert_eq!(slug("Zyxling"), "zyxling");
    assert_eq!(slug("né"), "n_");
}

#[test]
fn signed_numbers() {
    assert_eq!(signed_string(-42), "-42");
    assert_eq!(signed_string(7), "7");
    assert_eq!(signed_string(0), "0");
    assert_eq!(signed_string(i32::MIN), "-2147483648");
}

#[test]
fn journal_line_layout() {
    let m = sample();
    assert_eq!(
        journal_line("1700000000", &m),
        "1700000000 | run 3 | intent=think | mood=curious | energy=70 | hm"
    );
}

#[test]
fn fragment_file_names_are_padded() {
    assert_eq!(fragment_file_name(17, "curious"), "00017_curious.txt");
    assert_eq!(fragment_file_name(123456, "tired"), "123456_tired.txt");
}

#[test]
fn manifest_layout() {
    assert_eq!(
        manifest_text("Mox", "w/mox", "w/mox/journal.log", "w/mox/being.md", "99"),
        "name=Mox\nroot=w/mox\njournal=w/mox/journal.log\nbeing=w/mox/being.md\nstarted=99\n"
    );
}

#[test]
fn write_plan_by_run() {
    let p = write_plan(5);
    assert!(p.portrait && !p.fragment && !p.manifest);
    let q = write_plan(1);
    assert!(!q.portrait && !q.fragment && q.manifest);
    let r = write_plan(85);
    assert!(r.portrait && r.fragment && !r.manifest);
    let s = write_plan(0);
    assert!(s.portrait && s.fragment && !s.manifest);
}

#[test]
fn portrait_layout() {
    let m = sample();
    let expected = "# Moxnode\n\n*written by itself at run 3 · mood curious · energy 70*\n\n\
## I am thinking\n\n> hm\n\n## What I want\n\n- last intent: **think**\n- goal: g1\n\
\n## Obsessions\n\n- rust\n\n## Learned from the wire\n\n- f2\n- f1\n\
\n## Thought archive\n\n- t1\n\n---\n*this file rewrites itself every few runs*\n";
    assert_eq!(being_text(&m), expected);
}

#[test]
fn portrait_keeps_eight_newest_facts_cut_to_200_chars() {
    let mut m = sample();
    m.obsessions = vec![];
    m.thought_archive = vec![];
    m.goals = vec![];
    let long = "x".repeat(250);
    let mut facts: Vec<String> = (0..9).map(|i| format!("fact{i}")).collect();
    facts.push(long);
    m.learned_facts = facts;
    let text = being_text(&m);
    let cut = format!("- {}\n", "x".repeat(200));
    assert!(text.contains(&cut));
    assert!(!text.contains(&"x".repeat(201)));
    assert!(text.contains("- fact8\n- fact7\n- fact6\n- fact5\n- fact4\n- fact3\n- fact2\n"));
    assert!(!text.contains("fact1"));
}

#[test]
fn journal_stamp_is_seconds_since_the_epoch() {
    let s = moxnode::selfwrite::iso_now();
    let secs: u64 = s.parse().expect("digits");
    assert!(secs > 1_600_000_000);
}
