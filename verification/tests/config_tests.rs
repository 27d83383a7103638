use moxnode::config::EvolutionConfig;
use moxnode::intent::Intent;

fn flags(c: &EvolutionConfig) -> [bool; 9] {
    [
        c.internet,
        c.memory_decay,
        c.society,
        c.habits,
        c.priorities,
        c.dreams,
        c.rituals,
        c.expression,
        c.leaps,
    ]
}

#[test]
fn none_and_all() {
    assert_eq!(flags(&EvolutionConfig::none()), [false; 9]);
    assert_eq!(flags(&EvolutionConfig::all()), [true; 9]);
    assert!(!EvolutionConfig::none().any());
    assert!(EvolutionConfig::all().any());
}

#[test]
fn evolution_switch_turns_everything_on() {
    let c = EvolutionConfig::from_cli(true, false, false, false, false, false, false, false, false, false);
    assert_eq!(flags(&c), [true; 9]);
}

#[test]
fn single_switches_are_kept() {
    let c = EvolutionConfig::from_cli(false, false, false, false, true, false, false, true, false, false);
    assert_eq!(flags(&c), [false, false, false, true, false, false, true, false, false]);
    assert!(c.any());
    let off = EvolutionConfig::from_cli(false, false, false, false, false, false, false, false, false, false);
    assert!(!off.any());
}

#[test]
fn intent_labels() {
    assert_eq!(Intent::Think.label(), "think");
    assert_eq!(Intent::Search.label(), "search");
    assert_eq!(Intent::Rest.label(), "rest");
    assert_eq!(Intent::Obsess.label(), "obsess");
    assert_eq!(Intent::Plan.label(), "plan");
    assert_eq!(Intent::Mutate.label(), "mutate");
    assert_eq!(Intent::Write.label(), "write");
}
