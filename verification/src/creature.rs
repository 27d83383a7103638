//! What a creature does on a tick: thinking, searching, resting,
//! obsessing, planning, writing and mutating, and the mood it ends in.
//!
//! Each step changes the memory and reports what happened, so the caller
//! can narrate it.

use crate::lists::{capped_push, clamp, clamped, normalize_topic, normalized_topic, push_cap, texts};
use crate::memory::{
    archived, fragments_of, trait_value, traits_of, with_fragment, with_trait, within_caps,
    free_of_repeats, CreatureMemory, TRAITS,
};
use crate::rng::{percent_roll, random_index, random_range};
use crate::text::{decimal, decimal_string, truncate, truncated};
use crate::thought::{compose_experience, compose_goal, compose_search_query, compose_thought};
use crate::wired::{pick, strs, FAVORITES, FEARS, FRAGMENTS_OFFLINE, FRAGMENTS_ONLINE, GOALS, QUIRKS};
use rand::rngs::ThreadRng;
use vstd::prelude::*;

verus! {

broadcast use {
    crate::lists::lemma_capped_push_within,
    crate::lists::lemma_capped_push_distinct,
    crate::lists::lemma_texts_len,
};

/// Moods a creature drifts into when nothing else decides.
pub const MOODS: [&'static str; 10] = [
    "curious",
    "contemplative",
    "chaotic",
    "melancholy",
    "excited",
    "confused",
    "serene",
    "restless",
    "enlightened",
    "overwhelmed",
];

/// What a mutation changed.
#[derive(Debug)]
pub enum Mutation {
    /// A trait moved by `change` and now has strength `value`.
    Trait { name: String, change: i32, value: i32 },
    /// A remembered fragment was stored.
    Fragment(String),
    /// A fear was taken on (it may already have been held).
    Fear(String),
    /// A favourite thing was taken on (it may already have been held).
    Favorite(String),
    /// A quirk was drawn; `Some` when the list of quirks grew.
    Quirk(Option<String>),
}

/// The mood the rules dictate, if one does: tired, enlightened,
/// overwhelmed, chaotic or curious, checked in that order.
pub open spec fn mood_rule(m: CreatureMemory) -> Option<Seq<char>> {
    let p = traits_of(m.personality@);
    if m.energy_level < 30 {
        Some("tired"@)
    } else if m.learned_facts@.len() > 10 && m.intelligence > 80 {
        Some("enlightened"@)
    } else if m.search_history@.len() > 18 {
        Some("overwhelmed"@)
    } else if m.energy_level > 80 && trait_value(p, "chaos"@) > 60 {
        Some("chaotic"@)
    } else if trait_value(p, "curiosity"@) > trait_value(p, "anxiety"@) {
        Some("curious"@)
    } else {
        None
    }
}

/// The mood rules in order: a creature with energy under 30 is tired,
/// whatever else holds; a rested one that knows more than 10 facts with
/// intelligence over 80 is enlightened; else one with more than 18
/// searches is overwhelmed; else one with energy over 80 and a chaos trait
/// over 60 is chaotic; else one more curious than anxious is curious; and
/// otherwise no rule decides.
pub proof fn lemma_mood_rules(m: CreatureMemory)
    ensures
        m.energy_level < 30 ==> mood_rule(m) == Some("tired"@),
        m.energy_level >= 30 && m.learned_facts@.len() > 10 && m.intelligence > 80 ==> mood_rule(m)
            == Some("enlightened"@),
        m.energy_level >= 30 && !(m.learned_facts@.len() > 10 && m.intelligence > 80)
            && m.search_history@.len() > 18 ==> mood_rule(m) == Some("overwhelmed"@),
        m.energy_level > 80 && !(m.learned_facts@.len() > 10 && m.intelligence > 80)
            && m.search_history@.len() <= 18 && trait_value(traits_of(m.personality@), "chaos"@)
            > 60 ==> mood_rule(m) == Some("chaotic"@),
        m.energy_level >= 30 && !(m.learned_facts@.len() > 10 && m.intelligence > 80)
            && m.search_history@.len() <= 18 && !(m.energy_level > 80 && trait_value(
            traits_of(m.personality@),
            "chaos"@,
        ) > 60) && trait_value(traits_of(m.personality@), "curiosity"@) > trait_value(
            traits_of(m.personality@),
            "anxiety"@,
        ) ==> mood_rule(m) == Some("curious"@),
        mood_rule(m) is None <==> (m.energy_level >= 30 && !(m.learned_facts@.len() > 10
            && m.intelligence > 80) && m.search_history@.len() <= 18 && !(m.energy_level > 80
            && trait_value(traits_of(m.personality@), "chaos"@) > 60) && trait_value(
            traits_of(m.personality@),
            "curiosity"@,
        ) <= trait_value(traits_of(m.personality@), "anxiety"@)),
{
}

/// `v` moved by `d` and kept within `0..=100`.
pub open spec fn nudged(v: int, d: int) -> int {
    clamped(v + d, 0, 100)
}

/// The key the next stored fragment gets: `fragment_` and the count.
pub open spec fn fragment_key(n: nat) -> Seq<char> {
    "fragment_"@ + decimal(n)
}

/// How far a mutation may move a trait: 24 for a creature that knows more
/// than 5 facts, 12 otherwise.
pub open spec fn trait_room(m: CreatureMemory) -> int {
    if m.learned_facts@.len() > 5 {
        24
    } else {
        12
    }
}

/// Every trait strength can move by `room` either way without leaving the
/// range of `i32`.
pub open spec fn traits_within(m: CreatureMemory, room: int) -> bool {
    forall|i: int|
        0 <= i < m.personality@.len() ==> i32::MIN + room <= #[trigger] m.personality@[i].1
            <= i32::MAX - room
}

/// The fragment key for a table of `n` fragments.
fn fragment_key_for(n: usize) -> (r: String)
    ensures
        r@ == fragment_key(n as nat),
{
    let mut s = "fragment_".to_owned();
    let d = decimal_string(n as u64);
    s.append(d.as_str());
    s
}

/// Pick a random quirk and keep it (at most 20 quirks); the quirk is
/// returned when the list of quirks grew (a quirk already held, or one
/// that replaces the oldest of a full list, is not returned).
pub fn maybe_quirk(mem: &mut CreatureMemory, rng: &mut ThreadRng) -> (r: Option<String>)
    ensures
        exists|q: Seq<char>|
            strs(QUIRKS@).contains(q) && texts(final(mem).quirks@) == capped_push(
                texts(old(mem).quirks@),
                q,
                20,
            ) && (r matches Some(s) ==> s@ == q),
        r is Some <==> final(mem).quirks@.len() > old(mem).quirks@.len(),
        within_caps(*old(mem)) ==> within_caps(*final(mem)),
        free_of_repeats(*old(mem)) ==> free_of_repeats(*final(mem)),
        *final(mem) == (CreatureMemory { quirks: final(mem).quirks, ..*old(mem) }),
{
    let q = pick(&QUIRKS, rng);
    proof {
        let i = choose|i: int| 0 <= i < 15 && q@ == QUIRKS@[i]@;
        assert(strs(QUIRKS@)[i] == q@);
    }
    let before = mem.quirks.len();
    push_cap(&mut mem.quirks, q.to_owned(), 20);
    let r = if mem.quirks.len() > before {
        Some(q.to_owned())
    } else {
        None
    };
    assert(strs(QUIRKS@).contains(q@) && texts(mem.quirks@) == capped_push(
        texts(old(mem).quirks@),
        q@,
        20,
    ) && (r matches Some(s) ==> s@ == q@));
    r
}

/// Think: the creature ages by one run and composes a thought.
pub fn think_begin(mem: &mut CreatureMemory, rng: &mut ThreadRng) -> (r: String)
    requires
        old(mem).age < u64::MAX - 1,
    ensures
        within_caps(*old(mem)) ==> within_caps(*final(mem)),
        free_of_repeats(*old(mem)) ==> free_of_repeats(*final(mem)),
        *final(mem) == (CreatureMemory { age: (old(mem).age + 1) as u64, ..*old(mem) }),
        crate::thought::composed_thought(*final(mem), r@),
{
    mem.age = mem.age + 1;
    compose_thought(mem, rng)
}

/// Finish thinking with a given roll of `0..100`: remember the (styled)
/// thought, gain or lose a little energy, and, when the roll is under 28,
/// draw a quirk, which is returned when the list of quirks grew.
pub fn think_end_with(
    mem: &mut CreatureMemory,
    thought: String,
    roll: u32,
    rng: &mut ThreadRng,
) -> (r: Option<String>)
    requires
        i32::MIN + 8 <= old(mem).energy_level <= i32::MAX - 11,
    ensures
        roll >= 28 ==> r is None && final(mem).quirks == old(mem).quirks,
        roll < 28 ==> exists|q: Seq<char>|
            strs(QUIRKS@).contains(q) && texts(final(mem).quirks@) == capped_push(
                texts(old(mem).quirks@),
                q,
                20,
            ),
        final(mem).last_thought@ == thought@,
        old(mem).energy_level - 8 <= final(mem).energy_level < old(mem).energy_level + 12,
        (final(mem).quirks == old(mem).quirks && r is None) || exists|q: Seq<char>|
            strs(QUIRKS@).contains(q) && texts(final(mem).quirks@) == capped_push(
                texts(old(mem).quirks@),
                q,
                20,
            ) && (r matches Some(s) ==> s@ == q),
        r is Some <==> final(mem).quirks@.len() > old(mem).quirks@.len(),
        texts(final(mem).thought_archive@) == archived(texts(old(mem).thought_archive@), thought@),
        within_caps(*old(mem)) ==> within_caps(*final(mem)),
        free_of_repeats(*old(mem)) ==> free_of_repeats(*final(mem)),
        *final(mem) == (CreatureMemory {
            last_thought: final(mem).last_thought,
            thought_archive: final(mem).thought_archive,
            energy_level: final(mem).energy_level,
            quirks: final(mem).quirks,
            ..*old(mem)
        }),
{
    mem.remember_thought(thought);
    let delta = random_range(rng, -8, 12) as i32;
    mem.energy_level = mem.energy_level + delta;
    if roll < 28 {
        maybe_quirk(mem, rng)
    } else {
        None
    }
}

/// Finish thinking: remember the (styled) thought, gain or lose a little
/// energy, and with a chance of 28 in 100 (see `think_end_with`) draw a
/// quirk, which is returned when the list of quirks grew.
pub fn think_end(mem: &mut CreatureMemory, thought: String, rng: &mut ThreadRng) -> (r: Option<
    String,
>)
    requires
        i32::MIN + 8 <= old(mem).energy_level <= i32::MAX - 11,
    ensures
        final(mem).last_thought@ == thought@,
        old(mem).energy_level - 8 <= final(mem).energy_level < old(mem).energy_level + 12,
        (final(mem).quirks == old(mem).quirks && r is None) || exists|q: Seq<char>|
            strs(QUIRKS@).contains(q) && texts(final(mem).quirks@) == capped_push(
                texts(old(mem).quirks@),
                q,
                20,
            ) && (r matches Some(s) ==> s@ == q),
        r is Some <==> final(mem).quirks@.len() > old(mem).quirks@.len(),
        texts(final(mem).thought_archive@) == archived(texts(old(mem).thought_archive@), thought@),
        within_caps(*old(mem)) ==> within_caps(*final(mem)),
        free_of_repeats(*old(mem)) ==> free_of_repeats(*final(mem)),
        *final(mem) == (CreatureMemory {
            last_thought: final(mem).last_thought,
            thought_archive: final(mem).thought_archive,
            energy_level: final(mem).energy_level,
            quirks: final(mem).quirks,
            ..*old(mem)
        }),
{
    let roll = percent_roll(rng);
    think_end_with(mem, thought, roll, rng)
}

/// Rest: the creature ages, regains 8 to 21 energy and turns serene.
pub fn rest(mem: &mut CreatureMemory, rng: &mut ThreadRng)
    requires
        old(mem).age < u64::MAX,
        old(mem).energy_level <= i32::MAX - 21,
    ensures
        old(mem).energy_level + 8 <= final(mem).energy_level < old(mem).energy_level + 22,
        final(mem).mood@ == "serene"@,
        within_caps(*old(mem)) ==> within_caps(*final(mem)),
        free_of_repeats(*old(mem)) ==> free_of_repeats(*final(mem)),
        *final(mem) == (CreatureMemory {
            age: (old(mem).age + 1) as u64,
            energy_level: final(mem).energy_level,
            mood: final(mem).mood,
            ..*old(mem)
        }),
{
    mem.age = mem.age + 1;
    let gain = random_range(rng, 8, 22) as i32;
    mem.energy_level = mem.energy_level + gain;
    mem.mood = "serene".to_owned();
}

/// Begin a search with a given roll of `0..100`: a creature with curiosity
/// under 25 is too tired and does nothing (`None`). Otherwise it ages and
/// picks a query — its first obsession when it has one and the roll is
/// under 45, else a composed query — and records it.
pub fn search_begin_with(
    mem: &mut CreatureMemory,
    roll: u32,
    rng: &mut ThreadRng,
) -> (r: Option<String>)
    requires
        old(mem).curiosity >= 25 ==> old(mem).age < u64::MAX,
    ensures
        old(mem).curiosity >= 25 && old(mem).obsessions@.len() > 0 && roll < 45 ==> (r matches Some(q)
            && q@ == old(mem).obsessions@[0]@),
        old(mem).curiosity < 25 ==> r is None && *final(mem) == *old(mem),
        old(mem).curiosity >= 25 ==> (r matches Some(q) && texts(final(mem).search_history@)
            == capped_push(texts(old(mem).search_history@), q@, 25) && *final(mem) == (
        CreatureMemory {
            age: (old(mem).age + 1) as u64,
            search_history: final(mem).search_history,
            ..*old(mem)
        }) && crate::thought::search_query_for(*old(mem), q@)),
        within_caps(*old(mem)) ==> within_caps(*final(mem)),
        free_of_repeats(*old(mem)) ==> free_of_repeats(*final(mem)),
{
    if mem.curiosity < 25 {
        return None;
    }
    mem.age = mem.age + 1;
    let query = if mem.obsessions.len() > 0 && roll < 45 {
        assert(texts(mem.obsessions@)[0] == mem.obsessions@[0]@);
        mem.obsessions[0].clone()
    } else {
        compose_search_query(mem, rng)
    };
    mem.push_search(query.clone());
    Some(query)
}

/// Begin a search: a creature with curiosity under 25 is too tired and
/// does nothing (`None`). Otherwise it ages and picks a query — its first
/// obsession with a chance of 45 in 100 when it has one, else a composed
/// query (see `search_begin_with`) — and records it. The chance is rolled
/// only for a creature that is not too tired and has an obsession.
pub fn search_begin(mem: &mut CreatureMemory, rng: &mut ThreadRng) -> (r: Option<String>)
    requires
        old(mem).curiosity >= 25 ==> old(mem).age < u64::MAX,
    ensures
        old(mem).curiosity < 25 ==> r is None && *final(mem) == *old(mem),
        old(mem).curiosity >= 25 ==> (r matches Some(q) && texts(final(mem).search_history@)
            == capped_push(texts(old(mem).search_history@), q@, 25) && *final(mem) == (
        CreatureMemory {
            age: (old(mem).age + 1) as u64,
            search_history: final(mem).search_history,
            ..*old(mem)
        }) && crate::thought::search_query_for(*old(mem), q@)),
        within_caps(*old(mem)) ==> within_caps(*final(mem)),
        free_of_repeats(*old(mem)) ==> free_of_repeats(*final(mem)),
{
    if mem.curiosity < 25 {
        return None;
    }
    let roll = if mem.obsessions.len() > 0 {
        percent_roll(rng)
    } else {
        100
    };
    search_begin_with(mem, roll, rng)
}

/// What absorbing a search result produced.
pub struct SearchAbsorbed {
    /// The new obsession, when the query became one.
    pub obsession: Option<String>,
    /// The thought the creature had afterwards.
    pub thought: String,
}

/// Finish a search with the fact it brought back and a given roll of
/// `0..100`: learn the fact, grow a little smarter and more or less
/// curious, become obsessed with the query when the roll is under 20,
/// think, and spend 3 to 11 energy.
pub fn search_absorb_with(
    mem: &mut CreatureMemory,
    query: &str,
    fact: String,
    roll: u32,
    rng: &mut ThreadRng,
) -> (r: SearchAbsorbed)
    requires
        old(mem).age < u64::MAX,
        old(mem).intelligence <= i32::MAX - 2,
        i32::MIN + 2 <= old(mem).curiosity <= i32::MAX - 3,
        i32::MIN + 11 <= old(mem).energy_level,
    ensures
        r.obsession is Some <==> roll < 20,
        texts(final(mem).learned_facts@) == if fact@.len() == 0 {
            texts(old(mem).learned_facts@)
        } else {
            capped_push(texts(old(mem).learned_facts@), fact@, 20)
        },
        exists|d: int|
            0 <= d < 3 && final(mem).intelligence == #[trigger] nudged(old(mem).intelligence as int, d),
        exists|d: int|
            -2 <= d < 4 && final(mem).curiosity == #[trigger] nudged(old(mem).curiosity as int, d),
        r.obsession matches Some(o) ==> o@ == normalized_topic(query@) && texts(
            final(mem).obsessions@,
        ) == capped_push(texts(old(mem).obsessions@), o@, 8),
        r.obsession is None ==> final(mem).obsessions == old(mem).obsessions,
        final(mem).last_thought@ == r.thought@,
        old(mem).energy_level - 12 < final(mem).energy_level <= old(mem).energy_level - 3,
        crate::thought::composed_thought(
            CreatureMemory {
                last_thought: old(mem).last_thought,
                thought_archive: old(mem).thought_archive,
                energy_level: old(mem).energy_level,
                ..*final(mem)
            },
            r.thought@,
        ),
        texts(final(mem).thought_archive@) == archived(texts(old(mem).thought_archive@), r.thought@),
        within_caps(*old(mem)) ==> within_caps(*final(mem)),
        free_of_repeats(*old(mem)) ==> free_of_repeats(*final(mem)),
        *final(mem) == (CreatureMemory {
            learned_facts: final(mem).learned_facts,
            intelligence: final(mem).intelligence,
            curiosity: final(mem).curiosity,
            obsessions: final(mem).obsessions,
            last_thought: final(mem).last_thought,
            thought_archive: final(mem).thought_archive,
            energy_level: final(mem).energy_level,
            ..*old(mem)
        }),
{
    mem.push_fact(fact);
    let di = random_range(rng, 0, 3) as i32;
    mem.intelligence = clamp(mem.intelligence + di, 0, 100);
    assert(mem.intelligence == nudged(old(mem).intelligence as int, di as int));
    let dc = random_range(rng, -2, 4) as i32;
    mem.curiosity = clamp(mem.curiosity + dc, 0, 100);
    assert(mem.curiosity == nudged(old(mem).curiosity as int, dc as int));
    let obsession = if roll < 20 {
        let topic = normalize_topic(query);
        push_cap(&mut mem.obsessions, topic.clone(), 8);
        Some(topic)
    } else {
        None
    };
    let thought = compose_thought(mem, rng);
    mem.remember_thought(thought.clone());
    let cost = random_range(rng, 3, 12) as i32;
    mem.energy_level = mem.energy_level - cost;
    SearchAbsorbed { obsession, thought }
}

/// Finish a search with the fact it brought back: learn it, grow a little
/// smarter and more or less curious, become obsessed with the query with a
/// chance of 20 in 100 (see `search_absorb_with`), think, and spend 3 to 11
/// energy.
pub fn search_absorb(
    mem: &mut CreatureMemory,
    query: &str,
    fact: String,
    rng: &mut ThreadRng,
) -> (r: SearchAbsorbed)
    requires
        old(mem).age < u64::MAX,
        old(mem).intelligence <= i32::MAX - 2,
        i32::MIN + 2 <= old(mem).curiosity <= i32::MAX - 3,
        i32::MIN + 11 <= old(mem).energy_level,
    ensures
        texts(final(mem).learned_facts@) == if fact@.len() == 0 {
            texts(old(mem).learned_facts@)
        } else {
            capped_push(texts(old(mem).learned_facts@), fact@, 20)
        },
        exists|d: int|
            0 <= d < 3 && final(mem).intelligence == #[trigger] nudged(old(mem).intelligence as int, d),
        exists|d: int|
            -2 <= d < 4 && final(mem).curiosity == #[trigger] nudged(old(mem).curiosity as int, d),
        r.obsession matches Some(o) ==> o@ == normalized_topic(query@) && texts(
            final(mem).obsessions@,
        ) == capped_push(texts(old(mem).obsessions@), o@, 8),
        r.obsession is None ==> final(mem).obsessions == old(mem).obsessions,
        final(mem).last_thought@ == r.thought@,
        old(mem).energy_level - 12 < final(mem).energy_level <= old(mem).energy_level - 3,
        crate::thought::composed_thought(
            CreatureMemory {
                last_thought: old(mem).last_thought,
                thought_archive: old(mem).thought_archive,
                energy_level: old(mem).energy_level,
                ..*final(mem)
            },
            r.thought@,
        ),
        texts(final(mem).thought_archive@) == archived(texts(old(mem).thought_archive@), r.thought@),
        within_caps(*old(mem)) ==> within_caps(*final(mem)),
        free_of_repeats(*old(mem)) ==> free_of_repeats(*final(mem)),
        *final(mem) == (CreatureMemory {
            learned_facts: final(mem).learned_facts,
            intelligence: final(mem).intelligence,
            curiosity: final(mem).curiosity,
            obsessions: final(mem).obsessions,
            last_thought: final(mem).last_thought,
            thought_archive: final(mem).thought_archive,
            energy_level: final(mem).energy_level,
            ..*old(mem)
        }),
{
    let roll = percent_roll(rng);
    search_absorb_with(mem, query, fact, roll, rng)
}

/// Obsess: the creature ages, takes a topic — a search query when it knows
/// no facts, otherwise the normalized start of a random fact — keeps it
/// among at most 8 obsessions, and thinks. Returns the topic and thought.
pub fn obsess(mem: &mut CreatureMemory, rng: &mut ThreadRng) -> (r: (String, String))
    requires
        old(mem).age < u64::MAX - 1,
    ensures
        old(mem).learned_facts@.len() > 0 ==> exists|f: Seq<char>|
            texts(old(mem).learned_facts@).contains(f) && r.0@ == normalized_topic(
                truncated(f, 80),
            ),
        old(mem).learned_facts@.len() == 0 ==> crate::thought::search_query_for(*old(mem), r.0@),
        texts(final(mem).obsessions@) == capped_push(texts(old(mem).obsessions@), r.0@, 8),
        final(mem).last_thought@ == r.1@,
        crate::thought::composed_thought(
            CreatureMemory {
                last_thought: old(mem).last_thought,
                thought_archive: old(mem).thought_archive,
                ..*final(mem)
            },
            r.1@,
        ),
        texts(final(mem).thought_archive@) == archived(texts(old(mem).thought_archive@), r.1@),
        within_caps(*old(mem)) ==> within_caps(*final(mem)),
        free_of_repeats(*old(mem)) ==> free_of_repeats(*final(mem)),
        *final(mem) == (CreatureMemory {
            age: (old(mem).age + 1) as u64,
            obsessions: final(mem).obsessions,
            last_thought: final(mem).last_thought,
            thought_archive: final(mem).thought_archive,
            ..*old(mem)
        }),
{
    mem.age = mem.age + 1;
    let topic = if mem.learned_facts.len() == 0 {
        compose_search_query(mem, rng)
    } else {
        let i = random_index(rng, mem.learned_facts.len());
        let cut = truncate(mem.learned_facts[i].as_str(), 80);
        let ghost f = mem.learned_facts@[i as int]@;
        assert(texts(old(mem).learned_facts@)[i as int] == f);
        let t = normalize_topic(cut.as_str());
        assert(texts(old(mem).learned_facts@).contains(f) && t@ == normalized_topic(
            truncated(f, 80),
        ));
        t
    };
    push_cap(&mut mem.obsessions, topic.clone(), 8);
    let thought = compose_thought(mem, rng);
    mem.remember_thought(thought.clone());
    (topic, thought)
}

/// Plan with a given roll of `0..100`: the creature ages, composes a plan
/// (at most 6 kept), and a clever one (intelligence over 70) also adopts a
/// grand goal (at most 4 kept) when the roll is under 35; then it thinks.
/// Returns the plan and the adopted goal.
pub fn plan_with(
    mem: &mut CreatureMemory,
    roll: u32,
    rng: &mut ThreadRng,
) -> (r: (String, Option<String>))
    requires
        old(mem).age < u64::MAX - 1,
    ensures
        r.1 is Some <==> old(mem).intelligence > 70 && roll < 35,
        texts(final(mem).plans@) == capped_push(texts(old(mem).plans@), r.0@, 6),
        crate::thought::composed_goal(CreatureMemory { age: (old(mem).age + 1) as u64, ..*old(mem) }, r.0@),
        r.1 matches Some(g) ==> old(mem).intelligence > 70 && strs(GOALS@).contains(g@) && texts(
            final(mem).goals@,
        ) == capped_push(texts(old(mem).goals@), g@, 4),
        r.1 is None ==> final(mem).goals == old(mem).goals,
        crate::thought::composed_thought(
            CreatureMemory {
                last_thought: old(mem).last_thought,
                thought_archive: old(mem).thought_archive,
                ..*final(mem)
            },
            final(mem).last_thought@,
        ),
        texts(final(mem).thought_archive@) == archived(
            texts(old(mem).thought_archive@),
            final(mem).last_thought@,
        ),
        within_caps(*old(mem)) ==> within_caps(*final(mem)),
        free_of_repeats(*old(mem)) ==> free_of_repeats(*final(mem)),
        *final(mem) == (CreatureMemory {
            age: (old(mem).age + 1) as u64,
            plans: final(mem).plans,
            goals: final(mem).goals,
            last_thought: final(mem).last_thought,
            thought_archive: final(mem).thought_archive,
            ..*old(mem)
        }),
{
    mem.age = mem.age + 1;
    let p = compose_goal(mem, rng);
    push_cap(&mut mem.plans, p.clone(), 6);
    let goal = if mem.intelligence > 70 && roll < 35 {
        let g = pick(&GOALS, rng);
        proof {
            let i = choose|i: int| 0 <= i < 6 && g@ == GOALS@[i]@;
            assert(strs(GOALS@)[i] == g@);
        }
        push_cap(&mut mem.goals, g.to_owned(), 4);
        Some(g.to_owned())
    } else {
        None
    };
    let thought = compose_thought(mem, rng);
    mem.remember_thought(thought);
    (p, goal)
}

/// Plan: the creature ages, composes a plan (at most 6 kept), and a clever
/// one (intelligence over 70) adopts a grand goal with a chance of 35 in
/// 100 (see `plan_with`); then it thinks. Returns the plan and the goal.
pub fn plan(mem: &mut CreatureMemory, rng: &mut ThreadRng) -> (r: (String, Option<String>))
    requires
        old(mem).age < u64::MAX - 1,
    ensures
        texts(final(mem).plans@) == capped_push(texts(old(mem).plans@), r.0@, 6),
        crate::thought::composed_goal(CreatureMemory { age: (old(mem).age + 1) as u64, ..*old(mem) }, r.0@),
        r.1 matches Some(g) ==> old(mem).intelligence > 70 && strs(GOALS@).contains(g@) && texts(
            final(mem).goals@,
        ) == capped_push(texts(old(mem).goals@), g@, 4),
        r.1 is None ==> final(mem).goals == old(mem).goals,
        crate::thought::composed_thought(
            CreatureMemory {
                last_thought: old(mem).last_thought,
                thought_archive: old(mem).thought_archive,
                ..*final(mem)
            },
            final(mem).last_thought@,
        ),
        texts(final(mem).thought_archive@) == archived(
            texts(old(mem).thought_archive@),
            final(mem).last_thought@,
        ),
        within_caps(*old(mem)) ==> within_caps(*final(mem)),
        free_of_repeats(*old(mem)) ==> free_of_repeats(*final(mem)),
        *final(mem) == (CreatureMemory {
            age: (old(mem).age + 1) as u64,
            plans: final(mem).plans,
            goals: final(mem).goals,
            last_thought: final(mem).last_thought,
            thought_archive: final(mem).thought_archive,
            ..*old(mem)
        }),
{
    let roll = percent_roll(rng);
    plan_with(mem, roll, rng)
}

/// Write with a given roll of `0..100`: the creature ages, thinks, and
/// stores a fragment under the next fragment key — a fact it wrote down
/// when it knows facts and the roll is under 50, otherwise the thought
/// itself. Returns the fragment.
pub fn write_with(
    mem: &mut CreatureMemory,
    roll: u32,
    rng: &mut ThreadRng,
) -> (r: String)
    requires
        old(mem).age < u64::MAX - 1,
    ensures
        old(mem).learned_facts@.len() > 0 && roll < 50 ==> exists|f: Seq<char>|
            texts(old(mem).learned_facts@).contains(f) && r@ == "I wrote this down: "@ + truncated(
                f,
                120,
            ),
        (old(mem).learned_facts@.len() == 0 || roll >= 50) ==> r@ == "I wrote: "@
            + final(mem).last_thought@,
        (exists|f: Seq<char>|
            texts(old(mem).learned_facts@).contains(f) && r@ == "I wrote this down: "@ + truncated(
                f,
                120,
            )) || r@ == "I wrote: "@ + final(mem).last_thought@,
        fragments_of(final(mem).memory_fragments@) == with_fragment(
            fragments_of(old(mem).memory_fragments@),
            fragment_key(old(mem).memory_fragments@.len() as nat),
            r@,
        ),
        crate::thought::composed_thought(
            CreatureMemory { age: (old(mem).age + 1) as u64, ..*old(mem) },
            final(mem).last_thought@,
        ),
        texts(final(mem).thought_archive@) == archived(
            texts(old(mem).thought_archive@),
            final(mem).last_thought@,
        ),
        within_caps(*old(mem)) ==> within_caps(*final(mem)),
        free_of_repeats(*old(mem)) ==> free_of_repeats(*final(mem)),
        *final(mem) == (CreatureMemory {
            age: (old(mem).age + 1) as u64,
            memory_fragments: final(mem).memory_fragments,
            last_thought: final(mem).last_thought,
            thought_archive: final(mem).thought_archive,
            ..*old(mem)
        }),
{
    mem.age = mem.age + 1;
    let thought = compose_thought(mem, rng);
    mem.remember_thought(thought.clone());
    let fragment = if mem.learned_facts.len() > 0 && roll < 50 {
        let i = random_index(rng, mem.learned_facts.len());
        let mut s = "I wrote this down: ".to_owned();
        let cut = truncate(mem.learned_facts[i].as_str(), 120);
        s.append(cut.as_str());
        let ghost f = mem.learned_facts@[i as int]@;
        assert(texts(old(mem).learned_facts@)[i as int] == f);
        assert(texts(old(mem).learned_facts@).contains(f) && s@ == "I wrote this down: "@
            + truncated(f, 120));
        s
    } else {
        let mut s = "I wrote: ".to_owned();
        s.append(thought.as_str());
        s
    };
    let key = fragment_key_for(mem.memory_fragments.len());
    mem.set_fragment(key, fragment.clone());
    fragment
}

/// Write: the creature ages, thinks, and stores a fragment under the next
/// fragment key — half the time (when it knows facts) a fact it wrote down,
/// otherwise the thought itself (see `write_with`). Returns the fragment.
pub fn write(mem: &mut CreatureMemory, rng: &mut ThreadRng) -> (r: String)
    requires
        old(mem).age < u64::MAX - 1,
    ensures
        (exists|f: Seq<char>|
            texts(old(mem).learned_facts@).contains(f) && r@ == "I wrote this down: "@ + truncated(
                f,
                120,
            )) || r@ == "I wrote: "@ + final(mem).last_thought@,
        fragments_of(final(mem).memory_fragments@) == with_fragment(
            fragments_of(old(mem).memory_fragments@),
            fragment_key(old(mem).memory_fragments@.len() as nat),
            r@,
        ),
        crate::thought::composed_thought(
            CreatureMemory { age: (old(mem).age + 1) as u64, ..*old(mem) },
            final(mem).last_thought@,
        ),
        texts(final(mem).thought_archive@) == archived(
            texts(old(mem).thought_archive@),
            final(mem).last_thought@,
        ),
        within_caps(*old(mem)) ==> within_caps(*final(mem)),
        free_of_repeats(*old(mem)) ==> free_of_repeats(*final(mem)),
        *final(mem) == (CreatureMemory {
            age: (old(mem).age + 1) as u64,
            memory_fragments: final(mem).memory_fragments,
            last_thought: final(mem).last_thought,
            thought_archive: final(mem).thought_archive,
            ..*old(mem)
        }),
{
    let roll = percent_roll(rng);
    write_with(mem, roll, rng)
}

/// What a mutation does to the memory, whichever of its four kinds it
/// is: the creature ages and counts a mutation; a trait move changes that
/// one trait, a fragment is stored under the next key, a fear or a
/// favourite is taken on, and a quirk may be drawn, each leaving the other
/// lists alone; then an experience is gained (at most 14 kept) and a
/// thought is composed and archived.
pub open spec fn mutation_effect(m0: CreatureMemory, m1: CreatureMemory, r: Mutation) -> bool {
    &&& m1.mutations == m0.mutations + 1
    &&& m1.age == m0.age + 1
    &&& r matches Mutation::Trait { name, change, value } ==> {
        &&& exists|i: int| 0 <= i < 10 && name@ == TRAITS@[i]@
        &&& if m0.learned_facts@.len() > 5 {
            -24 <= change <= 24 && change % 2 == 0
        } else {
            -12 <= change <= 12
        }
        &&& value == clamped(trait_value(traits_of(m0.personality@), name@) + change, 0, 100)
        &&& traits_of(m1.personality@) == with_trait(traits_of(m0.personality@), name@, value)
    }
    &&& !(r is Trait) ==> m1.personality == m0.personality
    &&& r matches Mutation::Fragment(f) ==> {
        &&& if m0.learned_facts@.len() == 0 {
            strs(FRAGMENTS_OFFLINE@).contains(f@)
        } else {
            strs(FRAGMENTS_ONLINE@).contains(f@)
        }
        &&& fragments_of(m1.memory_fragments@) == with_fragment(
            fragments_of(m0.memory_fragments@),
            fragment_key(m0.memory_fragments@.len() as nat),
            f@,
        )
    }
    &&& !(r is Fragment) ==> m1.memory_fragments == m0.memory_fragments
    &&& r matches Mutation::Fear(f) ==> strs(FEARS@).contains(f@) && texts(m1.fears@)
        == capped_push(texts(m0.fears@), f@, 12)
    &&& !(r is Fear) ==> m1.fears == m0.fears
    &&& r matches Mutation::Favorite(f) ==> strs(FAVORITES@).contains(f@) && texts(
        m1.favorite_things@,
    ) == capped_push(texts(m0.favorite_things@), f@, 12)
    &&& !(r is Favorite) ==> m1.favorite_things == m0.favorite_things
    &&& r is Quirk ==> exists|q: Seq<char>|
        strs(QUIRKS@).contains(q) && texts(m1.quirks@) == capped_push(texts(m0.quirks@), q, 20)
    &&& !(r is Quirk) ==> m1.quirks == m0.quirks
    &&& exists|e: Seq<char>|
        #![trigger capped_push(texts(m0.experiences@), e, 14)]
        texts(m1.experiences@) == capped_push(texts(m0.experiences@), e, 14)
            && crate::thought::composed_experience(
            CreatureMemory {
                experiences: m0.experiences,
                last_thought: m0.last_thought,
                thought_archive: m0.thought_archive,
                ..m1
            },
            e,
        )
    &&& crate::thought::composed_thought(
        CreatureMemory { last_thought: m0.last_thought, thought_archive: m0.thought_archive, ..m1 },
        m1.last_thought@,
    )
    &&& texts(m1.thought_archive@) == archived(texts(m0.thought_archive@), m1.last_thought@)
    &&& within_caps(m0) ==> within_caps(m1)
    &&& free_of_repeats(m0) ==> free_of_repeats(m1)
    &&& m1 == (CreatureMemory {
        age: m1.age,
        mutations: m1.mutations,
        personality: m1.personality,
        memory_fragments: m1.memory_fragments,
        fears: m1.fears,
        favorite_things: m1.favorite_things,
        quirks: m1.quirks,
        experiences: m1.experiences,
        last_thought: m1.last_thought,
        thought_archive: m1.thought_archive,
        ..m0
    })
}

/// Mutate by a given roll of `0..6` and coin of `0..100`: the creature ages
/// and counts a mutation; then, by the roll, one of four things happens —
/// a random trait moves by up to 12 (doubled for a creature that knows
/// more than 5 facts), a wired fragment is remembered, a fear (coin under
/// 50) or else a favourite is taken on, or a quirk is drawn. Finally it
/// gains an experience (at most 14 kept) and thinks.
pub fn mutate_with(
    mem: &mut CreatureMemory,
    roll: usize,
    coin: u32,
    rng: &mut ThreadRng,
) -> (r: Mutation)
    requires
        old(mem).age < u64::MAX - 1,
        old(mem).mutations < u64::MAX,
        traits_within(*old(mem), trait_room(*old(mem))),
    ensures
        mutation_effect(*old(mem), *final(mem), r),
        roll == 0 ==> r is Trait,
        roll == 1 ==> r is Fragment,
        roll == 2 && coin < 50 ==> r is Fear,
        roll == 2 && coin >= 50 ==> r is Favorite,
        roll >= 3 ==> r is Quirk,
{
    mem.age = mem.age + 1;
    mem.mutations = mem.mutations + 1;
    let outcome = if roll == 0 {
        let t = random_index(rng, 10);
        let name = TRAITS[t];
        let mut change = random_range(rng, -12, 13) as i32;
        if mem.learned_facts.len() > 5 {
            change = change * 2;
        }
        let current = mem.trait_val(name);
        proof {
            lemma_trait_value_bounded(*old(mem), name@, trait_room(*old(mem)));
        }
        let value = clamp(current + change, 0, 100);
        mem.set_trait(name, value);
        Mutation::Trait { name: name.to_owned(), change, value }
    } else if roll == 1 {
        let frag = if mem.learned_facts.len() == 0 {
            let f = pick(&FRAGMENTS_OFFLINE, rng);
            proof {
                let i = choose|i: int| 0 <= i < 5 && f@ == FRAGMENTS_OFFLINE@[i]@;
                assert(strs(FRAGMENTS_OFFLINE@)[i] == f@);
            }
            f
        } else {
            let f = pick(&FRAGMENTS_ONLINE, rng);
            proof {
                let i = choose|i: int| 0 <= i < 5 && f@ == FRAGMENTS_ONLINE@[i]@;
                assert(strs(FRAGMENTS_ONLINE@)[i] == f@);
            }
            f
        };
        let key = fragment_key_for(mem.memory_fragments.len());
        mem.set_fragment(key, frag.to_owned());
        Mutation::Fragment(frag.to_owned())
    } else if roll == 2 {
        if coin < 50 {
            let f = pick(&FEARS, rng);
            proof {
                let i = choose|i: int| 0 <= i < 10 && f@ == FEARS@[i]@;
                assert(strs(FEARS@)[i] == f@);
            }
            push_cap(&mut mem.fears, f.to_owned(), 12);
            Mutation::Fear(f.to_owned())
        } else {
            let f = pick(&FAVORITES, rng);
            proof {
                let i = choose|i: int| 0 <= i < 10 && f@ == FAVORITES@[i]@;
                assert(strs(FAVORITES@)[i] == f@);
            }
            push_cap(&mut mem.favorite_things, f.to_owned(), 12);
            Mutation::Favorite(f.to_owned())
        }
    } else {
        Mutation::Quirk(maybe_quirk(mem, rng))
    };
    let exp = compose_experience(mem, rng);
    push_cap(&mut mem.experiences, exp, 14);
    let thought = compose_thought(mem, rng);
    mem.remember_thought(thought);
    outcome
}

/// Mutate: the creature ages and counts a mutation; then one of four things
/// happens, by a roll of `0..6` drawn here (see `mutate_with`): a random
/// trait moves, a fragment is remembered, a fear or a favourite is taken
/// on (by a coin of `0..100`, drawn only then), or (on half the rolls) a
/// quirk is drawn.
pub fn mutate(mem: &mut CreatureMemory, rng: &mut ThreadRng) -> (r: Mutation)
    requires
        old(mem).age < u64::MAX - 1,
        old(mem).mutations < u64::MAX,
        traits_within(*old(mem), trait_room(*old(mem))),
    ensures
        mutation_effect(*old(mem), *final(mem), r),
{
    let roll = random_index(rng, 6);
    let coin = if roll == 2 {
        percent_roll(rng)
    } else {
        0
    };
    mutate_with(mem, roll, coin, rng)
}


proof fn lemma_trait_value_bounded(m: CreatureMemory, name: Seq<char>, room: int)
    requires
        0 <= room <= 24,
        traits_within(m, room),
    ensures
        i32::MIN + room <= trait_value(traits_of(m.personality@), name) <= i32::MAX - room,
{
    lemma_lookup_bounded(traits_of(m.personality@), name, room);
}

proof fn lemma_lookup_bounded(p: Seq<(Seq<char>, i32)>, name: Seq<char>, room: int)
    requires
        0 <= room <= 24,
        forall|i: int| 0 <= i < p.len() ==> i32::MIN + room <= #[trigger] p[i].1 <= i32::MAX - room,
    ensures
        crate::memory::lookup_trait(p, name) matches Some(v) ==> i32::MIN + room <= v <= i32::MAX
            - room,
    decreases p.len(),
{
    if p.len() > 0 {
        assert(p[0].1 == p[0].1);
        assert forall|i: int| 0 <= i < p.drop_first().len() implies i32::MIN + room <= #[trigger] p.drop_first()[i].1 <= i32::MAX - room by {
            assert(p.drop_first()[i] == p[i + 1]);
        }
        lemma_lookup_bounded(p.drop_first(), name, room);
    }
}

/// Settle the mood after a tick: the rules of `mood_rule` decide when
/// they apply, otherwise a random mood is drawn.
pub fn update_mood(mem: &mut CreatureMemory, rng: &mut ThreadRng)
    ensures
        match mood_rule(*old(mem)) {
            Some(m) => final(mem).mood@ == m,
            None => strs(MOODS@).contains(final(mem).mood@),
        },
        old(mem).energy_level < 30 ==> final(mem).mood@ == "tired"@,
        old(mem).energy_level >= 30 && old(mem).learned_facts@.len() > 10 && old(mem).intelligence
            > 80 ==> final(mem).mood@ == "enlightened"@,
        old(mem).energy_level >= 30 && !(old(mem).learned_facts@.len() > 10 && old(mem).intelligence
            > 80) && old(mem).search_history@.len() > 18 ==> final(mem).mood@ == "overwhelmed"@,
        mood_rule(*old(mem)) is None ==> old(mem).energy_level >= 30 && trait_value(
            traits_of(old(mem).personality@),
            "curiosity"@,
        ) <= trait_value(traits_of(old(mem).personality@), "anxiety"@),
        within_caps(*old(mem)) ==> within_caps(*final(mem)),
        free_of_repeats(*old(mem)) ==> free_of_repeats(*final(mem)),
        *final(mem) == (CreatureMemory { mood: final(mem).mood, ..*old(mem) }),
{
    let mood: &str = if mem.energy_level < 30 {
        "tired"
    } else if mem.learned_facts.len() > 10 && mem.intelligence > 80 {
        "enlightened"
    } else if mem.search_history.len() > 18 {
        "overwhelmed"
    } else if mem.energy_level > 80 && mem.trait_val("chaos") > 60 {
        "chaotic"
    } else if mem.trait_val("curiosity") > mem.trait_val("anxiety") {
        "curious"
    } else {
        let i = random_index(rng, 10);
        let m = MOODS[i];
        assert(strs(MOODS@)[i as int] == m@);
        m
    };
    mem.mood = mood.to_owned();
}

/// Close a tick: count the run, settle the mood, and clamp energy into
/// `0..=100`.
pub fn finish_tick(mem: &mut CreatureMemory, rng: &mut ThreadRng)
    requires
        old(mem).run_count < u64::MAX,
    ensures
        final(mem).run_count == old(mem).run_count + 1,
        match mood_rule(CreatureMemory { run_count: (old(mem).run_count + 1) as u64, ..*old(mem) }) {
            Some(m) => final(mem).mood@ == m,
            None => strs(MOODS@).contains(final(mem).mood@),
        },
        final(mem).energy_level == clamped(old(mem).energy_level as int, 0, 100),
        within_caps(*old(mem)) ==> within_caps(*final(mem)),
        free_of_repeats(*old(mem)) ==> free_of_repeats(*final(mem)),
        *final(mem) == (CreatureMemory {
            run_count: final(mem).run_count,
            mood: final(mem).mood,
            energy_level: final(mem).energy_level,
            ..*old(mem)
        }),
{
    mem.run_count = mem.run_count + 1;
    update_mood(mem, rng);
    mem.energy_level = clamp(mem.energy_level, 0, 100);
}

/// The pause before the next tick without chaos: 2 s when energetic
/// (over 80), 8 s when tired (under 30), 3 s otherwise, cut to 70% for a
/// very curious creature (over 80).
pub open spec fn base_sleep(m: CreatureMemory) -> int {
    let ms = if m.energy_level > 80 {
        2000int
    } else if m.energy_level < 30 {
        8000int
    } else {
        3000int
    };
    if m.curiosity > 80 {
        ms * 7 / 10
    } else {
        ms
    }
}

/// Milliseconds to sleep before the next tick: 80 in turbo mode;
/// otherwise the base pause, scaled by a random factor in `[0.5, 2.5)`
/// for a chaotic creature (chaos over 70), kept within `1000..=15000`.
pub fn sleep_ms(mem: &CreatureMemory, rng: &mut ThreadRng, turbo: bool) -> (r: u64)
    ensures
        turbo ==> r == 80,
        !turbo ==> 1000 <= r <= 15000,
        !turbo && trait_value(traits_of(mem.personality@), "chaos"@) <= 70 ==> r == clamped(
            base_sleep(*mem),
            1000,
            15000,
        ),
        !turbo && trait_value(traits_of(mem.personality@), "chaos"@) > 70 ==> exists|s: int|
            base_sleep(*mem) / 2 <= s < base_sleep(*mem) * 5 / 2 && r == clamped(s, 1000, 15000),
{
    if turbo {
        return 80;
    }
    let mut ms: u64 = 3000;
    if mem.energy_level > 80 {
        ms = 2000;
    } else if mem.energy_level < 30 {
        ms = 8000;
    }
    if mem.curiosity > 80 {
        ms = ms * 7 / 10;
    }
    assert(ms == base_sleep(*mem));
    if mem.trait_val("chaos") > 70 {
        let lo = (ms / 2) as i64;
        let hi = (ms * 5 / 2) as i64;
        ms = random_range(rng, lo, hi) as u64;
        assert(base_sleep(*mem) / 2 <= ms < base_sleep(*mem) * 5 / 2);
    }
    let r = if ms < 1000 {
        1000
    } else if ms > 15_000 {
        15_000
    } else {
        ms
    };
    assert(r == clamped(ms as int, 1000, 15000));
    r
}

} // verus!
