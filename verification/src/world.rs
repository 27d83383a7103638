//! When a creature reaches out to the world, what it asks, and what it
//! keeps of the answers.

use crate::evolution::{ritual_is_due, RitualClock};
use crate::lists::{capped_push, clamp, clamped, normalize_topic, normalized_topic, push_cap, texts};
use crate::memory::{trait_value, traits_of, within_caps, free_of_repeats, CreatureMemory};
use crate::rng::{percent_roll, random_index};
use crate::words::at_most;
use rand::rngs::ThreadRng;
use vstd::prelude::*;

verus! {

broadcast use {
    crate::lists::lemma_capped_push_within,
    crate::lists::lemma_capped_push_distinct,
    crate::lists::lemma_texts_len,
};

/// How the inner society colours a search: looking for evidence, for
/// novel perspectives, for symbolic meaning, or not at all.
#[derive(Debug, Clone, Copy, PartialEq, Eq, Structural)]
pub enum QueryBias {
    Evidence,
    Novel,
    Symbolic,
    Plain,
}

/// A query on `base` as the bias words it.
pub open spec fn biased_query(b: QueryBias, base: Seq<char>) -> Seq<char> {
    match b {
        QueryBias::Evidence => "evidence for "@ + base,
        QueryBias::Novel => "novel perspectives on "@ + base,
        QueryBias::Symbolic => base + " symbolic meaning"@,
        QueryBias::Plain => base,
    }
}

/// A query on `base` as the bias words it.
pub fn apply_bias(b: QueryBias, base: &str) -> (r: String)
    ensures
        r@ == biased_query(b, base@),
{
    match b {
        QueryBias::Evidence => {
            let mut s = "evidence for ".to_owned();
            s.append(base);
            s
        },
        QueryBias::Novel => {
            let mut s = "novel perspectives on ".to_owned();
            s.append(base);
            s
        },
        QueryBias::Symbolic => {
            let mut s = base.to_owned();
            s.append(" symbolic meaning");
            s
        },
        QueryBias::Plain => base.to_owned(),
    }
}

/// Some ritual of `rs` is due at run `run`.
pub open spec fn any_ritual_due(rs: Seq<RitualClock>, run: u64) -> bool {
    exists|i: int| 0 <= i < rs.len() && ritual_is_due(#[trigger] rs[i], run)
}

/// The trigger of a search and the chance (in percent) that it wins,
/// given the rolls (each in `0..100`) that decide the two chancy ones. The
/// earlier triggers take precedence: confusion (45), a curiosity spike
/// when the curiosity trait is over 75 and its roll is under 35 (35), an
/// open contradiction (55), obsession reinforcement when there are
/// obsessions and its roll is under 30 (30), a due ritual (50).
pub open spec fn search_trigger(
    m: CreatureMemory,
    contradictions_open: bool,
    rituals: Seq<RitualClock>,
    spike_roll: int,
    obsession_roll: int,
) -> Option<(Seq<char>, int)> {
    if m.mood@ == "confused"@ {
        Some(("confusion"@, 45))
    } else if trait_value(traits_of(m.personality@), "curiosity"@) > 75 && spike_roll < 35 {
        Some(("curiosity spike"@, 35))
    } else if contradictions_open {
        Some(("contradiction"@, 55))
    } else if m.obsessions@.len() > 0 && obsession_roll < 30 {
        Some(("obsession reinforcement"@, 30))
    } else if any_ritual_due(rituals, m.run_count) {
        Some(("ritual"@, 50))
    } else {
        None
    }
}

/// Whether a search happens and its `trigger|query` line, given the rolls
/// (each in `0..100`) and the index of the obsession to search for: none
/// with the internet off, for a creature both incurious (under 20) and
/// tired (under 25), without a trigger, or when the win roll is not under
/// the trigger's chance; otherwise the obsession at `pick` (the top topic
/// when there is none), worded by the bias.
pub open spec fn search_outcome(
    m: CreatureMemory,
    internet_on: bool,
    contradictions_open: bool,
    rituals: Seq<RitualClock>,
    top_topic: Seq<char>,
    bias: QueryBias,
    spike_roll: int,
    obsession_roll: int,
    win_roll: int,
    pick: int,
) -> Option<Seq<char>> {
    if !internet_on || (m.curiosity < 20 && m.energy_level < 25) {
        None
    } else {
        match search_trigger(m, contradictions_open, rituals, spike_roll, obsession_roll) {
            None => None,
            Some(t) => if win_roll < t.1 {
                let topic = if m.obsessions@.len() > 0 {
                    m.obsessions@[pick]@
                } else {
                    top_topic
                };
                Some(t.0 + "|"@ + biased_query(bias, topic))
            } else {
                None
            },
        }
    }
}

/// The search triggers in order of precedence, each with its chance in
/// percent: confusion (45) for a confused creature; else a curiosity spike
/// (35) when the curiosity trait is over 75 and its roll under 35; else an
/// open contradiction (55); else obsession reinforcement (30) when there
/// are obsessions and its roll is under 30; else a due ritual (50); else
/// no trigger.
pub proof fn lemma_search_triggers(
    m: CreatureMemory,
    contradictions_open: bool,
    rituals: Seq<RitualClock>,
    spike_roll: int,
    obsession_roll: int,
)
    ensures
        ({
            let t = search_trigger(m, contradictions_open, rituals, spike_roll, obsession_roll);
            let confused = m.mood@ == "confused"@;
            let spike = trait_value(traits_of(m.personality@), "curiosity"@) > 75 && spike_roll < 35;
            let obsessed = m.obsessions@.len() > 0 && obsession_roll < 30;
            &&& confused ==> t == Some(("confusion"@, 45int))
            &&& !confused && spike ==> t == Some(("curiosity spike"@, 35int))
            &&& !confused && !spike && contradictions_open ==> t == Some(("contradiction"@, 55int))
            &&& !confused && !spike && !contradictions_open && obsessed ==> t == Some(
                ("obsession reinforcement"@, 30int),
            )
            &&& !confused && !spike && !contradictions_open && !obsessed && any_ritual_due(
                rituals,
                m.run_count,
            ) ==> t == Some(("ritual"@, 50int))
            &&& t is None <==> (!confused && !spike && !contradictions_open && !obsessed
                && !any_ritual_due(rituals, m.run_count))
        }),
{
}

/// Energy holds back only an incurious creature: for a creature with
/// curiosity of at least 20, whether and what it searches does not depend
/// on its energy at all.
pub proof fn lemma_search_ignores_energy_when_curious(
    m: CreatureMemory,
    energy: i32,
    internet_on: bool,
    contradictions_open: bool,
    rituals: Seq<RitualClock>,
    top_topic: Seq<char>,
    bias: QueryBias,
    spike_roll: int,
    obsession_roll: int,
    win_roll: int,
    pick: int,
)
    requires
        m.curiosity >= 20,
    ensures
        search_outcome(
            m,
            internet_on,
            contradictions_open,
            rituals,
            top_topic,
            bias,
            spike_roll,
            obsession_roll,
            win_roll,
            pick,
        ) == search_outcome(
            CreatureMemory { energy_level: energy, ..m },
            internet_on,
            contradictions_open,
            rituals,
            top_topic,
            bias,
            spike_roll,
            obsession_roll,
            win_roll,
            pick,
        ),
{
}

/// No search without the internet or for a creature both incurious (under
/// 20) and tired (under 25); a confused creature that may search does so
/// exactly when its win roll is under 45, on the trigger `confusion`.
pub proof fn lemma_search_gate(
    m: CreatureMemory,
    internet_on: bool,
    contradictions_open: bool,
    rituals: Seq<RitualClock>,
    top_topic: Seq<char>,
    bias: QueryBias,
    spike_roll: int,
    obsession_roll: int,
    win_roll: int,
    pick: int,
)
    ensures
        (!internet_on || (m.curiosity < 20 && m.energy_level < 25)) ==> search_outcome(
            m,
            internet_on,
            contradictions_open,
            rituals,
            top_topic,
            bias,
            spike_roll,
            obsession_roll,
            win_roll,
            pick,
        ) is None,
        internet_on && !(m.curiosity < 20 && m.energy_level < 25) && m.mood@ == "confused"@ ==> (
        search_outcome(
            m,
            internet_on,
            contradictions_open,
            rituals,
            top_topic,
            bias,
            spike_roll,
            obsession_roll,
            win_roll,
            pick,
        ) is Some <==> win_roll < 45),
        internet_on && !(m.curiosity < 20 && m.energy_level < 25) && m.mood@ == "confused"@
            && win_roll < 45 ==> search_outcome(
            m,
            internet_on,
            contradictions_open,
            rituals,
            top_topic,
            bias,
            spike_roll,
            obsession_roll,
            win_roll,
            pick,
        ) == Some(
            "confusion|"@ + biased_query(
                bias,
                if m.obsessions@.len() > 0 {
                    m.obsessions@[pick]@
                } else {
                    top_topic
                },
            ),
        ),
{
    reveal_strlit("confusion");
    reveal_strlit("|");
    reveal_strlit("confusion|");
    assert("confusion"@ + "|"@ =~= "confusion|"@);
}

/// The text of an optional string.
pub open spec fn text_of(r: Option<String>) -> Option<Seq<char>> {
    match r {
        Some(s) => Some(s@),
        None => None,
    }
}

fn any_due(rituals: &Vec<RitualClock>, run: u64) -> (r: bool)
    ensures
        r == any_ritual_due(rituals@, run),
{
    let mut i: usize = 0;
    while i < rituals.len()
        invariant
            i <= rituals@.len(),
            forall|j: int| 0 <= j < i ==> !ritual_is_due(#[trigger] rituals@[j], run),
        decreases rituals.len() - i,
    {
        if crate::evolution::ritual_due(&rituals[i], run) {
            return true;
        }
        i = i + 1;
    }
    false
}

/// Whether the creature searches the world this tick, given the rolls
/// that decide it (each in `0..100`) and the index of the obsession to
/// search for (below the number of obsessions, when there are any): see
/// `search_outcome`.
pub fn decide_search(
    mem: &CreatureMemory,
    internet_on: bool,
    contradictions_open: bool,
    rituals: &Vec<RitualClock>,
    top_topic: &str,
    bias: QueryBias,
    spike_roll: usize,
    obsession_roll: usize,
    win_roll: usize,
    pick: usize,
) -> (r: Option<String>)
    requires
        mem.obsessions@.len() > 0 ==> pick < mem.obsessions@.len(),
    ensures
        internet_on && mem.curiosity >= 20 && mem.mood@ == "confused"@ ==> (r is Some <==> win_roll
            < 45),
        !internet_on || (mem.curiosity < 20 && mem.energy_level < 25) ==> r is None,
        text_of(r) == search_outcome(
            *mem,
            internet_on,
            contradictions_open,
            rituals@,
            top_topic@,
            bias,
            spike_roll as int,
            obsession_roll as int,
            win_roll as int,
            pick as int,
        ),
{
    if !internet_on {
        return None;
    }
    if mem.curiosity < 20 && mem.energy_level < 25 {
        return None;
    }
    let confused = crate::lists::str_eq(mem.mood.as_str(), "confused");
    let label: &str;
    let percent: usize;
    if confused {
        label = "confusion";
        percent = 45;
    } else if mem.trait_val("curiosity") > 75 && spike_roll < 35 {
        label = "curiosity spike";
        percent = 35;
    } else if contradictions_open {
        label = "contradiction";
        percent = 55;
    } else if mem.obsessions.len() > 0 && obsession_roll < 30 {
        label = "obsession reinforcement";
        percent = 30;
    } else if any_due(rituals, mem.run_count) {
        label = "ritual";
        percent = 50;
    } else {
        return None;
    }
    let ghost t = search_trigger(
        *mem,
        contradictions_open,
        rituals@,
        spike_roll as int,
        obsession_roll as int,
    );
    assert(t == Some((label@, percent as int)));
    if win_roll >= percent {
        return None;
    }
    let topic = if mem.obsessions.len() > 0 {
        mem.obsessions[pick].clone()
    } else {
        top_topic.to_owned()
    };
    let query = apply_bias(bias, topic.as_str());
    let mut s = label.to_owned();
    s.append("|");
    s.append(query.as_str());
    Some(s)
}

/// Whether the creature searches the world this tick and, if so, the
/// trigger and the query, as `trigger|query`. With the internet off, or
/// when the creature is both incurious (under 20) and tired (under 25),
/// it does not. Otherwise a trigger must fire and then win a roll; the
/// topic is a random obsession, or the top priority topic when it has
/// none, worded by the society's bias. The outcome is that of
/// `decide_search` for some rolls in `0..100` and some obsession index.
pub fn should_search(
    mem: &CreatureMemory,
    internet_on: bool,
    contradictions_open: bool,
    rituals: &Vec<RitualClock>,
    top_topic: &str,
    bias: QueryBias,
    rng: &mut ThreadRng,
) -> (r: Option<String>)
    ensures
        exists|a: int, b: int, c: int, k: int|
            0 <= a < 100 && 0 <= b < 100 && 0 <= c < 100 && (mem.obsessions@.len() > 0 ==> 0 <= k
                < mem.obsessions@.len()) && #[trigger] search_outcome(
                *mem,
                internet_on,
                contradictions_open,
                rituals@,
                top_topic@,
                bias,
                a,
                b,
                c,
                k,
            ) == text_of(r),
        !internet_on ==> r is None,
        (mem.curiosity < 20 && mem.energy_level < 25) ==> r is None,
{
    let spike_roll = random_index(rng, 100);
    let obsession_roll = random_index(rng, 100);
    let win_roll = random_index(rng, 100);
    let pick = if mem.obsessions.len() > 0 {
        random_index(rng, mem.obsessions.len())
    } else {
        0
    };
    let r = decide_search(
        mem,
        internet_on,
        contradictions_open,
        rituals,
        top_topic,
        bias,
        spike_roll,
        obsession_roll,
        win_roll,
        pick,
    );
    assert(search_outcome(
        *mem,
        internet_on,
        contradictions_open,
        rituals@,
        top_topic@,
        bias,
        spike_roll as int,
        obsession_roll as int,
        win_roll as int,
        pick as int,
    ) == text_of(r));
    r
}

/// The facts after learning each of `hits` in turn (empty ones are
/// ignored; at most 20 facts are kept).
pub open spec fn learned_all(facts: Seq<Seq<char>>, hits: Seq<Seq<char>>) -> Seq<Seq<char>>
    decreases hits.len(),
{
    if hits.len() == 0 {
        facts
    } else {
        let f = learned_all(facts, hits.drop_last());
        if hits.last().len() == 0 {
            f
        } else {
            capped_push(f, hits.last(), 20)
        }
    }
}

/// Learning keeps the facts within 20.
proof fn lemma_learned_all_within(facts: Seq<Seq<char>>, hits: Seq<Seq<char>>)
    requires
        facts.len() <= 20,
    ensures
        learned_all(facts, hits).len() <= 20,
    decreases hits.len(),
{
    if hits.len() > 0 {
        lemma_learned_all_within(facts, hits.drop_last());
    }
}

/// Learning keeps the facts free of repeats.
proof fn lemma_learned_all_distinct(facts: Seq<Seq<char>>, hits: Seq<Seq<char>>)
    requires
        facts.no_duplicates(),
    ensures
        learned_all(facts, hits).no_duplicates(),
    decreases hits.len(),
{
    if hits.len() > 0 {
        lemma_learned_all_distinct(facts, hits.drop_last());
    }
}

/// Keep what an exploration found, with a given roll of `0..100`: the
/// first five results are learned as facts, the query becomes an obsession
/// when anything was found and the roll is under 22, and the creature
/// grows a little smarter. Returns how many results were kept.
pub fn explore_absorb_with(
    mem: &mut CreatureMemory,
    query: &str,
    hits: &Vec<String>,
    roll: u32,
) -> (stored: usize)
    requires
        old(mem).intelligence < i32::MAX,
    ensures
        roll < 22 && stored > 0 ==> texts(final(mem).obsessions@) == capped_push(
            texts(old(mem).obsessions@),
            normalized_topic(query@),
            8,
        ),
        !(roll < 22 && stored > 0) ==> final(mem).obsessions == old(mem).obsessions,
        stored == at_most(hits@, 5).len(),
        texts(final(mem).learned_facts@) == learned_all(
            texts(old(mem).learned_facts@),
            texts(at_most(hits@, 5)),
        ),
        final(mem).obsessions == old(mem).obsessions || (stored > 0 && texts(
            final(mem).obsessions@,
        ) == capped_push(texts(old(mem).obsessions@), normalized_topic(query@), 8)),
        final(mem).intelligence == clamped(old(mem).intelligence + 1, 0, 100),
        within_caps(*old(mem)) ==> within_caps(*final(mem)),
        free_of_repeats(*old(mem)) ==> free_of_repeats(*final(mem)),
        *final(mem) == (CreatureMemory {
            learned_facts: final(mem).learned_facts,
            obsessions: final(mem).obsessions,
            intelligence: final(mem).intelligence,
            ..*old(mem)
        }),
{
    let n = if hits.len() < 5 {
        hits.len()
    } else {
        5
    };
    let ghost keep = at_most(hits@, 5);
    let mut i: usize = 0;
    while i < n
        invariant
            i <= n,
            n == keep.len(),
            keep == at_most(hits@, 5),
            n <= hits@.len(),
            texts(mem.learned_facts@) == learned_all(
                texts(old(mem).learned_facts@),
                texts(keep.take(i as int)),
            ),
            *mem == (CreatureMemory { learned_facts: mem.learned_facts, ..*old(mem) }),
        decreases n - i,
    {
        proof {
            assert(keep[i as int] == hits@[i as int]);
            assert(texts(keep.take(i + 1)).drop_last() =~= texts(keep.take(i as int)));
            assert(texts(keep.take(i + 1)).last() == hits@[i as int]@);
        }
        mem.push_fact(hits[i].clone());
        i = i + 1;
    }
    assert(keep.take(n as int) =~= keep);
    proof {
        if within_caps(*old(mem)) {
            lemma_learned_all_within(texts(old(mem).learned_facts@), texts(keep));
        }
        if free_of_repeats(*old(mem)) {
            lemma_learned_all_distinct(texts(old(mem).learned_facts@), texts(keep));
        }
    }
    if roll < 22 && n > 0 {
        let topic = normalize_topic(query);
        push_cap(&mut mem.obsessions, topic, 8);
    }
    mem.intelligence = clamp(mem.intelligence + 1, 0, 100);
    n
}

/// Keep what an exploration found: the first five results are learned as
/// facts, the query becomes an obsession with a chance of 22 in 100 when
/// anything was found (see `explore_absorb_with`), and the creature grows
/// a little smarter. Returns how many results were kept.
pub fn explore_absorb(
    mem: &mut CreatureMemory,
    query: &str,
    hits: &Vec<String>,
    rng: &mut ThreadRng,
) -> (stored: usize)
    requires
        old(mem).intelligence < i32::MAX,
    ensures
        stored == at_most(hits@, 5).len(),
        texts(final(mem).learned_facts@) == learned_all(
            texts(old(mem).learned_facts@),
            texts(at_most(hits@, 5)),
        ),
        final(mem).obsessions == old(mem).obsessions || (stored > 0 && texts(
            final(mem).obsessions@,
        ) == capped_push(texts(old(mem).obsessions@), normalized_topic(query@), 8)),
        final(mem).intelligence == clamped(old(mem).intelligence + 1, 0, 100),
        within_caps(*old(mem)) ==> within_caps(*final(mem)),
        free_of_repeats(*old(mem)) ==> free_of_repeats(*final(mem)),
        *final(mem) == (CreatureMemory {
            learned_facts: final(mem).learned_facts,
            obsessions: final(mem).obsessions,
            intelligence: final(mem).intelligence,
            ..*old(mem)
        }),
{
    let roll = percent_roll(rng);
    explore_absorb_with(mem, query, hits, roll)
}

} // verus!
