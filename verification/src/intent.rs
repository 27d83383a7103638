//! What the creature decides to do on a tick, and how it draws that
//! decision from weights built out of its traits and stats.

use crate::memory::{trait_value, traits_of, CreatureMemory};
use crate::rng::random_range;
use rand::rngs::ThreadRng;
use vstd::prelude::*;

verus! {

/// The seven things a creature can choose to do.
#[derive(Debug, Clone, Copy, PartialEq, Eq, Structural)]
pub enum Intent {
    Think,
    Search,
    Rest,
    Obsess,
    Plan,
    Mutate,
    Write,
}

/// The lower-case name of an intent, as stored in memory.
pub open spec fn intent_label(i: Intent) -> Seq<char> {
    match i {
        Intent::Think => "think"@,
        Intent::Search => "search"@,
        Intent::Rest => "rest"@,
        Intent::Obsess => "obsess"@,
        Intent::Plan => "plan"@,
        Intent::Mutate => "mutate"@,
        Intent::Write => "write"@,
    }
}

impl Intent {
    /// The lower-case name of the intent.
    pub fn label(self) -> (r: &'static str)
        ensures
            r@ == intent_label(self),
    {
        match self {
            Intent::Think => "think",
            Intent::Search => "search",
            Intent::Rest => "rest",
            Intent::Obsess => "obsess",
            Intent::Plan => "plan",
            Intent::Mutate => "mutate",
            Intent::Write => "write",
        }
    }
}

/// The step a tick takes for the chosen intent.
#[derive(Debug, Clone, Copy, PartialEq, Eq, Structural)]
pub enum TickStep {
    Think,
    /// Look around the wider world first; see `after_world_search`.
    WorldSearch,
    /// Only compose and remember a thought (after a world search).
    Reflect,
    Search,
    Rest,
    Obsess,
    Plan,
    Mutate,
    Write,
}

/// The step for `intent`: each intent has its own step, except that a
/// search goes out into the wider world first when the internet layer is
/// on.
pub open spec fn step_for(intent: Intent, internet: bool) -> TickStep {
    match intent {
        Intent::Think => TickStep::Think,
        Intent::Search => if internet {
            TickStep::WorldSearch
        } else {
            TickStep::Search
        },
        Intent::Rest => TickStep::Rest,
        Intent::Obsess => TickStep::Obsess,
        Intent::Plan => TickStep::Plan,
        Intent::Mutate => TickStep::Mutate,
        Intent::Write => TickStep::Write,
    }
}

/// The step a tick takes for the chosen intent (see `step_for`).
pub fn tick_step(intent: Intent, internet: bool) -> (s: TickStep)
    ensures
        s == step_for(intent, internet),
{
    match intent {
        Intent::Think => TickStep::Think,
        Intent::Search => if internet {
            TickStep::WorldSearch
        } else {
            TickStep::Search
        },
        Intent::Rest => TickStep::Rest,
        Intent::Obsess => TickStep::Obsess,
        Intent::Plan => TickStep::Plan,
        Intent::Mutate => TickStep::Mutate,
        Intent::Write => TickStep::Write,
    }
}

/// After a world search: when it found its way the creature only composes
/// and remembers a thought, otherwise it falls back to a plain search.
pub fn after_world_search(world_done: bool) -> (s: TickStep)
    ensures
        s == (if world_done {
            TickStep::Reflect
        } else {
            TickStep::Search
        }),
{
    if world_done {
        TickStep::Reflect
    } else {
        TickStep::Search
    }
}

/// Record the intent chosen this tick: `last_intent` becomes its name and
/// nothing else changes.
pub fn note_intent(mem: &mut CreatureMemory, i: Intent)
    ensures
        final(mem).last_intent@ == intent_label(i),
        *final(mem) == (CreatureMemory { last_intent: final(mem).last_intent, ..*old(mem) }),
{
    mem.last_intent = i.label().to_owned();
}

/// Distinct intents have distinct names, so a stored name identifies the intent.
pub proof fn lemma_labels_distinct(a: Intent, b: Intent)
    requires
        a != b,
    ensures
        intent_label(a) != intent_label(b),
{
    reveal_strlit("think");
    reveal_strlit("search");
    reveal_strlit("rest");
    reveal_strlit("obsess");
    reveal_strlit("plan");
    reveal_strlit("mutate");
    reveal_strlit("write");
    assert(intent_label(a).len() != intent_label(b).len() || intent_label(a)[0] != intent_label(
        b,
    )[0] || intent_label(a)[1] != intent_label(b)[1]);
}

/// Extra weight the inner society puts on each intent, in thousandths.
#[derive(Debug, Clone, Copy)]
pub struct IntentInfluence {
    pub think: i32,
    pub search: i32,
    pub rest: i32,
    pub obsess: i32,
    pub plan: i32,
    pub mutate: i32,
    pub write: i32,
}

/// The intents in the order they are weighed.
pub open spec fn intent_at(i: int) -> Intent {
    if i == 0 {
        Intent::Think
    } else if i == 1 {
        Intent::Search
    } else if i == 2 {
        Intent::Rest
    } else if i == 3 {
        Intent::Obsess
    } else if i == 4 {
        Intent::Plan
    } else if i == 5 {
        Intent::Mutate
    } else {
        Intent::Write
    }
}

/// The weight of each intent, in thousandths, in the order of `intent_at`:
/// thinking 22; searching 12 plus 0.14 per point of the curiosity trait and
/// 0.08 per point of curiosity, cut to 30% when energy is under 25, plus 22
/// while fewer than 3 facts are known; resting 7 plus 0.45 per point of
/// energy under 30, plus 40 when energy is under 25; obsessing 7 plus 0.06
/// per point of anxiety, plus 12 with any obsession; planning 5 plus 0.05
/// per point of ambition and 0.04 per point of intelligence; mutating 10
/// plus 0.07 per point of chaos; writing 14 plus 0.08 per point of
/// creativity and 0.03 per point of logic, plus 8 on every third run; and
/// the society's influence on top.
pub open spec fn intent_weights(m: CreatureMemory, infl: Option<IntentInfluence>) -> Seq<int> {
    let p = traits_of(m.personality@);
    let e = m.energy_level as int;
    let search_base = 12000 + 140 * trait_value(p, "curiosity"@) + 80 * m.curiosity;
    let search = (if e < 25 {
        search_base * 3 / 10
    } else {
        search_base
    }) + (if m.learned_facts@.len() < 3 {
        22000int
    } else {
        0
    });
    let rest = 7000 + 450 * (if e < 30 {
        30 - e
    } else {
        0
    }) + (if e < 25 {
        40000int
    } else {
        0
    });
    let obsess = 7000 + 60 * trait_value(p, "anxiety"@) + (if m.obsessions@.len() > 0 {
        12000int
    } else {
        0
    });
    let plan = 5000 + 50 * trait_value(p, "ambition"@) + 40 * m.intelligence;
    let mutate = 10000 + 70 * trait_value(p, "chaos"@);
    let write = 14000 + 80 * trait_value(p, "creativity"@) + 30 * trait_value(p, "logic"@) + (
    if m.run_count % 3 == 0 {
        8000int
    } else {
        0
    });
    match infl {
        Some(f) => seq![
            22000 + f.think,
            search + f.search,
            rest + f.rest,
            obsess + f.obsess,
            plan + f.plan,
            mutate + f.mutate,
            write + f.write,
        ],
        None => seq![22000, search, rest, obsess, plan, mutate, write],
    }
}

/// The weight each intent gets, in thousandths, stated one by one: think
/// 22; search 12 plus 0.14 per point of the curiosity trait and 0.08 per
/// point of curiosity (cut to 30% under 25 energy), plus 22 with fewer than
/// 3 facts; rest 7 plus 0.45 per point of energy under 30, plus the tired
/// bonus of 40 under 25 energy; obsess 7 plus 0.06 per point of anxiety,
/// plus 12 with any obsession; plan 5 plus 0.05 per point of ambition and
/// 0.04 per point of intelligence; mutate 10 plus 0.07 per point of chaos;
/// write 14 plus 0.08 per point of creativity and 0.03 per point of logic,
/// plus 8 on every third run. The influence adds to each its own part.
pub proof fn lemma_intent_weights(m: CreatureMemory, infl: Option<IntentInfluence>)
    ensures
        intent_weights(m, infl).len() == 7,
        ({
            let w = intent_weights(m, infl);
            let p = traits_of(m.personality@);
            let e = m.energy_level as int;
            let (ft, fs, fr, fo, fp, fm, fw) = match infl {
                Some(f) => (
                    f.think as int,
                    f.search as int,
                    f.rest as int,
                    f.obsess as int,
                    f.plan as int,
                    f.mutate as int,
                    f.write as int,
                ),
                None => (0int, 0int, 0int, 0int, 0int, 0int, 0int),
            };
            let base = 12000 + 140 * trait_value(p, "curiosity"@) + 80 * m.curiosity;
            &&& w[0] == 22000 + ft
            &&& e >= 25 && m.learned_facts@.len() >= 3 ==> w[1] == base + fs
            &&& e >= 25 && m.learned_facts@.len() < 3 ==> w[1] == base + 22000 + fs
            &&& e < 25 && m.learned_facts@.len() >= 3 ==> w[1] == base * 3 / 10 + fs
            &&& e < 25 && m.learned_facts@.len() < 3 ==> w[1] == base * 3 / 10 + 22000 + fs
            &&& e >= 30 ==> w[2] == 7000 + fr
            &&& 25 <= e < 30 ==> w[2] == 7000 + 450 * (30 - e) + fr
            &&& e < 25 ==> w[2] == 7000 + 450 * (30 - e) + 40000 + fr
            &&& m.obsessions@.len() == 0 ==> w[3] == 7000 + 60 * trait_value(p, "anxiety"@) + fo
            &&& m.obsessions@.len() > 0 ==> w[3] == 19000 + 60 * trait_value(p, "anxiety"@) + fo
            &&& w[4] == 5000 + 50 * trait_value(p, "ambition"@) + 40 * m.intelligence + fp
            &&& w[5] == 10000 + 70 * trait_value(p, "chaos"@) + fm
            &&& m.run_count % 3 != 0 ==> w[6] == 14000 + 80 * trait_value(p, "creativity"@) + 30
                * trait_value(p, "logic"@) + fw
            &&& m.run_count % 3 == 0 ==> w[6] == 22000 + 80 * trait_value(p, "creativity"@) + 30
                * trait_value(p, "logic"@) + fw
        }),
{
}

/// A tired creature (energy under 25) weighs resting at no less than 49.25
/// units, well above thinking's 22: the tired bonus keeps rest ahead
/// whatever its traits, unless the society pulls against it.
pub proof fn lemma_tired_rest_outweighs_think(m: CreatureMemory)
    requires
        m.energy_level < 25,
    ensures
        intent_weights(m, None)[2] >= 49250,
        intent_weights(m, None)[2] > intent_weights(m, None)[0],
{
    lemma_intent_weights(m, None);
}

/// The society's influence adds its own part to each weight and changes
/// nothing else.
pub proof fn lemma_influence_adds(m: CreatureMemory, f: IntentInfluence)
    ensures
        intent_weights(m, Some(f))[0] == intent_weights(m, None)[0] + f.think,
        intent_weights(m, Some(f))[1] == intent_weights(m, None)[1] + f.search,
        intent_weights(m, Some(f))[2] == intent_weights(m, None)[2] + f.rest,
        intent_weights(m, Some(f))[3] == intent_weights(m, None)[3] + f.obsess,
        intent_weights(m, Some(f))[4] == intent_weights(m, None)[4] + f.plan,
        intent_weights(m, Some(f))[5] == intent_weights(m, None)[5] + f.mutate,
        intent_weights(m, Some(f))[6] == intent_weights(m, None)[6] + f.write,
{
    lemma_intent_weights(m, Some(f));
    lemma_intent_weights(m, None);
}

/// The sum of the weights.
pub open spec fn weight_total(w: Seq<int>) -> int
    decreases w.len(),
{
    if w.len() == 0 {
        0
    } else {
        w[0] + weight_total(w.drop_first())
    }
}

/// The position a roll lands on: the first weight that covers the roll,
/// each weight taking its share off the roll in turn; the last position
/// when none does.
pub open spec fn landing(w: Seq<int>, roll: int) -> int
    decreases w.len(),
{
    if w.len() <= 1 || w[0] >= roll {
        0
    } else {
        1 + landing(w.drop_first(), roll - w[0])
    }
}

proof fn lemma_total_nonneg(w: Seq<int>)
    requires
        forall|i: int| 0 <= i < w.len() ==> w[i] >= 0,
    ensures
        weight_total(w) >= 0,
    decreases w.len(),
{
    if w.len() > 0 {
        assert forall|i: int| 0 <= i < w.drop_first().len() implies w.drop_first()[i] >= 0 by {
            assert(w.drop_first()[i] == w[i + 1]);
        }
        lemma_total_nonneg(w.drop_first());
    }
}

/// With weights that are not negative, a roll above the weights of the
/// first `k` positions and within those of the first `k + 1` lands on
/// position `k` (the last position takes every roll above the ones
/// before it).
pub proof fn lemma_landing_at(w: Seq<int>, roll: int, k: int)
    requires
        0 <= k < w.len(),
        forall|i: int| 0 <= i < w.len() ==> w[i] >= 0,
        weight_total(w.take(k)) < roll,
        k + 1 < w.len() ==> roll <= weight_total(w.take(k + 1)),
    ensures
        landing(w, roll) == k,
    decreases k,
{
    let t = w.take(1);
    assert(t.drop_first() =~= Seq::<int>::empty());
    assert(weight_total(t.drop_first()) == 0);
    assert(t[0] == w[0]);
    assert(weight_total(t) == w[0]);
    if k == 0 {
        assert(w.take(0) =~= Seq::<int>::empty());
    } else {
        let v = w.drop_first();
        assert(w.take(k).drop_first() =~= v.take(k - 1));
        assert(weight_total(w.take(k)) == w[0] + weight_total(v.take(k - 1)));
        assert forall|i: int| 0 <= i < v.len() implies v[i] >= 0 by {
            assert(v[i] == w[i + 1]);
        }
        let u = v.take(k - 1);
        assert forall|i: int| 0 <= i < u.len() implies #[trigger] u[i] >= 0 by {
            assert(u[i] == v[i]);
        }
        lemma_total_nonneg(u);
        if k + 1 < w.len() {
            assert(w.take(k + 1).drop_first() =~= v.take(k));
            assert(weight_total(w.take(k + 1)) == w[0] + weight_total(v.take(k)));
        }
        lemma_landing_at(v, roll - w[0], k - 1);
    }
}

/// The rolls a draw over total weight `t` may give: one of `1..=t` when it
/// is positive, one of `t+1..=0` when it is negative, and 0 when it is 0.
pub open spec fn roll_fits(t: int, roll: int) -> bool {
    if t > 0 {
        1 <= roll <= t
    } else if t < 0 {
        t < roll <= 0
    } else {
        roll == 0
    }
}

proof fn lemma_landing_bound(w: Seq<int>, roll: int)
    requires
        w.len() > 0,
    ensures
        0 <= landing(w, roll) < w.len(),
    decreases w.len(),
{
    if w.len() > 1 && w[0] < roll {
        lemma_landing_bound(w.drop_first(), roll - w[0]);
    }
}

/// The intent weights of a memory, as machine integers.
fn weights_of(mem: &CreatureMemory, influence: Option<IntentInfluence>) -> (w: [i64; 7])
    ensures
        wide(w@) == intent_weights(*mem, influence),
        weights_within(w@, 0x1_0000_0000_0000),
{
    let e = mem.energy_level as i64;
    let curiosity = mem.trait_val("curiosity") as i64;
    let anxiety = mem.trait_val("anxiety") as i64;
    let ambition = mem.trait_val("ambition") as i64;
    let chaos = mem.trait_val("chaos") as i64;
    let creativity = mem.trait_val("creativity") as i64;
    let logic = mem.trait_val("logic") as i64;

    let search_base: i64 = 12000 + 140 * curiosity + 80 * (mem.curiosity as i64);
    let mut search: i64 = if e < 25 {
        search_base / 10 * 3
    } else {
        search_base
    };
    proof {
        assert(search_base % 10 == 0);
        assert(search_base / 10 * 3 == search_base * 3 / 10);
    }
    if mem.learned_facts.len() < 3 {
        search = search + 22000;
    }
    let mut rest: i64 = 7000 + 450 * (if e < 30 {
        30 - e
    } else {
        0
    });
    if e < 25 {
        rest = rest + 40000;
    }
    let mut obsess: i64 = 7000 + 60 * anxiety;
    if mem.obsessions.len() > 0 {
        obsess = obsess + 12000;
    }
    let plan: i64 = 5000 + 50 * ambition + 40 * (mem.intelligence as i64);
    let mutate: i64 = 10000 + 70 * chaos;
    let mut write: i64 = 14000 + 80 * creativity + 30 * logic;
    if mem.run_count % 3 == 0 {
        write = write + 8000;
    }
    let mut think: i64 = 22000;
    match influence {
        Some(f) => {
            think = think + f.think as i64;
            search = search + f.search as i64;
            rest = rest + f.rest as i64;
            obsess = obsess + f.obsess as i64;
            let w: [i64; 7] = [
                think,
                search,
                rest,
                obsess,
                plan + f.plan as i64,
                mutate + f.mutate as i64,
                write + f.write as i64,
            ];
            assert(wide(w@) =~= intent_weights(*mem, influence));
            w
        },
        None => {
            let w: [i64; 7] = [think, search, rest, obsess, plan, mutate, write];
            assert(wide(w@) =~= intent_weights(*mem, influence));
            w
        },
    }
}


/// The intent a roll lands on: the first intent, in the order of
/// `intent_at`, whose weight covers what is left of the roll once the
/// weights before it are taken off (the last intent when none does).
pub fn intent_for_roll(mem: &CreatureMemory, influence: Option<IntentInfluence>, roll: i64) -> (r:
    Intent)
    requires
        roll_fits(weight_total(intent_weights(*mem, influence)), roll as int),
    ensures
        r == intent_at(landing(intent_weights(*mem, influence), roll as int)),
{
    let w = weights_of(mem, influence);
    land(&w, roll)
}

/// Draw an intent at random, each with a chance in proportion to its
/// weight (`intent_weights`): a roll that fits the total weight is drawn
/// uniformly and `intent_for_roll` gives the intent it lands on.
pub fn choose_intent(mem: &CreatureMemory, rng: &mut ThreadRng, influence: Option<IntentInfluence>) -> (r:
    Intent)
    ensures
        exists|roll: int|
            #[trigger] roll_fits(weight_total(intent_weights(*mem, influence)), roll) && r == intent_at(
                landing(intent_weights(*mem, influence), roll),
            ),
{
    let w = weights_of(mem, influence);
    let total = total_of(&w);
    let roll: i64 = if total > 0 {
        random_range(rng, 1, total + 1)
    } else if total < 0 {
        random_range(rng, total + 1, 1)
    } else {
        0
    };
    assert(roll_fits(weight_total(intent_weights(*mem, influence)), roll as int));
    intent_for_roll(mem, influence, roll)
}

/// Machine weights as integers.
pub open spec fn wide(w: Seq<i64>) -> Seq<int> {
    w.map_values(|x: i64| x as int)
}

/// The weights, every one within `bound` of zero.
pub open spec fn weights_within(w: Seq<i64>, bound: int) -> bool {
    forall|i: int| 0 <= i < w.len() ==> -bound <= #[trigger] w[i] <= bound
}

proof fn lemma_total_bound(w: Seq<int>, bound: int)
    requires
        bound >= 0,
        forall|i: int| 0 <= i < w.len() ==> -bound <= #[trigger] w[i] <= bound,
    ensures
        -bound * w.len() <= weight_total(w) <= bound * w.len(),
    decreases w.len(),
{
    if w.len() > 0 {
        assert forall|i: int| 0 <= i < w.drop_first().len() implies -bound <= #[trigger] w.drop_first()[i]
            <= bound by {
            assert(w.drop_first()[i] == w[i + 1]);
        }
        lemma_total_bound(w.drop_first(), bound);
        assert(-bound * w.len() == -bound * (w.len() - 1) - bound) by (nonlinear_arith);
        assert(bound * w.len() == bound * (w.len() - 1) + bound) by (nonlinear_arith);
    }
}

/// The sum of seven weights.
fn total_of(w: &[i64; 7]) -> (total: i64)
    requires
        weights_within(w@, 0x1_0000_0000_0000),
    ensures
        total == weight_total(wide(w@)),
        -0x1_0000_0000_0000 * 7 <= total <= 0x1_0000_0000_0000 * 7,
{
    let ghost wi = wide(w@);
    let mut total: i64 = 0;
    let mut k: usize = 0;
    assert(wi.skip(0) =~= wi);
    while k < 7
        invariant
            k <= 7,
            wi == wide(w@),
            weights_within(w@, 0x1_0000_0000_0000),
            total == weight_total(wi) - weight_total(wi.skip(k as int)),
            -0x1_0000_0000_0000 * k <= total <= 0x1_0000_0000_0000 * k,
        decreases 7 - k,
    {
        assert(wi.skip(k as int) =~= seq![wi[k as int]] + wi.skip(k + 1));
        assert(wi.skip(k as int).drop_first() =~= wi.skip(k + 1));
        total = total + w[k];
        k = k + 1;
    }
    assert(wi.skip(7) =~= Seq::<int>::empty());
    total
}

/// The intent a roll lands on over seven weights.
fn land(w: &[i64; 7], roll: i64) -> (r: Intent)
    requires
        weights_within(w@, 0x1_0000_0000_0000),
        roll_fits(weight_total(wide(w@)), roll as int),
    ensures
        r == intent_at(landing(wide(w@), roll as int)),
{
    let ghost wi = wide(w@);
    proof {
        lemma_total_bound(wi, 0x1_0000_0000_0000);
        assert(wi.skip(0) =~= wi);
    }
    let mut left: i64 = roll;
    let mut i: usize = 0;
    assert(-0x1_0000_0000_0000 * 7 <= roll <= 0x1_0000_0000_0000 * 7);
    while i < 6 && w[i] < left
        invariant
            i <= 6,
            wi == wide(w@),
            weights_within(w@, 0x1_0000_0000_0000),
            landing(wi, roll as int) == i + landing(wi.skip(i as int), left as int),
            -0x1_0000_0000_0000 * 7 <= roll <= 0x1_0000_0000_0000 * 7,
            -0x1_0000_0000_0000 * i <= weight_total(wi) - weight_total(wi.skip(i as int))
                <= 0x1_0000_0000_0000 * i,
            left == roll - (weight_total(wi) - weight_total(wi.skip(i as int))),
        decreases 6 - i,
    {
        assert(wi.skip(i as int) =~= seq![wi[i as int]] + wi.skip(i + 1));
        assert(wi.skip(i as int).drop_first() =~= wi.skip(i + 1));
        left = left - w[i];
        i = i + 1;
    }
    proof {
        let t = wi.skip(i as int);
        assert(landing(t, left as int) == 0);
        lemma_landing_bound(wi, roll as int);
    }
    if i == 0 {
        Intent::Think
    } else if i == 1 {
        Intent::Search
    } else if i == 2 {
        Intent::Rest
    } else if i == 3 {
        Intent::Obsess
    } else if i == 4 {
        Intent::Plan
    } else if i == 5 {
        Intent::Mutate
    } else {
        Intent::Write
    }
}

} // verus!
