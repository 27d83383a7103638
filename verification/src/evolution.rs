//! The slow layer on top of ticks: habits, rituals, leaps, dreams, the
//! voices of the inner society and the clustering of living memories —
//! the parts of it that count, compare and compose.

use crate::intent::{intent_label, Intent};
use crate::lists::{capped_push, clamped, contains_str, push_cap, texts};
use crate::memory::{
    distinct_keys, dominant_name, free_of_repeats, lemma_distinct_push, lemma_distinct_update, lookup_trait, traits_of, with_trait, within_caps, CreatureMemory,
};
use crate::rng::{random_index, random_range};
use crate::selfwrite::{newest, newest_plain};
use crate::text::{chars_of, has_infix, str_contains, string_of, utf8_len};
use crate::thought::has_bytes;
use crate::words::{at_most, char_lists, joined, string_texts, tokenize, tokens_of, ws_words};
use rand::rngs::ThreadRng;
use vstd::prelude::*;

verus! {

broadcast use {
    crate::lists::lemma_capped_push_within,
    crate::lists::lemma_capped_push_distinct,
    crate::lists::lemma_texts_len,
};

/// How often a behaviour must recur before it may harden into a habit.
pub const HABIT_THRESHOLD: u32 = 6;

/// The pattern a habit of doing `intent` is known by.
pub open spec fn habit_pattern_text(intent: Intent) -> Seq<char> {
    match intent {
        Intent::Search => "curiosity: revisit familiar ideas"@,
        Intent::Think => "reflection: loop known thoughts"@,
        Intent::Rest => "stress: recurring rest pattern"@,
        Intent::Obsess => "confusion: orbit one topic"@,
        _ => "habit:"@ + intent_label(intent),
    }
}

/// The pattern a habit of doing `intent` is known by.
pub fn habit_pattern(intent: Intent) -> (r: String)
    ensures
        r@ == habit_pattern_text(intent),
{
    match intent {
        Intent::Search => "curiosity: revisit familiar ideas".to_owned(),
        Intent::Think => "reflection: loop known thoughts".to_owned(),
        Intent::Rest => "stress: recurring rest pattern".to_owned(),
        Intent::Obsess => "confusion: orbit one topic".to_owned(),
        _ => {
            let mut s = "habit:".to_owned();
            s.append(intent.label());
            s
        },
    }
}

/// Behaviour counts as (label, count) pairs of plain values.
pub open spec fn counts_of(p: Seq<(String, u32)>) -> Seq<(Seq<char>, u32)> {
    p.map_values(|e: (String, u32)| (e.0@, e.1))
}

/// The count of the first entry called `k` (0 when there is none).
pub open spec fn count_of(p: Seq<(Seq<char>, u32)>, k: Seq<char>) -> u32
    decreases p.len(),
{
    if p.len() == 0 {
        0
    } else if p[0].0 == k {
        p[0].1
    } else {
        count_of(p.drop_first(), k)
    }
}

/// The counts after one more occurrence of `k`.
pub open spec fn bumped(p: Seq<(Seq<char>, u32)>, k: Seq<char>) -> Seq<(Seq<char>, u32)>
    decreases p.len(),
{
    if p.len() == 0 {
        seq![(k, 1u32)]
    } else if p[0].0 == k {
        p.update(0, (k, (p[0].1 + 1) as u32))
    } else {
        seq![p[0]] + bumped(p.drop_first(), k)
    }
}

/// The count of `k` can still grow by one within `u32`.
pub open spec fn counts_room(p: Seq<(String, u32)>, k: Seq<char>) -> bool {
    count_of(counts_of(p), k) < u32::MAX
}

/// The recent-intent list after recording `x`: appended, and the oldest
/// entry dropped once the list grows past 12.
pub open spec fn recent_after(s: Seq<Seq<char>>, x: Seq<char>) -> Seq<Seq<char>> {
    let t = s.push(x);
    if t.len() > 12 {
        t.drop_first()
    } else {
        t
    }
}

proof fn lemma_count_bumped(p: Seq<(Seq<char>, u32)>, k: Seq<char>)
    requires
        count_of(p, k) < u32::MAX,
    ensures
        count_of(bumped(p, k), k) == count_of(p, k) + 1,
    decreases p.len(),
{
    if p.len() > 0 && p[0].0 != k {
        lemma_count_bumped(p.drop_first(), k);
        let b = bumped(p.drop_first(), k);
        assert((seq![p[0]] + b).drop_first() =~= b);
    }
}

proof fn lemma_bumped_at(p: Seq<(Seq<char>, u32)>, k: Seq<char>, i: int)
    requires
        0 <= i < p.len(),
        p[i].0 == k,
        forall|j: int| 0 <= j < i ==> p[j].0 != k,
    ensures
        bumped(p, k) == p.update(i, (k, (p[i].1 + 1) as u32)),
    decreases i,
{
    if i > 0 {
        lemma_bumped_at(p.drop_first(), k, i - 1);
        assert(seq![p[0]] + p.drop_first().update(i - 1, (k, (p[i].1 + 1) as u32)) =~= p.update(
            i,
            (k, (p[i].1 + 1) as u32),
        ));
    }
}

proof fn lemma_bumped_absent(p: Seq<(Seq<char>, u32)>, k: Seq<char>)
    requires
        forall|j: int| 0 <= j < p.len() ==> p[j].0 != k,
    ensures
        bumped(p, k) == p.push((k, 1u32)),
    decreases p.len(),
{
    if p.len() > 0 {
        lemma_bumped_absent(p.drop_first(), k);
        assert(seq![p[0]] + p.drop_first().push((k, 1u32)) =~= p.push((k, 1u32)));
    } else {
        assert(seq![(k, 1u32)] =~= p.push((k, 1u32)));
    }
}

/// Counting an occurrence keeps the counted names distinct.
pub proof fn lemma_bumped_distinct(p: Seq<(Seq<char>, u32)>, k: Seq<char>)
    requires
        distinct_keys(p),
    ensures
        distinct_keys(bumped(p, k)),
{
    if exists|i: int| 0 <= i < p.len() && p[i].0 == k {
        let i = choose|i: int| 0 <= i < p.len() && p[i].0 == k;
        assert forall|j: int| 0 <= j < i implies p[j].0 != k by {
            assert(p[j].0 != p[i].0);
        }
        lemma_bumped_at(p, k, i);
        lemma_distinct_update(p, i, k, (p[i].1 + 1) as u32);
    } else {
        lemma_bumped_absent(p, k);
        lemma_distinct_push(p, k, 1u32);
    }
}

/// Count one more occurrence of `key`; returns the new count.
fn bump_count(counts: &mut Vec<(String, u32)>, key: &str) -> (r: u32)
    requires
        counts_room(old(counts)@, key@),
    ensures
        counts_of(final(counts)@) == bumped(counts_of(old(counts)@), key@),
        r == count_of(bumped(counts_of(old(counts)@), key@), key@),
{
    let ghost p0 = counts_of(counts@);
    proof {
        lemma_count_bumped(p0, key@);
    }
    let mut i: usize = 0;
    while i < counts.len()
        invariant
            i <= counts@.len(),
            p0 == counts_of(counts@),
            counts@ == old(counts)@,
            count_of(p0, key@) < u32::MAX,
            forall|j: int| 0 <= j < i ==> p0[j].0 != key@,
        decreases counts.len() - i,
    {
        if crate::lists::str_eq(counts[i].0.as_str(), key) {
            proof {
                lemma_count_at(p0, key@, i as int);
                assert(p0[i as int].1 == counts@[i as int].1);
            }
            let n = counts[i].1 + 1;
            counts.set(i, (key.to_owned(), n));
            proof {
                lemma_bumped_at(p0, key@, i as int);
                lemma_count_at(p0, key@, i as int);
                assert(p0[i as int].1 == old(counts)@[i as int].1);
                lemma_count_bumped(p0, key@);
                assert(counts_of(counts@) =~= p0.update(i as int, (key@, n)));
            }
            return n;
        }
        i = i + 1;
    }
    counts.push((key.to_owned(), 1));
    proof {
        lemma_bumped_absent(p0, key@);
        assert(counts_of(counts@) =~= p0.push((key@, 1u32)));
        assert(count_of(p0, key@) == 0) by {
            lemma_count_absent(p0, key@);
        }
    }
    1
}

proof fn lemma_count_at(p: Seq<(Seq<char>, u32)>, k: Seq<char>, i: int)
    requires
        0 <= i < p.len(),
        p[i].0 == k,
        forall|j: int| 0 <= j < i ==> p[j].0 != k,
    ensures
        count_of(p, k) == p[i].1,
    decreases i,
{
    if i > 0 {
        lemma_count_at(p.drop_first(), k, i - 1);
    }
}

proof fn lemma_count_absent(p: Seq<(Seq<char>, u32)>, k: Seq<char>)
    requires
        forall|j: int| 0 <= j < p.len() ==> p[j].0 != k,
    ensures
        count_of(p, k) == 0,
    decreases p.len(),
{
    if p.len() > 0 {
        lemma_count_absent(p.drop_first(), k);
    }
}

/// Record that the creature chose `intent` on run `run`: its count grows,
/// it joins the recent intents (12 kept), and on every sixth occurrence a
/// habit of that pattern is due unless one already exists. The due habit
/// is returned as its pattern and the count that formed it.
pub fn record_intent(
    counts: &mut Vec<(String, u32)>,
    last_intents: &mut Vec<String>,
    habit_patterns: &Vec<String>,
    intent: Intent,
) -> (r: Option<(String, u32)>)
    requires
        counts_room(old(counts)@, intent_label(intent)),
    ensures
        counts_of(final(counts)@) == bumped(counts_of(old(counts)@), intent_label(intent)),
        distinct_keys(counts_of(old(counts)@)) ==> distinct_keys(counts_of(final(counts)@)),
        texts(final(last_intents)@) == recent_after(texts(old(last_intents)@), intent_label(intent)),
        old(last_intents)@.len() <= 12 ==> final(last_intents)@.len() <= 12,
        ({
            let n = count_of(counts_of(final(counts)@), intent_label(intent));
            let due = n >= 6 && n % 6 == 0 && !texts(habit_patterns@).contains(
                habit_pattern_text(intent),
            );
            &&& due ==> (r matches Some(h) && h.0@ == habit_pattern_text(intent) && h.1 == n)
            &&& !due ==> r is None
        }),
{
    let key = intent.label();
    proof {
        if distinct_keys(counts_of(counts@)) {
            lemma_bumped_distinct(counts_of(counts@), key@);
        }
    }
    let n = bump_count(counts, key);
    let ghost before = texts(last_intents@);
    last_intents.push(key.to_owned());
    assert(texts(last_intents@) =~= before.push(key@));
    if last_intents.len() > 12 {
        last_intents.remove(0);
        assert(texts(last_intents@) =~= before.push(key@).drop_first());
    }
    if n >= HABIT_THRESHOLD && n % HABIT_THRESHOLD == 0 {
        let pattern = habit_pattern(intent);
        if !crate::lists::contains_str(habit_patterns, pattern.as_str()) {
            return Some((pattern, n));
        }
    }
    None
}

/// What one strong habit (strength at least one half) does, given the
/// rolls (each in `0..100`) of its four chancy pulls, tried in order: a
/// confusion habit sends a confused creature searching (roll under 35), a
/// curiosity habit sends a curious one (over 70) searching (under 30), a
/// stress habit sends one low on energy (under 35) resting (under 40), and
/// a reflection habit sends it thinking (under 25).
pub open spec fn pull_of(
    pattern: Seq<char>,
    mood: Seq<char>,
    curiosity: i32,
    energy: i32,
    q: (int, int, int, int),
) -> Option<Intent> {
    if has_infix(pattern, "confusion"@) && mood == "confused"@ && q.0 < 35 {
        Some(Intent::Search)
    } else if has_infix(pattern, "curiosity"@) && curiosity > 70 && q.1 < 30 {
        Some(Intent::Search)
    } else if has_infix(pattern, "stress"@) && energy < 35 && q.2 < 40 {
        Some(Intent::Rest)
    } else if has_infix(pattern, "reflection"@) && q.3 < 25 {
        Some(Intent::Think)
    } else {
        None
    }
}

/// The first pull of the habits from the `k`-th on, each with its rolls.
pub open spec fn habits_from(
    ps: Seq<Seq<char>>,
    mood: Seq<char>,
    curiosity: i32,
    energy: i32,
    qs: Seq<(int, int, int, int)>,
    k: int,
) -> Option<Intent>
    decreases ps.len() - k,
{
    if k < 0 || k >= ps.len() {
        None
    } else {
        match pull_of(ps[k], mood, curiosity, energy, qs[k]) {
            Some(i) => Some(i),
            None => habits_from(ps, mood, curiosity, energy, qs, k + 1),
        }
    }
}

/// Every roll lies in `0..100`.
pub open spec fn rolls_in_range(qs: Seq<(int, int, int, int)>) -> bool {
    forall|j: int|
        0 <= j < qs.len() ==> 0 <= (#[trigger] qs[j]).0 < 100 && 0 <= qs[j].1 < 100 && 0 <= qs[j].2
            < 100 && 0 <= qs[j].3 < 100
}

proof fn lemma_habits_skip(
    ps: Seq<Seq<char>>,
    mood: Seq<char>,
    curiosity: i32,
    energy: i32,
    qs: Seq<(int, int, int, int)>,
    j: int,
    k: int,
)
    requires
        0 <= j <= k <= ps.len(),
        forall|m: int| j <= m < k ==> pull_of(ps[m], mood, curiosity, energy, #[trigger] qs[m]) is None,
    ensures
        habits_from(ps, mood, curiosity, energy, qs, j) == habits_from(ps, mood, curiosity, energy, qs, k),
    decreases k - j,
{
    if j < k {
        lemma_habits_skip(ps, mood, curiosity, energy, qs, j + 1, k);
    }
}

/// What one strong habit does with the given rolls: see `pull_of`.
pub fn habit_pull_at(
    pattern: &str,
    mood: &str,
    curiosity: i32,
    energy: i32,
    rolls: (usize, usize, usize, usize),
) -> (r: Option<Intent>)
    ensures
        r == pull_of(
            pattern@,
            mood@,
            curiosity,
            energy,
            (rolls.0 as int, rolls.1 as int, rolls.2 as int, rolls.3 as int),
        ),
{
    if str_contains(pattern, "confusion") && crate::lists::str_eq(mood, "confused") && rolls.0 < 35 {
        return Some(Intent::Search);
    }
    if str_contains(pattern, "curiosity") && curiosity > 70 && rolls.1 < 30 {
        return Some(Intent::Search);
    }
    if str_contains(pattern, "stress") && energy < 35 && rolls.2 < 40 {
        return Some(Intent::Rest);
    }
    if str_contains(pattern, "reflection") && rolls.3 < 25 {
        return Some(Intent::Think);
    }
    None
}

/// Let the strong habits (given by their patterns, in order) pull the
/// creature toward an intent; each pull happens only with some chance.
/// The outcome is that of `habit_pull_at` tried on each habit in turn, for
/// some rolls in `0..100`.
pub fn habit_intent(
    strong_patterns: &Vec<String>,
    mood: &str,
    curiosity: i32,
    energy: i32,
    rng: &mut ThreadRng,
) -> (r: Option<Intent>)
    ensures
        exists|qs: Seq<(int, int, int, int)>|
            qs.len() == strong_patterns@.len() && rolls_in_range(qs) && #[trigger] habits_from(
                texts(strong_patterns@),
                mood@,
                curiosity,
                energy,
                qs,
                0,
            ) == r,
{
    let ghost ps = texts(strong_patterns@);
    let ghost mut qs: Seq<(int, int, int, int)> = Seq::empty();
    let n = strong_patterns.len();
    let mut k: usize = 0;
    while k < n
        invariant
            k <= n == strong_patterns@.len(),
            ps == texts(strong_patterns@),
            qs.len() == k,
            rolls_in_range(qs),
            forall|m: int| 0 <= m < k ==> pull_of(ps[m], mood@, curiosity, energy, #[trigger] qs[m]) is None,
        decreases n - k,
    {
        let a = random_index(rng, 100);
        let b = random_index(rng, 100);
        let c = random_index(rng, 100);
        let d = random_index(rng, 100);
        let pull = habit_pull_at(strong_patterns[k].as_str(), mood, curiosity, energy, (a, b, c, d));
        let ghost q = (a as int, b as int, c as int, d as int);
        assert(ps[k as int] == strong_patterns@[k as int]@);
        if pull.is_some() {
            let ghost full = qs.push(q) + Seq::new((n - k - 1) as nat, |j: int| (0int, 0int, 0int, 0int));
            proof {
                assert forall|m: int| 0 <= m < k implies pull_of(ps[m], mood@, curiosity, energy, #[trigger] full[m]) is None by {
                    assert(full[m] == qs[m]);
                }
                assert(full[k as int] == q);
                lemma_habits_skip(ps, mood@, curiosity, energy, full, 0, k as int);
                assert(rolls_in_range(full));
                assert(habits_from(ps, mood@, curiosity, energy, full, 0) == pull);
            }
            return pull;
        }
        proof {
            qs = qs.push(q);
        }
        k = k + 1;
    }
    proof {
        lemma_habits_skip(ps, mood@, curiosity, energy, qs, 0, n as int);
    }
    None
}

/// When a ritual last ran and how often it wants to run.
#[derive(Debug, Clone)]
pub struct RitualClock {
    pub name: String,
    pub cadence_runs: u64,
    pub last_run: u64,
}

/// `a - b`, or 0 when `b` exceeds `a`.
pub open spec fn sat_sub(a: u64, b: u64) -> u64 {
    if a >= b {
        (a - b) as u64
    } else {
        0
    }
}

/// A ritual is due once at least its cadence has passed since it last ran.
pub open spec fn ritual_is_due(c: RitualClock, run: u64) -> bool {
    sat_sub(run, c.last_run) >= c.cadence_runs
}

/// Index of the first due ritual of `s`, if any.
pub open spec fn first_due(s: Seq<RitualClock>, run: u64) -> Option<int>
    decreases s.len(),
{
    if s.len() == 0 {
        None
    } else if ritual_is_due(s[0], run) {
        Some(0)
    } else {
        match first_due(s.drop_first(), run) {
            Some(i) => Some(i + 1),
            None => None,
        }
    }
}

/// A ritual is due once `cadence_runs` runs have passed since it last ran
/// (a run before its last one counts as none passed); the first due
/// ritual is the earliest one in the list that is due, and there is none
/// exactly when no ritual is due.
pub proof fn lemma_first_due(s: Seq<RitualClock>, run: u64)
    ensures
        forall|i: int|
            0 <= i < s.len() ==> (ritual_is_due(#[trigger] s[i], run) <==> (if run >= s[i].last_run {
                run - s[i].last_run >= s[i].cadence_runs
            } else {
                s[i].cadence_runs == 0
            })),
        first_due(s, run) matches Some(i) ==> 0 <= i < s.len() && ritual_is_due(s[i], run)
            && forall|j: int| 0 <= j < i ==> !ritual_is_due(#[trigger] s[j], run),
        first_due(s, run) is None <==> forall|j: int|
            0 <= j < s.len() ==> !ritual_is_due(#[trigger] s[j], run),
    decreases s.len(),
{
    if s.len() > 0 {
        lemma_first_due(s.drop_first(), run);
        assert forall|j: int| 0 < j < s.len() implies s[j] == #[trigger] s.drop_first()[j - 1] by {}
        if !ritual_is_due(s[0], run) {
            if first_due(s.drop_first(), run) is None {
                assert forall|j: int| 0 <= j < s.len() implies !ritual_is_due(#[trigger] s[j], run) by {
                    if j > 0 {
                        assert(s[j] == s.drop_first()[j - 1]);
                    }
                }
            } else {
                let k = first_due(s.drop_first(), run)->0;
                assert(ritual_is_due(s.drop_first()[k], run));
                assert(s[k + 1] == s.drop_first()[k]);
                assert forall|j: int| 0 <= j < k + 1 implies !ritual_is_due(#[trigger] s[j], run) by {
                    if j > 0 {
                        assert(s[j] == s.drop_first()[j - 1]);
                    }
                }
            }
        }
    }
}

/// The intent a ritual of this name calls for.
pub open spec fn ritual_kind(name: Seq<char>) -> Intent {
    if name == "memory_revisit"@ {
        Intent::Think
    } else if name == "search_again"@ {
        Intent::Search
    } else if name == "reflection"@ {
        Intent::Write
    } else {
        Intent::Think
    }
}

/// Whether ritual `c` is due at run `run`.
pub fn ritual_due(c: &RitualClock, run: u64) -> (r: bool)
    ensures
        r == ritual_is_due(*c, run),
{
    run.saturating_sub(c.last_run) >= c.cadence_runs
}

/// The intent of the first due ritual, when rituals are on.
pub fn ritual_intent(rituals: &Vec<RitualClock>, rituals_on: bool, run: u64) -> (r: Option<Intent>)
    ensures
        !rituals_on ==> r is None,
        rituals_on ==> r == match first_due(rituals@, run) {
            Some(i) => Some(ritual_kind(rituals@[i].name@)),
            None => None::<Intent>,
        },
        rituals_on && first_due(rituals@, run) is None ==> r is None,
        rituals_on && first_due(rituals@, run) is Some ==> r is Some,
        forall|i: int|
            rituals_on && first_due(rituals@, run) == Some(i) && rituals@[i].name@ != "search_again"@
                && rituals@[i].name@ != "reflection"@ ==> r == Some(Intent::Think),
{
    proof {
        reveal_strlit("memory_revisit");
        reveal_strlit("search_again");
        reveal_strlit("reflection");
    }
    if !rituals_on {
        return None;
    }
    let mut i: usize = 0;
    assert(rituals@.skip(0) =~= rituals@);
    while i < rituals.len()
        invariant
            rituals_on,
            i <= rituals@.len(),
            first_due(rituals@, run) == match first_due(rituals@.skip(i as int), run) {
                Some(j) => Some(j + i),
                None => None::<int>,
            },
        decreases rituals.len() - i,
    {
        proof {
            let s = rituals@.skip(i as int);
            assert(s[0] == rituals@[i as int]);
            assert(s.drop_first() =~= rituals@.skip(i + 1));
        }
        if ritual_due(&rituals[i], run) {
            let name = rituals[i].name.as_str();
            let k = if crate::lists::str_eq(name, "memory_revisit") {
                Intent::Think
            } else if crate::lists::str_eq(name, "search_again") {
                Intent::Search
            } else if crate::lists::str_eq(name, "reflection") {
                Intent::Write
            } else {
                Intent::Think
            };
            return Some(k);
        }
        i = i + 1;
    }
    None
}

/// Mark the ritual called `name` as done at run `run`.
pub fn mark_done(rituals: &mut Vec<RitualClock>, name: &str, run: u64)
    ensures
        final(rituals)@.len() == old(rituals)@.len(),
        forall|i: int|
            0 <= i < old(rituals)@.len() ==> (#[trigger] final(rituals)@[i]).name@ == old(
                rituals,
            )@[i].name@ && final(rituals)@[i].cadence_runs == old(rituals)@[i].cadence_runs,
        forall|i: int|
            0 <= i < old(rituals)@.len() ==> #[trigger] final(rituals)@[i].last_run == if old(
                rituals,
            )@[i].name@ == name@ && forall|j: int| 0 <= j < i ==> old(rituals)@[j].name@ != name@ {
                run
            } else {
                old(rituals)@[i].last_run
            },
{
    let mut i: usize = 0;
    while i < rituals.len()
        invariant
            i <= rituals@.len(),
            rituals@ == old(rituals)@,
            forall|j: int| 0 <= j < i ==> old(rituals)@[j].name@ != name@,
        decreases rituals.len() - i,
    {
        if crate::lists::str_eq(rituals[i].name.as_str(), name) {
            let c = RitualClock {
                name: rituals[i].name.clone(),
                cadence_runs: rituals[i].cadence_runs,
                last_run: run,
            };
            rituals.set(i, c);
            return ;
        }
        i = i + 1;
    }
}

/// The ritual that repeating an intent may turn into.
pub open spec fn ritual_for(label: Seq<char>) -> Option<Seq<char>> {
    if label == "search"@ {
        Some("search_again"@)
    } else if label == "think"@ {
        Some("memory_revisit"@)
    } else if label == "write"@ {
        Some("reflection"@)
    } else {
        None
    }
}

/// A ritual calls for the intent whose repetition gave rise to it:
/// repeated thinking becomes a ritual of thinking, repeated searching one
/// of searching, repeated writing one of writing; no other intent becomes
/// a ritual.
pub proof fn lemma_ritual_calls_for_its_intent(i: Intent)
    ensures
        ritual_for(intent_label(i)) matches Some(n) ==> ritual_kind(n) == i,
        ritual_for(intent_label(i)) is Some <==> (i == Intent::Think || i == Intent::Search || i
            == Intent::Write),
{
    reveal_strlit("think");
    reveal_strlit("search");
    reveal_strlit("rest");
    reveal_strlit("obsess");
    reveal_strlit("plan");
    reveal_strlit("mutate");
    reveal_strlit("write");
    reveal_strlit("memory_revisit");
    reveal_strlit("search_again");
    reveal_strlit("reflection");
    assert("memory_revisit"@.len() == 14 && "search_again"@.len() == 12 && "reflection"@.len()
        == 10);
    if i != Intent::Think {
        crate::intent::lemma_labels_distinct(i, Intent::Think);
    }
    if i != Intent::Search {
        crate::intent::lemma_labels_distinct(i, Intent::Search);
    }
    if i != Intent::Write {
        crate::intent::lemma_labels_distinct(i, Intent::Write);
    }
}

/// What each ritual calls for: `search_again` a search, `reflection` a
/// piece of writing, and every other ritual (`memory_revisit` among them)
/// a thought.
pub proof fn lemma_ritual_kinds(name: Seq<char>)
    ensures
        name == "search_again"@ ==> ritual_kind(name) == Intent::Search,
        name == "reflection"@ ==> ritual_kind(name) == Intent::Write,
        name != "search_again"@ && name != "reflection"@ ==> ritual_kind(name) == Intent::Think,
        ritual_kind("memory_revisit"@) == Intent::Think,
{
    reveal_strlit("memory_revisit");
    reveal_strlit("search_again");
    reveal_strlit("reflection");
    assert("memory_revisit"@.len() == 14 && "search_again"@.len() == 12 && "reflection"@.len()
        == 10);
}

/// The last five recent intents are the same.
pub open spec fn five_alike(s: Seq<Seq<char>>) -> bool {
    s.len() >= 5 && forall|k: int| s.len() - 5 <= k < s.len() ==> #[trigger] s[k] == s.last()
}

/// The ritual that may emerge from the recent intents: when the last five
/// are alike and name a searching, thinking or writing ritual that the
/// creature does not have yet, that ritual's name.
pub open spec fn ritual_emerging(s: Seq<Seq<char>>, rituals: Seq<RitualClock>) -> Option<Seq<char>> {
    if five_alike(s) {
        match ritual_for(s.last()) {
            Some(n) => if forall|i: int| 0 <= i < rituals.len() ==> #[trigger] rituals[i].name@ != n {
                Some(n)
            } else {
                None
            },
            None => None,
        }
    } else {
        None
    }
}

/// A new ritual as (name, cadence, last run), given the roll (in `0..100`)
/// that decides whether it emerges (under 40) and its cadence.
pub open spec fn ritual_outcome(
    s: Seq<Seq<char>>,
    rituals: Seq<RitualClock>,
    run: u64,
    roll: int,
    cadence: u64,
) -> Option<(Seq<char>, u64, u64)> {
    match ritual_emerging(s, rituals) {
        Some(n) => if roll < 40 {
            Some((n, cadence, run))
        } else {
            None
        },
        None => None,
    }
}

/// A ritual clock as (name, cadence, last run).
pub open spec fn clock_view(r: Option<RitualClock>) -> Option<(Seq<char>, u64, u64)> {
    match r {
        Some(c) => Some((c.name@, c.cadence_runs, c.last_run)),
        None => None,
    }
}

/// Whether a ritual emerges, given the roll that decides it (it does when
/// the roll is under 40) and the cadence it gets: see `ritual_outcome`.
pub fn decide_ritual(
    last_intents: &Vec<String>,
    rituals: &Vec<RitualClock>,
    run: u64,
    roll: usize,
    cadence: u64,
) -> (r: Option<RitualClock>)
    ensures
        clock_view(r) == ritual_outcome(texts(last_intents@), rituals@, run, roll as int, cadence),
{
    let ghost t = texts(last_intents@);
    let n = last_intents.len();
    if n < 5 {
        return None;
    }
    let last = last_intents[n - 1].as_str();
    assert(t.last() == last@);
    let mut k: usize = n - 5;
    while k < n
        invariant
            n == last_intents@.len(),
            t == texts(last_intents@),
            n >= 5,
            n - 5 <= k <= n,
            last@ == last_intents@[n - 1]@,
            forall|j: int| n - 5 <= j < k ==> #[trigger] last_intents@[j]@ == last@,
        decreases n - k,
    {
        if !crate::lists::str_eq(last_intents[k].as_str(), last) {
            assert(t[k as int] == last_intents@[k as int]@);
            assert(!five_alike(t));
            return None;
        }
        k = k + 1;
    }
    proof {
        assert forall|j: int| t.len() - 5 <= j < t.len() implies #[trigger] t[j] == t.last() by {
            assert(t[j] == last_intents@[j]@);
        }
    }
    let name: &str = if crate::lists::str_eq(last, "search") {
        "search_again"
    } else if crate::lists::str_eq(last, "think") {
        "memory_revisit"
    } else if crate::lists::str_eq(last, "write") {
        "reflection"
    } else {
        return None;
    };
    assert(ritual_for(t.last()) == Some(name@));
    let mut i: usize = 0;
    while i < rituals.len()
        invariant
            i <= rituals@.len(),
            t == texts(last_intents@),
            five_alike(t),
            ritual_for(t.last()) == Some(name@),
            forall|j: int| 0 <= j < i ==> #[trigger] rituals@[j].name@ != name@,
        decreases rituals.len() - i,
    {
        if crate::lists::str_eq(rituals[i].name.as_str(), name) {
            assert(rituals@[i as int].name@ == name@);
            assert(ritual_emerging(t, rituals@) is None);
            return None;
        }
        i = i + 1;
    }
    assert(ritual_emerging(t, rituals@) == Some(name@));
    if roll < 40 {
        Some(RitualClock { name: name.to_owned(), cadence_runs: cadence, last_run: run })
    } else {
        None
    }
}

/// A ritual may emerge when the creature did the same thing five times in
/// a row (searching, thinking or writing) and has no such ritual yet; it
/// then does so with a chance of 40 in 100, with a cadence of 8 to 23 runs.
/// The outcome is that of `decide_ritual` for some roll in `0..100` and
/// some cadence in `8..24`.
pub fn detect_ritual(
    last_intents: &Vec<String>,
    rituals: &Vec<RitualClock>,
    run: u64,
    rng: &mut ThreadRng,
) -> (r: Option<RitualClock>)
    ensures
        exists|roll: int, cadence: u64|
            0 <= roll < 100 && 8 <= cadence < 24 && #[trigger] ritual_outcome(
                texts(last_intents@),
                rituals@,
                run,
                roll,
                cadence,
            ) == clock_view(r),
{
    let roll = random_index(rng, 100);
    let cadence = random_range(rng, 8, 24) as u64;
    decide_ritual(last_intents, rituals, run, roll, cadence)
}

/// Names of the inner voices, by index.
pub open spec fn voice_name(i: usize) -> Seq<char> {
    if i == 0 {
        "Explorer"@
    } else if i == 1 {
        "Archivist"@
    } else if i == 2 {
        "Skeptic"@
    } else if i == 3 {
        "Dreamer"@
    } else {
        "Philosopher"@
    }
}

/// The name of inner voice `i`.
pub fn voice_label(i: usize) -> (r: &'static str)
    ensures
        r@ == voice_name(i),
{
    if i == 0 {
        "Explorer"
    } else if i == 1 {
        "Archivist"
    } else if i == 2 {
        "Skeptic"
    } else if i == 3 {
        "Dreamer"
    } else {
        "Philosopher"
    }
}

/// A priority key: the topic cut to its first 24 characters.
pub fn normalize_key(s: &str) -> (r: String)
    ensures
        r@ == at_most(s@, 24),
{
    let cs = chars_of(s);
    if cs.len() <= 24 {
        return string_of(cs.as_slice());
    }
    let mut out: Vec<char> = Vec::new();
    let mut i: usize = 0;
    while i < 24
        invariant
            i <= 24 < cs@.len(),
            out@ == cs@.take(i as int),
        decreases 24 - i,
    {
        out.push(cs[i]);
        i = i + 1;
        assert(out@ =~= cs@.take(i as int));
    }
    string_of(out.as_slice())
}

/// The marker before a narrated line.
pub open spec fn line_marker(cadence: u8, expression_on: bool, kind: Seq<char>) -> Seq<char> {
    if !expression_on {
        "💭"@
    } else if kind == "think"@ {
        if cadence % 4 == 0 {
            "💭"@
        } else {
            "···"@
        }
    } else if kind == "search"@ {
        "⌁"@
    } else if kind == "world"@ {
        "◈"@
    } else {
        "•"@
    }
}

/// The marker a narrated line of this kind starts with; its look follows
/// the expression cadence when expression is on.
pub fn prefix_line(cadence: u8, expression_on: bool, kind: &str) -> (r: String)
    ensures
        r@ == line_marker(cadence, expression_on, kind@),
{
    if !expression_on {
        return "💭".to_owned();
    }
    if crate::lists::str_eq(kind, "think") {
        if cadence % 4 == 0 {
            "💭".to_owned()
        } else {
            "···".to_owned()
        }
    } else if crate::lists::str_eq(kind, "search") {
        "⌁".to_owned()
    } else if crate::lists::str_eq(kind, "world") {
        "◈".to_owned()
    } else {
        "•".to_owned()
    }
}

/// A memory as a dream recalls it: a strongly distorted one cut to 40
/// characters and marked with `~`, a clear one cut to 50 characters.
pub open spec fn dream_recall(s: Seq<char>, heavy: bool) -> Seq<char> {
    if heavy {
        at_most(s, 40).push('~')
    } else {
        at_most(s, 50)
    }
}

/// The first `n` characters of a text (all of it when shorter).
pub fn first_chars(s: &str, n: usize) -> (r: Vec<char>)
    ensures
        r@ == at_most(s@, n as nat),
{
    let cs = chars_of(s);
    if cs.len() <= n {
        return cs;
    }
    let mut out: Vec<char> = Vec::new();
    let mut i: usize = 0;
    while i < n
        invariant
            i <= n < cs@.len(),
            out@ == cs@.take(i as int),
        decreases n - i,
    {
        out.push(cs[i]);
        i = i + 1;
        assert(out@ =~= cs@.take(i as int));
    }
    out
}

/// A memory as a dream recalls it.
pub fn ecology_distort(s: &str, heavy: bool) -> (r: String)
    ensures
        r@ == dream_recall(s@, heavy),
{
    if heavy {
        let mut v = first_chars(s, 40);
        v.push('~');
        string_of(v.as_slice())
    } else {
        let v = first_chars(s, 50);
        string_of(v.as_slice())
    }
}

/// Dream frame `k` of 4 over a recalled memory `a`, an obsession `b` and
/// a contradiction `c`.
pub open spec fn dream_text(k: int, a: Seq<char>, b: Seq<char>, c: Seq<char>) -> Seq<char> {
    if k == 0 {
        "in sleep, "@ + a + " argued with "@ + b
    } else if k == 1 {
        "a broken loop: "@ + c + " became "@ + b
    } else if k == 2 {
        "I tasted "@ + a + " but it meant "@ + b
    } else {
        b + " wore the mask of "@ + a
    }
}

/// The first entry of `s`, or `d` when it is empty.
pub open spec fn first_or(s: Seq<Seq<char>>, d: Seq<char>) -> Seq<char> {
    if s.len() > 0 {
        s[0]
    } else {
        d
    }
}

/// Compose a dream from a random living memory (given as its text and
/// whether it is strongly distorted), the first obsession and the first
/// contradiction.
pub fn compose_dream(
    memories: &Vec<(String, bool)>,
    obsessions: &Vec<String>,
    contradictions: &Vec<String>,
    rng: &mut ThreadRng,
) -> (r: String)
    ensures
        exists|k: int, a: Seq<char>|
            0 <= k < 4 && (if memories@.len() == 0 {
                a == "static"@
            } else {
                exists|i: int|
                    0 <= i < memories@.len() && a == dream_recall(memories@[i].0@, memories@[i].1)
            }) && r@ == dream_text(
                k,
                a,
                first_or(texts(obsessions@), "the void"@),
                first_or(texts(contradictions@), "unfinished logic"@),
            ),
{
    let n = if memories.len() > 0 {
        memories.len()
    } else {
        1
    };
    let i = random_index(rng, n);
    let a = if i < memories.len() {
        ecology_distort(memories[i].0.as_str(), memories[i].1)
    } else {
        "static".to_owned()
    };
    let b = if obsessions.len() > 0 {
        assert(texts(obsessions@)[0] == obsessions@[0]@);
        obsessions[0].clone()
    } else {
        "the void".to_owned()
    };
    let c = if contradictions.len() > 0 {
        assert(texts(contradictions@)[0] == contradictions@[0]@);
        contradictions[0].clone()
    } else {
        "unfinished logic".to_owned()
    };
    let k = random_index(rng, 4);
    let mut s: String;
    if k == 0 {
        s = "in sleep, ".to_owned();
        s.append(a.as_str());
        s.append(" argued with ");
        s.append(b.as_str());
    } else if k == 1 {
        s = "a broken loop: ".to_owned();
        s.append(c.as_str());
        s.append(" became ");
        s.append(b.as_str());
    } else if k == 2 {
        s = "I tasted ".to_owned();
        s.append(a.as_str());
        s.append(" but it meant ");
        s.append(b.as_str());
    } else {
        s = b.clone();
        s.append(" wore the mask of ");
        s.append(a.as_str());
    }
    assert(s@ == dream_text(
        k as int,
        a@,
        first_or(texts(obsessions@), "the void"@),
        first_or(texts(contradictions@), "unfinished logic"@),
    ));
    s
}

/// Half of a pressure, rounded toward zero (as `i32` division does).
pub open spec fn half(p: int) -> int {
    if p >= 0 {
        p / 2
    } else {
        -((-p) / 2)
    }
}

/// Whether a dream comes, given the roll of `0..100` drawn for it: dreams
/// must be on and the cooldown run out, a trigger must hold — every 17th
/// run, an open contradiction, or a restless mood — and the roll must not
/// exceed half the creature's creativity plus anxiety.
pub open spec fn dream_fires(
    on: bool,
    cooldown: u64,
    run: u64,
    has_contradictions: bool,
    mood: Seq<char>,
    creativity: i32,
    anxiety: i32,
    roll: int,
) -> bool {
    &&& on
    &&& cooldown == 0
    &&& run % 17 == 0 || has_contradictions || mood == "restless"@
    &&& roll <= half(creativity + anxiety)
}

/// The dream decision for a given roll (see `dream_fires`).
pub fn dream_decision(
    on: bool,
    cooldown: u64,
    run: u64,
    has_contradictions: bool,
    mood: &str,
    creativity: i32,
    anxiety: i32,
    roll: i64,
) -> (r: bool)
    requires
        on && cooldown == 0 ==> i32::MIN <= creativity + anxiety <= i32::MAX,
    ensures
        r == dream_fires(on, cooldown, run, has_contradictions, mood@, creativity, anxiety, roll as int),
{
    if !on || cooldown > 0 {
        return false;
    }
    let trigger = run % 17 == 0 || has_contradictions || crate::lists::str_eq(mood, "restless");
    if !trigger {
        return false;
    }
    let pressure: i32 = creativity + anxiety;
    let p: i64 = pressure as i64;
    let h: i64 = if p >= 0 {
        p / 2
    } else {
        -((-p) / 2)
    };
    !(roll > h)
}

/// Whether the creature dreams this tick. With dreams off, or while the
/// dream cooldown runs, there is no dream (and the cooldown ticks down).
/// Otherwise, when a trigger holds, a roll of `0..100` is drawn and
/// `dream_decision` decides.
pub fn dream_due(
    dreams_on: bool,
    cooldown: &mut u64,
    run: u64,
    has_contradictions: bool,
    mood: &str,
    creativity: i32,
    anxiety: i32,
    rng: &mut ThreadRng,
) -> (r: bool)
    requires
        dreams_on && *old(cooldown) == 0 ==> i32::MIN <= creativity + anxiety <= i32::MAX,
    ensures
        (!dreams_on || *old(cooldown) > 0) ==> *final(cooldown) == sat_sub(*old(cooldown), 1),
        (dreams_on && *old(cooldown) == 0) ==> *final(cooldown) == 0,
        exists|roll: int|
            0 <= roll < 100 && r == #[trigger] dream_fires(
                dreams_on,
                *old(cooldown),
                run,
                has_contradictions,
                mood@,
                creativity,
                anxiety,
                roll,
            ),
{
    if !dreams_on || *cooldown > 0 {
        assert(!dream_fires(dreams_on, *old(cooldown), run, has_contradictions, mood@, creativity, anxiety, 0));
        if *cooldown > 0 {
            *cooldown = *cooldown - 1;
        }
        return false;
    }
    let trigger = run % 17 == 0 || has_contradictions || crate::lists::str_eq(mood, "restless");
    if !trigger {
        assert(!dream_fires(dreams_on, *old(cooldown), run, has_contradictions, mood@, creativity, anxiety, 0));
        return false;
    }
    let roll = random_range(rng, 0, 100);
    let r = dream_decision(dreams_on, *cooldown, run, has_contradictions, mood, creativity, anxiety, roll);
    assert(0 <= roll < 100 && r == dream_fires(dreams_on, *old(cooldown), run, has_contradictions, mood@, creativity, anxiety, roll as int));
    r
}

/// Close a dream: the dream cooldown starts over at 8 runs and the open
/// contradictions, which the dream has worked through, are cleared.
pub fn close_dream(dream_cooldown: &mut u64, contradictions: &mut Vec<String>)
    ensures
        *final(dream_cooldown) == 8,
        final(contradictions)@.len() == 0,
{
    *dream_cooldown = 8;
    contradictions.clear();
}

/// The trait table with trait `name` moved by `d` and kept within `0..=100`.
pub open spec fn trait_nudged(p: Seq<(Seq<char>, i32)>, name: Seq<char>, d: int) -> Seq<
    (Seq<char>, i32),
> {
    match lookup_trait(p, name) {
        Some(v) => with_trait(p, name, clamped(v + d, 0, 100) as i32),
        None => p,
    }
}

/// The trait table after a dream's nudge with the given roll (in
/// `0..100`) and move: under 30 the strongest trait (the last of equal
/// strength) moves by `d` (kept within `0..=100`); otherwise the table
/// stays as it is.
pub open spec fn nudge_outcome(
    old_p: Seq<(Seq<char>, i32)>,
    new_p: Seq<(Seq<char>, i32)>,
    roll: int,
    d: int,
) -> bool {
    if roll < 30 {
        new_p == trait_nudged(old_p, dominant_name(old_p), d)
    } else {
        new_p == old_p
    }
}

/// A dream's nudge with the given roll and move: see `nudge_outcome`.
pub fn nudge_dominant(mem: &mut CreatureMemory, roll: usize, d: i32)
    ensures
        *final(mem) == (CreatureMemory { personality: final(mem).personality, ..*old(mem) }),
        free_of_repeats(*old(mem)) ==> free_of_repeats(*final(mem)),
        nudge_outcome(
            traits_of(old(mem).personality@),
            traits_of(final(mem).personality@),
            roll as int,
            d as int,
        ),
{
    if roll >= 30 {
        return ;
    }
    let name = mem.dominant_trait().to_owned();
    let mut i: usize = 0;
    let ghost p = traits_of(mem.personality@);
    assert(p.skip(0) =~= p);
    while i < mem.personality.len()
        invariant
            i <= mem.personality@.len(),
            p == traits_of(mem.personality@),
            *mem == *old(mem),
            name@ == dominant_name(p),
            roll < 30,
            lookup_trait(p, name@) == lookup_trait(p.skip(i as int), name@),
        decreases mem.personality.len() - i,
    {
        let ghost q = p.skip(i as int);
        assert(q[0] == p[i as int]);
        if crate::lists::str_eq(mem.personality[i].0.as_str(), name.as_str()) {
            let v = mem.personality[i].1;
            proof {
                assert(lookup_trait(p, name@) == Some(v));
            }
            let nv = if v as i64 + d as i64 > 100 {
                100
            } else if v as i64 + d as i64 <= 0 {
                0
            } else {
                (v as i64 + d as i64) as i32
            };
            mem.set_trait(name.as_str(), nv);
            assert(nv as int == clamped(v + d, 0, 100));
            assert(traits_of(mem.personality@) == trait_nudged(p, name@, d as int));
            return ;
        }
        assert(q.drop_first() =~= p.skip(i + 1));
        i = i + 1;
    }
    assert(p.skip(i as int) =~= Seq::<(Seq<char>, i32)>::empty());
    assert(trait_nudged(p, name@, d as int) == p);
}

/// After a dream the strongest trait sometimes (30 in 100) moves by -3 to
/// 3 (kept within `0..=100`), if the creature has such a trait. The outcome
/// is that of `nudge_dominant` for some roll in `0..100` and some move in
/// `-3..4`.
pub fn dream_nudge(mem: &mut CreatureMemory, rng: &mut ThreadRng)
    ensures
        *final(mem) == (CreatureMemory { personality: final(mem).personality, ..*old(mem) }),
        within_caps(*old(mem)) ==> within_caps(*final(mem)),
        free_of_repeats(*old(mem)) ==> free_of_repeats(*final(mem)),
        exists|roll: int, d: int|
            0 <= roll < 100 && -3 <= d < 4 && #[trigger] nudge_outcome(
                traits_of(old(mem).personality@),
                traits_of(final(mem).personality@),
                roll,
                d,
            ),
{
    let roll = random_index(rng, 100);
    let d = random_range(rng, -3, 4) as i32;
    nudge_dominant(mem, roll, d);
}

/// When and how the creature leaps.
#[derive(Debug, Clone)]
pub struct LeapState {
    pub interval: u64,
    pub total_leaps: u64,
    pub last_leap_run: u64,
    pub theme: String,
}

impl Default for LeapState {
    /// The first leap comes after 100 runs, on the theme of memory.
    fn default() -> (r: Self)
        ensures
            r.interval == 100,
            r.total_leaps == 0,
            r.last_leap_run == 0,
            r.theme@ == "memory"@,
    {
        LeapState { interval: 100, total_leaps: 0, last_leap_run: 0, theme: "memory".to_owned() }
    }
}

/// Whether a leap happens this run. With leaps off, or while the leap
/// cooldown runs, there is none (and the cooldown ticks down); otherwise
/// a leap is due on every positive multiple of the interval.
pub fn leap_due(leaps_on: bool, cooldown: &mut u64, interval: u64, run: u64) -> (r: bool)
    requires
        leaps_on && *old(cooldown) == 0 && run > 0 ==> interval > 0,
    ensures
        (!leaps_on || *old(cooldown) > 0) ==> !r && *final(cooldown) == sat_sub(*old(cooldown), 1),
        (leaps_on && *old(cooldown) == 0) ==> *final(cooldown) == 0 && r == (run > 0 && run
            % interval == 0),
{
    if !leaps_on || *cooldown > 0 {
        if *cooldown > 0 {
            *cooldown = *cooldown - 1;
        }
        return false;
    }
    run > 0 && run % interval == 0
}

/// The four searches of a leap on `theme`.
pub open spec fn leap_query_texts(theme: Seq<char>) -> Seq<Seq<char>> {
    seq![
        theme + " forgetting"@,
        theme + " cognition"@,
        theme + " nostalgia"@,
        "digital "@ + theme + " evolution"@,
    ]
}

/// The four searches of a leap on `theme`.
pub fn leap_queries(theme: &str) -> (r: Vec<String>)
    ensures
        string_texts(r@) == leap_query_texts(theme@),
{
    let mut a = theme.to_owned();
    a.append(" forgetting");
    let mut b = theme.to_owned();
    b.append(" cognition");
    let mut c = theme.to_owned();
    c.append(" nostalgia");
    let mut d = "digital ".to_owned();
    d.append(theme);
    d.append(" evolution");
    let mut v: Vec<String> = Vec::new();
    v.push(a);
    v.push(b);
    v.push(c);
    v.push(d);
    assert(string_texts(v@) =~= leap_query_texts(theme@));
    v
}

/// The interval until the next leap: one run shorter, but never under 10.
pub open spec fn next_interval(i: u64) -> u64 {
    let d = sat_sub(i, 1);
    if d < 10 {
        10
    } else {
        d
    }
}

/// Close a leap on `theme` taken at run `run`: the creature ages by one
/// run and becomes obsessed with the theme; the dream cooldown is lifted
/// and the leap noted as an open contradiction; the leap is counted, the
/// next interval shrinks (not below 10) and a 12-run cooldown starts.
pub fn finish_leap(
    mem: &mut CreatureMemory,
    leap: &mut LeapState,
    cooldown: &mut u64,
    dream_cooldown: &mut u64,
    contradictions: &mut Vec<String>,
    theme: String,
    run: u64,
)
    requires
        old(mem).age < u64::MAX,
        old(leap).total_leaps < u64::MAX,
    ensures
        texts(final(mem).obsessions@) == capped_push(texts(old(mem).obsessions@), theme@, 8),
        within_caps(*old(mem)) ==> within_caps(*final(mem)),
        free_of_repeats(*old(mem)) ==> free_of_repeats(*final(mem)),
        *final(mem) == (CreatureMemory {
            age: (old(mem).age + 1) as u64,
            obsessions: final(mem).obsessions,
            ..*old(mem)
        }),
        final(leap).theme@ == theme@,
        final(leap).total_leaps == old(leap).total_leaps + 1,
        final(leap).last_leap_run == run,
        final(leap).interval == next_interval(old(leap).interval),
        *final(cooldown) == 12,
        *final(dream_cooldown) == 0,
        texts(final(contradictions)@) == texts(old(contradictions)@).push("leap: "@ + theme@),
{
    mem.age = mem.age + 1;
    push_cap(&mut mem.obsessions, theme.clone(), 8);
    *dream_cooldown = 0;
    let mut note = "leap: ".to_owned();
    note.append(theme.as_str());
    let ghost before = contradictions@;
    contradictions.push(note);
    assert(texts(contradictions@) =~= texts(before).push("leap: "@ + theme@));
    leap.theme = theme;
    leap.total_leaps = leap.total_leaps + 1;
    leap.last_leap_run = run;
    let d = leap.interval.saturating_sub(1);
    leap.interval = if d < 10 {
        10
    } else {
        d
    };
    *cooldown = 12;
}

/// How many entries of `a` also occur in `b` (repeats in `a` counted).
pub open spec fn overlap_count(a: Seq<Seq<char>>, b: Seq<Seq<char>>) -> nat
    decreases a.len(),
{
    if a.len() == 0 {
        0
    } else {
        overlap_count(a.drop_last(), b) + if b.contains(a.last()) {
            1nat
        } else {
            0nat
        }
    }
}

/// Best overlap of memory `i` with memories `0..j` (other than itself):
/// the score and the index of the first memory reaching it (`-1` before
/// any positive overlap).
pub open spec fn best_match(toks: Seq<Seq<Seq<char>>>, i: int, j: int) -> (nat, int)
    decreases j,
{
    if j <= 0 {
        (0, -1)
    } else {
        let prev = best_match(toks, i, j - 1);
        let s = overlap_count(toks[i], toks[j - 1]);
        if j - 1 != i && s > prev.0 {
            (s, j - 1)
        } else {
            prev
        }
    }
}

/// The cluster a living memory joins: the memory it overlaps most with,
/// once they share at least two tokens; otherwise it keeps its cluster.
pub open spec fn new_cluster(toks: Seq<Seq<Seq<char>>>, old_ids: Seq<u32>, i: int) -> u32 {
    let b = best_match(toks, i, toks.len() as int);
    if b.0 >= 2 {
        b.1 as u32
    } else {
        old_ids[i]
    }
}

/// The tokens a living memory is clustered by.
pub open spec fn cluster_tokens(contents: Seq<String>) -> Seq<Seq<Seq<char>>> {
    contents.map_values(|c: String| tokens_of(c@, 4, false))
}

fn overlap(a: &Vec<String>, b: &Vec<String>) -> (r: usize)
    ensures
        r == overlap_count(string_texts(a@), string_texts(b@)),
{
    let mut n: usize = 0;
    let mut i: usize = 0;
    while i < a.len()
        invariant
            i <= a@.len(),
            n == overlap_count(string_texts(a@).take(i as int), string_texts(b@)),
            n <= i,
        decreases a.len() - i,
    {
        let hit = crate::lists::contains_str(b, a[i].as_str());
        proof {
            let t = string_texts(a@).take(i + 1);
            assert(t.drop_last() =~= string_texts(a@).take(i as int));
            assert(t.last() == a@[i as int]@);
            assert(texts(b@) == string_texts(b@));
        }
        if hit {
            n = n + 1;
        }
        i = i + 1;
    }
    assert(string_texts(a@).take(a@.len() as int) =~= string_texts(a@));
    n
}

/// Re-cluster the living memories by shared tokens: each joins the memory
/// it overlaps most with when they share at least two tokens.
pub fn cluster_memories(contents: &Vec<String>, clusters: &mut Vec<u32>)
    requires
        old(clusters)@.len() == contents@.len(),
    ensures
        final(clusters)@.len() == old(clusters)@.len(),
        forall|i: int|
            0 <= i < contents@.len() ==> #[trigger] final(clusters)@[i] == new_cluster(
                cluster_tokens(contents@),
                old(clusters)@,
                i,
            ),
{
    let n = contents.len();
    let mut toks: Vec<Vec<String>> = Vec::new();
    let mut k: usize = 0;
    while k < n
        invariant
            k <= n == contents@.len(),
            toks@.len() == k,
            forall|j: int| 0 <= j < k ==> string_texts(#[trigger] toks@[j]@) == tokens_of(
                contents@[j]@,
                4,
                false,
            ),
        decreases n - k,
    {
        toks.push(tokenize(contents[k].as_str(), 4, false));
        k = k + 1;
    }
    let ghost tk = cluster_tokens(contents@);
    assert forall|j: int| 0 <= j < n implies string_texts(#[trigger] toks@[j]@) == tk[j] by {}
    let mut i: usize = 0;
    while i < n
        invariant
            i <= n == contents@.len(),
            toks@.len() == n,
            tk == cluster_tokens(contents@),
            forall|j: int| 0 <= j < n ==> string_texts(#[trigger] toks@[j]@) == tk[j],
            clusters@.len() == n,
            forall|j: int| 0 <= j < i ==> #[trigger] clusters@[j] == new_cluster(tk, old(clusters)@, j),
            forall|j: int| i <= j < n ==> #[trigger] clusters@[j] == old(clusters)@[j],
        decreases n - i,
    {
        let mut best: usize = 0;
        let mut best_score: usize = 0;
        let ghost mut best_idx: int = -1;
        let mut j: usize = 0;
        while j < n
            invariant
                i < n,
                j <= n == toks@.len(),
                forall|q: int| 0 <= q < n ==> string_texts(#[trigger] toks@[q]@) == tk[q],
                tk.len() == n,
                best_match(tk, i as int, j as int) == (best_score as nat, best_idx),
                best_idx >= 0 ==> best_idx == best as int,
                best_idx < 0 ==> best_score == 0,
                best_idx < n,
            decreases n - j,
        {
            if i != j {
                let s = overlap(&toks[i], &toks[j]);
                if s > best_score {
                    best_score = s;
                    best = j;
                    proof {
                        best_idx = j as int;
                    }
                }
            }
            j = j + 1;
        }
        if best_score >= 2 {
            proof {
                assert(best_idx >= 0);
            }
            let id: u32 = #[verifier::truncate] (best as u32);
            clusters.set(i, id);
        }
        assert(clusters@[i as int] == new_cluster(tk, old(clusters)@, i as int));
        i = i + 1;
    }
}

/// A text with one of its words replaced by `[...]`.
pub open spec fn blotted(s: Seq<char>, i: int) -> Seq<char> {
    joined(ws_words(s).update(i, "[...]"@))
}

/// Distort a resurfacing memory: a weakly distorted one, a short one (under
/// 20 bytes) or one of fewer than four words stays as it is; otherwise a
/// random word is blotted out.
pub fn distort_text(s: &str, distorted: bool, rng: &mut ThreadRng) -> (r: String)
    ensures
        (!distorted || utf8_len(s@) < 20 || ws_words(s@).len() < 4) ==> r@ == s@,
        (distorted && utf8_len(s@) >= 20 && ws_words(s@).len() >= 4) ==> exists|i: int|
            0 <= i < ws_words(s@).len() && r@ == blotted(s@, i),
{
    if !distorted || !has_bytes(s, 20) {
        return s.to_owned();
    }
    let cs = chars_of(s);
    let words = crate::words::split_ws(&cs);
    if words.len() < 4 {
        return s.to_owned();
    }
    let i = random_index(rng, words.len());
    let mut out: Vec<char> = Vec::new();
    let mut k: usize = 0;
    let ghost ws = char_lists(words@).update(i as int, "[...]"@);
    let blot: Vec<char> = vec!['[', '.', '.', '.', ']'];
    proof {
        reveal_strlit("[...]");
        assert(blot@ =~= "[...]"@);
    }
    while k < words.len()
        invariant
            k <= words@.len(),
            i < words@.len(),
            ws == char_lists(words@).update(i as int, "[...]"@),
            blot@ == "[...]"@,
            out@ == joined(ws.take(k as int)),
        decreases words.len() - k,
    {
        let ghost before = out@;
        if k > 0 {
            out.push(' ');
        }
        let w: &Vec<char> = if k == i {
            &blot
        } else {
            &words[k]
        };
        assert(w@ == ws[k as int]);
        let mut j: usize = 0;
        let ghost mid = out@;
        while j < w.len()
            invariant
                j <= w@.len(),
                out@ == mid + w@.take(j as int),
            decreases w.len() - j,
        {
            out.push(w[j]);
            j = j + 1;
            assert(out@ =~= mid + w@.take(j as int));
        }
        proof {
            assert(w@.take(w@.len() as int) =~= w@);
            assert(ws.take(k + 1).drop_last() =~= ws.take(k as int));
            assert(ws.take(k + 1).last() == w@);
            if k == 0 {
                assert(out@ =~= w@);
            } else {
                assert(out@ =~= before + seq![' '] + w@);
            }
        }
        k = k + 1;
    }
    assert(ws.take(words@.len() as int) =~= ws);
    assert(char_lists(words@) == ws_words(s@));
    assert(out@ == blotted(s@, i as int));
    string_of(out.as_slice())
}

/// A thought as the creature's expression styles it: with expression on,
/// a first phrase to use and a dense enough metaphor density, the first
/// phrase and a comma go before it; otherwise it is unchanged.
pub open spec fn styled(phrases: Seq<Seq<char>>, expression_on: bool, dense: bool, t: Seq<char>) -> Seq<
    char,
> {
    if expression_on && phrases.len() > 0 && dense {
        phrases[0] + ", "@ + t
    } else {
        t
    }
}

/// Style a thought; `dense` tells whether the metaphor density is high
/// enough for a phrase.
pub fn style_thought(phrases: &Vec<String>, expression_on: bool, dense: bool, thought: String) -> (r:
    String)
    ensures
        r@ == styled(texts(phrases@), expression_on, dense, thought@),
{
    if !expression_on || phrases.len() == 0 || !dense {
        return thought;
    }
    let mut s = phrases[0].clone();
    s.append(", ");
    s.append(thought.as_str());
    s
}

/// Keep a new expression phrase: a phrase already held changes nothing;
/// otherwise it is appended and, past 12 phrases, the oldest is dropped.
pub fn remember_phrase(phrases: &mut Vec<String>, phrase: String)
    ensures
        texts(final(phrases)@) == if texts(old(phrases)@).contains(phrase@) {
            texts(old(phrases)@)
        } else {
            recent_after(texts(old(phrases)@), phrase@)
        },
{
    if contains_str(phrases, phrase.as_str()) {
        return ;
    }
    let ghost before = texts(phrases@);
    phrases.push(phrase);
    assert(texts(phrases@) =~= before.push(phrase@));
    if phrases.len() > 12 {
        phrases.remove(0);
        assert(texts(phrases@) =~= before.push(phrase@).drop_first());
    }
}

/// The line of a conflict between the inner voices: the strongest voice
/// wants to search, and the archivist or the explorer, whichever leads,
/// wants to preserve.
pub fn conflict_line(top_voice: usize, archivist_leads: bool) -> (r: String)
    ensures
        r@ == voice_name(top_voice) + " wants search, "@ + (if archivist_leads {
            "Archivist"@
        } else {
            "Explorer"@
        }) + " wants preservation"@,
{
    let mut s = voice_label(top_voice).to_owned();
    s.append(" wants search, ");
    s.append(if archivist_leads { "Archivist" } else { "Explorer" });
    s.append(" wants preservation");
    s
}

/// The facts a memory ecology adopts from `newest_first`, in order: each
/// one that is not already a living memory's content and was not adopted
/// just before.
pub open spec fn facts_to_adopt(newest_first: Seq<Seq<char>>, known: Seq<Seq<char>>) -> Seq<
    Seq<char>,
>
    decreases newest_first.len(),
{
    if newest_first.len() == 0 {
        Seq::empty()
    } else {
        let prev = facts_to_adopt(newest_first.drop_last(), known);
        let f = newest_first.last();
        if known.contains(f) || prev.contains(f) {
            prev
        } else {
            prev.push(f)
        }
    }
}

/// The facts the memory ecology takes in on a tick: of the three newest
/// facts, newest first, those that are not living memories yet.
pub fn facts_to_sync(facts: &Vec<String>, known: &Vec<String>) -> (r: Vec<String>)
    ensures
        texts(r@) == facts_to_adopt(newest(texts(facts@), 3), texts(known@)),
{
    let recent = newest_plain(facts, 3);
    let ghost src = texts(recent@);
    let mut out: Vec<String> = Vec::new();
    let mut i: usize = 0;
    while i < recent.len()
        invariant
            i <= recent@.len(),
            src == texts(recent@),
            texts(out@) == facts_to_adopt(src.take(i as int), texts(known@)),
        decreases recent.len() - i,
    {
        let f = &recent[i];
        proof {
            assert(src.take(i + 1).drop_last() =~= src.take(i as int));
            assert(src.take(i + 1).last() == f@);
        }
        if !contains_str(known, f.as_str()) && !contains_str(&out, f.as_str()) {
            let ghost before = texts(out@);
            out.push(f.clone());
            assert(texts(out@) =~= before.push(f@));
        }
        i = i + 1;
    }
    assert(src.take(src.len() as int) =~= src);
    out
}

} // verus!
