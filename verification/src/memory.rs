//! The creature's persistent memory and the rules that keep it tidy.

use crate::lists::{
    clamp, clamped, contains_str, dedupe, deduped, lemma_dedupe_idempotent, lemma_deduped_distinct,
    lemma_deduped_members,
    lemma_normalize_topic_idempotent, normalize_topic, normalized_topic, push_cap, capped_push,
    texts,
};
use crate::rng::{random_index, random_range, thread_rng};
use crate::text::{decimal, decimal_chars, string_of};
use rand::rngs::ThreadRng;
use time::format_description::well_known::Rfc3339;
use time::OffsetDateTime;
use vstd::prelude::*;

verus! {

broadcast use {
    crate::lists::lemma_capped_push_within,
    crate::lists::lemma_capped_push_distinct,
    crate::lists::lemma_texts_len,
};

/// File the single creature keeps its memory in.
pub const DEFAULT_MEMORY: &'static str = "enhanced_creature_memory.json";

/// The personality traits every new creature is given.
pub const TRAITS: [&'static str; 10] = [
    "curiosity",
    "anxiety",
    "boldness",
    "creativity",
    "stubbornness",
    "empathy",
    "chaos",
    "logic",
    "patience",
    "ambition",
];

/// First halves of generated names.
pub const NAME_PREFIXES: [&'static str; 14] = [
    "Zyx",
    "Qol",
    "Nim",
    "Vex",
    "Pix",
    "Glo",
    "Mox",
    "Kal",
    "Fey",
    "Dex",
    "Nyx",
    "Void",
    "Echo",
    "Flux",
];

/// Second halves of generated names.
pub const NAME_SUFFIXES: [&'static str; 14] = [
    "ling",
    "bit",
    "core",
    "flux",
    "wave",
    "byte",
    "node",
    "sync",
    "mesh",
    "arc",
    "mind",
    "soul",
    "net",
    "web",
];

/// Everything a creature remembers between runs.
///
/// `personality` maps a trait name to its strength and `memory_fragments`
/// maps a fragment key to its text; both are kept as lists of pairs.
#[derive(Debug, Clone)]
pub struct CreatureMemory {
    pub name: String,
    pub age: u64,
    pub personality: Vec<(String, i32)>,
    pub experiences: Vec<String>,
    pub quirks: Vec<String>,
    pub favorite_things: Vec<String>,
    pub fears: Vec<String>,
    pub last_thought: String,
    pub energy_level: i32,
    pub mood: String,
    pub creation_time: String,
    pub last_run_time: String,
    pub run_count: u64,
    pub mutations: u64,
    pub memory_fragments: Vec<(String, String)>,
    pub learned_facts: Vec<String>,
    pub search_history: Vec<String>,
    pub goals: Vec<String>,
    pub plans: Vec<String>,
    pub obsessions: Vec<String>,
    pub intelligence: i32,
    pub curiosity: i32,
    /// Recent thoughts so we avoid repeating ourselves.
    pub thought_archive: Vec<String>,
    /// What the creature chose to do last tick (agency trace).
    pub last_intent: String,
}

/// The thought archive after remembering `t`: an empty thought is not
/// archived; otherwise it is kept by `push_cap` (at most 40).
pub open spec fn archived(archive: Seq<Seq<char>>, t: Seq<char>) -> Seq<Seq<char>> {
    if t.len() == 0 {
        archive
    } else {
        capped_push(archive, t, 40)
    }
}

/// Every list of the memory is within the cap its updates keep it to:
/// 40 archived thoughts, 20 facts, 25 searches, 8 obsessions, 6 plans,
/// 4 goals, 20 quirks, 12 fears, 12 favourites and 14 experiences.
pub open spec fn within_caps(m: CreatureMemory) -> bool {
    &&& m.thought_archive@.len() <= 40
    &&& m.learned_facts@.len() <= 20
    &&& m.search_history@.len() <= 25
    &&& m.obsessions@.len() <= 8
    &&& m.plans@.len() <= 6
    &&& m.goals@.len() <= 4
    &&& m.quirks@.len() <= 20
    &&& m.fears@.len() <= 12
    &&& m.favorite_things@.len() <= 12
    &&& m.experiences@.len() <= 14
}

/// No key occurs twice in a table of (key, value) pairs.
pub open spec fn distinct_keys<V>(p: Seq<(Seq<char>, V)>) -> bool {
    forall|i: int, j: int| #![trigger p[i], p[j]] 0 <= i < j < p.len() ==> p[i].0 != p[j].0
}

/// No list of the memory holds a text twice, and no trait or fragment key
/// occurs twice.
pub open spec fn free_of_repeats(m: CreatureMemory) -> bool {
    &&& distinct_keys(traits_of(m.personality@))
    &&& distinct_keys(fragments_of(m.memory_fragments@))
    &&& texts(m.thought_archive@).no_duplicates()
    &&& texts(m.learned_facts@).no_duplicates()
    &&& texts(m.search_history@).no_duplicates()
    &&& texts(m.obsessions@).no_duplicates()
    &&& texts(m.plans@).no_duplicates()
    &&& texts(m.goals@).no_duplicates()
    &&& texts(m.quirks@).no_duplicates()
    &&& texts(m.fears@).no_duplicates()
    &&& texts(m.favorite_things@).no_duplicates()
    &&& texts(m.experiences@).no_duplicates()
}

/// The trait table as (name, strength) pairs of plain values.
pub open spec fn traits_of(p: Seq<(String, i32)>) -> Seq<(Seq<char>, i32)> {
    p.map_values(|e: (String, i32)| (e.0@, e.1))
}

/// Strength of the first trait called `name`, if there is one.
pub open spec fn lookup_trait(p: Seq<(Seq<char>, i32)>, name: Seq<char>) -> Option<i32>
    decreases p.len(),
{
    if p.len() == 0 {
        None
    } else if p[0].0 == name {
        Some(p[0].1)
    } else {
        lookup_trait(p.drop_first(), name)
    }
}

/// Strength of trait `name`, 50 when the creature has no such trait.
pub open spec fn trait_value(p: Seq<(Seq<char>, i32)>, name: Seq<char>) -> i32 {
    match lookup_trait(p, name) {
        Some(v) => v,
        None => 50,
    }
}

/// The fragment table as (key, text) pairs of plain values.
pub open spec fn fragments_of(p: Seq<(String, String)>) -> Seq<(Seq<char>, Seq<char>)> {
    p.map_values(|e: (String, String)| (e.0@, e.1@))
}

/// The trait table after giving trait `name` the strength `v`: the first
/// entry of that name is updated, or a new entry is appended.
pub open spec fn with_trait(p: Seq<(Seq<char>, i32)>, name: Seq<char>, v: i32) -> Seq<
    (Seq<char>, i32),
>
    decreases p.len(),
{
    if p.len() == 0 {
        seq![(name, v)]
    } else if p[0].0 == name {
        p.update(0, (name, v))
    } else {
        seq![p[0]] + with_trait(p.drop_first(), name, v)
    }
}

/// The text stored under `key`: that of its first entry, if any.
pub open spec fn fragment_at(p: Seq<(Seq<char>, Seq<char>)>, key: Seq<char>) -> Option<Seq<char>>
    decreases p.len(),
{
    if p.len() == 0 {
        None
    } else if p[0].0 == key {
        Some(p[0].1)
    } else {
        fragment_at(p.drop_first(), key)
    }
}

/// Reading a trait back gives the strength last given to it, and giving a
/// strength to one trait leaves every other trait as it was.
pub proof fn lemma_trait_write_read(p: Seq<(Seq<char>, i32)>, name: Seq<char>, v: i32, other: Seq<char>)
    ensures
        lookup_trait(with_trait(p, name, v), name) == Some(v),
        trait_value(with_trait(p, name, v), name) == v,
        other != name ==> lookup_trait(with_trait(p, name, v), other) == lookup_trait(p, other),
        other != name ==> trait_value(with_trait(p, name, v), other) == trait_value(p, other),
    decreases p.len(),
{
    if p.len() == 0 {
        let q = seq![(name, v)];
        assert(q.drop_first() =~= Seq::<(Seq<char>, i32)>::empty());
        assert(with_trait(p, name, v) == q);
        if other != name {
            assert(q[0].0 != other);
            assert(lookup_trait(q, other) == lookup_trait(q.drop_first(), other));
        }
    } else if p[0].0 != name {
        lemma_trait_write_read(p.drop_first(), name, v, other);
        let q = seq![p[0]] + with_trait(p.drop_first(), name, v);
        assert(q.drop_first() =~= with_trait(p.drop_first(), name, v));
        assert(with_trait(p, name, v) == q);
    } else {
        let q = p.update(0, (name, v));
        assert(q.drop_first() =~= p.drop_first());
        assert(with_trait(p, name, v) == q);
        if other != name {
            assert(q[0].0 != other);
            assert(lookup_trait(q, other) == lookup_trait(q.drop_first(), other));
        }
    }
}

/// Reading a fragment back gives the text last stored under its key, and
/// storing under one key leaves every other key as it was.
pub proof fn lemma_fragment_write_read(
    p: Seq<(Seq<char>, Seq<char>)>,
    key: Seq<char>,
    text: Seq<char>,
    other: Seq<char>,
)
    ensures
        fragment_at(with_fragment(p, key, text), key) == Some(text),
        other != key ==> fragment_at(with_fragment(p, key, text), other) == fragment_at(p, other),
    decreases p.len(),
{
    if p.len() == 0 {
        let q = seq![(key, text)];
        assert(q.drop_first() =~= Seq::<(Seq<char>, Seq<char>)>::empty());
        assert(with_fragment(p, key, text) == q);
        if other != key {
            assert(q[0].0 != other);
            assert(fragment_at(q, other) == fragment_at(q.drop_first(), other));
        }
    } else if p[0].0 != key {
        lemma_fragment_write_read(p.drop_first(), key, text, other);
        let q = seq![p[0]] + with_fragment(p.drop_first(), key, text);
        assert(q.drop_first() =~= with_fragment(p.drop_first(), key, text));
        assert(with_fragment(p, key, text) == q);
    } else {
        let q = p.update(0, (key, text));
        assert(q.drop_first() =~= p.drop_first());
        assert(with_fragment(p, key, text) == q);
        if other != key {
            assert(q[0].0 != other);
            assert(fragment_at(q, other) == fragment_at(q.drop_first(), other));
        }
    }
}

/// The fragment table after storing `text` under `key` (an existing entry
/// of that key is overwritten, otherwise one is appended).
pub open spec fn with_fragment(
    p: Seq<(Seq<char>, Seq<char>)>,
    key: Seq<char>,
    text: Seq<char>,
) -> Seq<(Seq<char>, Seq<char>)>
    decreases p.len(),
{
    if p.len() == 0 {
        seq![(key, text)]
    } else if p[0].0 == key {
        p.update(0, (key, text))
    } else {
        seq![p[0]] + with_fragment(p.drop_first(), key, text)
    }
}

/// Overwriting the value of an existing key keeps the keys distinct.
pub proof fn lemma_distinct_update<V>(p: Seq<(Seq<char>, V)>, i: int, k: Seq<char>, v: V)
    requires
        distinct_keys(p),
        0 <= i < p.len(),
        p[i].0 == k,
    ensures
        distinct_keys(p.update(i, (k, v))),
{
    let q = p.update(i, (k, v));
    assert forall|a: int, b: int| 0 <= a < b < q.len() implies q[a].0 != q[b].0 by {
        assert(q[a].0 == p[a].0 && q[b].0 == p[b].0);
    }
}

/// Appending a new key keeps the keys distinct.
pub proof fn lemma_distinct_push<V>(p: Seq<(Seq<char>, V)>, k: Seq<char>, v: V)
    requires
        distinct_keys(p),
        forall|j: int| 0 <= j < p.len() ==> p[j].0 != k,
    ensures
        distinct_keys(p.push((k, v))),
{
    let q = p.push((k, v));
    assert forall|a: int, b: int| 0 <= a < b < q.len() implies q[a].0 != q[b].0 by {
        assert(q[a] == p[a]);
        if b < p.len() {
            assert(q[b] == p[b]);
        }
    }
}

/// Giving a trait a strength keeps the trait names distinct.
pub proof fn lemma_with_trait_distinct(p: Seq<(Seq<char>, i32)>, name: Seq<char>, v: i32)
    requires
        distinct_keys(p),
    ensures
        distinct_keys(with_trait(p, name, v)),
{
    if exists|i: int| 0 <= i < p.len() && p[i].0 == name {
        let i = choose|i: int| 0 <= i < p.len() && p[i].0 == name;
        assert forall|j: int| 0 <= j < i implies p[j].0 != name by {
            assert(p[j].0 != p[i].0);
        }
        lemma_with_trait_at(p, name, v, i);
        lemma_distinct_update(p, i, name, v);
    } else {
        lemma_with_trait_absent(p, name, v);
        lemma_distinct_push(p, name, v);
    }
}

/// Storing a fragment keeps the fragment keys distinct.
pub proof fn lemma_with_fragment_distinct(
    p: Seq<(Seq<char>, Seq<char>)>,
    key: Seq<char>,
    text: Seq<char>,
)
    requires
        distinct_keys(p),
    ensures
        distinct_keys(with_fragment(p, key, text)),
{
    if exists|i: int| 0 <= i < p.len() && p[i].0 == key {
        let i = choose|i: int| 0 <= i < p.len() && p[i].0 == key;
        assert forall|j: int| 0 <= j < i implies p[j].0 != key by {
            assert(p[j].0 != p[i].0);
        }
        lemma_with_fragment_at(p, key, text, i);
        lemma_distinct_update(p, i, key, text);
    } else {
        lemma_with_fragment_absent(p, key, text);
        lemma_distinct_push(p, key, text);
    }
}

/// The names of `TRAITS` are distinct, so a fresh trait table has distinct
/// keys.
pub proof fn lemma_fresh_traits_distinct(p: Seq<(Seq<char>, i32)>)
    requires
        fresh_traits(p),
    ensures
        distinct_keys(p),
{
    reveal_strlit("curiosity");
    reveal_strlit("anxiety");
    reveal_strlit("boldness");
    reveal_strlit("creativity");
    reveal_strlit("stubbornness");
    reveal_strlit("empathy");
    reveal_strlit("chaos");
    reveal_strlit("logic");
    reveal_strlit("patience");
    reveal_strlit("ambition");
    assert forall|a: int, b: int| 0 <= a < b < p.len() implies p[a].0 != p[b].0 by {
        assert(p[a].0 == TRAITS@[a]@ && p[b].0 == TRAITS@[b]@);
        let x = TRAITS@[a]@;
        let y = TRAITS@[b]@;
        assert(x.len() != y.len() || x[0] != y[0]);
    }
}

/// `name` is a strongest trait of `p` (or `curiosity` when `p` is empty).
pub open spec fn is_dominant(p: Seq<(Seq<char>, i32)>, name: Seq<char>) -> bool {
    if p.len() == 0 {
        name == default_trait()
    } else {
        exists|i: int|
            0 <= i < p.len() && p[i].0 == name && forall|j: int|
                0 <= j < p.len() ==> #[trigger] p[j].1 <= p[i].1
    }
}

/// The position of the last strongest trait of a non-empty table: a later
/// trait of equal strength takes the place of an earlier one.
pub open spec fn last_strongest(p: Seq<(Seq<char>, i32)>) -> int
    decreases p.len(),
{
    if p.len() <= 1 {
        0
    } else {
        let k = last_strongest(p.drop_last());
        if p.last().1 >= p[k].1 {
            p.len() - 1
        } else {
            k
        }
    }
}

/// The trait `dominant_trait` names: the last strongest trait, or
/// `curiosity` when there are none.
pub open spec fn dominant_name(p: Seq<(Seq<char>, i32)>) -> Seq<char> {
    if p.len() == 0 {
        default_trait()
    } else {
        p[last_strongest(p)].0
    }
}

/// The last strongest trait is a strongest trait, and no trait after it is
/// as strong.
pub proof fn lemma_last_strongest(p: Seq<(Seq<char>, i32)>)
    requires
        p.len() > 0,
    ensures
        0 <= last_strongest(p) < p.len(),
        forall|j: int| 0 <= j < p.len() ==> #[trigger] p[j].1 <= p[last_strongest(p)].1,
        forall|j: int| last_strongest(p) < j < p.len() ==> #[trigger] p[j].1 < p[last_strongest(p)].1,
        is_dominant(p, dominant_name(p)),
    decreases p.len(),
{
    if p.len() > 1 {
        let q = p.drop_last();
        lemma_last_strongest(q);
        let k = last_strongest(q);
        assert forall|j: int| 0 <= j < q.len() implies #[trigger] p[j].1 == q[j].1 by {}
        if p.last().1 >= p[k].1 {
            assert forall|j: int| 0 <= j < p.len() implies #[trigger] p[j].1 <= p[p.len() - 1].1 by {
                if j < q.len() {
                    assert(q[j].1 <= q[k].1);
                }
            }
        } else {
            assert forall|j: int| 0 <= j < p.len() implies #[trigger] p[j].1 <= p[k].1 by {
                if j < q.len() {
                    assert(q[j].1 <= q[k].1);
                }
            }
            assert forall|j: int| k < j < p.len() implies #[trigger] p[j].1 < p[k].1 by {
                if j < q.len() {
                    assert(q[j].1 < q[k].1);
                }
            }
        }
    }
    let i = last_strongest(p);
    assert(0 <= i < p.len() && p[i].0 == dominant_name(p));
}

/// The name `dominant_trait` falls back to.
pub open spec fn default_trait() -> Seq<char> {
    "curiosity"@
}

/// The text of a duration of `s` seconds in its largest whole unit.
pub open spec fn duration_text(s: nat) -> Seq<char> {
    if s < 60 {
        decimal(s).push('s')
    } else if s < 3600 {
        decimal(s / 60).push('m')
    } else if s < 86400 {
        decimal(s / 3600).push('h')
    } else {
        decimal(s / 86400).push('d')
    }
}

/// The instant an RFC 3339 text denotes, in nanoseconds since the Unix
/// epoch, as the `time` crate parses it; `None` when it does not parse.
pub uninterp spec fn rfc3339_instant(text: Seq<char>) -> Option<i128>;

/// Nanosecond timestamps the `time` crate can produce lie in this range.
pub open spec fn timestamp_in_range(n: int) -> bool {
    -0x8000_0000_0000_0000 * 1_000_000_000 <= n < 0x8000_0000_0000_0000 * 1_000_000_000
}

/// How long ago an instant was, as `format_since` words it, when the
/// current instant is `now` (nanoseconds) and `parsed` is what the stamp
/// `iso` parsed to.
pub open spec fn since_text(iso: &str, parsed: Option<i128>, now: i128) -> Seq<char> {
    match parsed {
        Some(p) => {
            let d = now - p;
            let a = if d < 0 {
                -d
            } else {
                d
            };
            duration_text((a / 1_000_000_000) as nat)
        },
        None => if iso.len() >= 19 {
            "a while"@
        } else {
            "unknown"@
        },
    }
}

/// `s` padded on the left with `0` to at least `w` characters.
pub open spec fn zero_padded(s: Seq<char>, w: nat) -> Seq<char> {
    if s.len() >= w {
        s
    } else {
        Seq::new((w - s.len()) as nat, |i: int| '0') + s
    }
}

/// `OffsetDateTime::parse(text, &Rfc3339)` followed by
/// `unix_timestamp_nanos`: the instant the stamp denotes, or `None` when
/// it is not RFC 3339. The nanosecond count is `unix_timestamp() * 10^9 +
/// nanosecond()` for an `i64` timestamp, hence its range.
#[verifier::external_body]
fn parse_rfc3339(text: &str) -> (r: Option<i128>)
    ensures
        r == rfc3339_instant(text@),
        r matches Some(n) ==> timestamp_in_range(n as int),
{
    match OffsetDateTime::parse(text, &Rfc3339) {
        Ok(t) => Some(t.unix_timestamp_nanos()),
        Err(_) => None,
    }
}

/// `OffsetDateTime::now_utc().unix_timestamp_nanos()`: the current instant.
/// Nothing is promised of the instant itself beyond the range every
/// `unix_timestamp_nanos` result lies in.
#[verifier::external_body]
pub(crate) fn now_unix_nanos() -> (r: i128)
    ensures
        timestamp_in_range(r as int),
{
    OffsetDateTime::now_utc().unix_timestamp_nanos()
}

/// An ASCII decimal digit.
pub open spec fn is_digit(c: char) -> bool {
    '0' <= c && c <= '9'
}

/// The shape of a UTC stamp as RFC 3339 writes it: `YYYY-MM-DDTHH:MM:SS`,
/// then either `Z` or `.`, at least one fraction digit and `Z`.
pub open spec fn utc_stamp(s: Seq<char>) -> bool {
    &&& s.len() >= 20
    &&& is_digit(s[0]) && is_digit(s[1]) && is_digit(s[2]) && is_digit(s[3])
    &&& s[4] == '-' && is_digit(s[5]) && is_digit(s[6])
    &&& s[7] == '-' && is_digit(s[8]) && is_digit(s[9])
    &&& s[10] == 'T' && is_digit(s[11]) && is_digit(s[12])
    &&& s[13] == ':' && is_digit(s[14]) && is_digit(s[15])
    &&& s[16] == ':' && is_digit(s[17]) && is_digit(s[18])
    &&& s[s.len() - 1] == 'Z'
    &&& s.len() > 20 ==> s.len() >= 22 && s[19] == '.' && forall|i: int|
        20 <= i < s.len() - 1 ==> is_digit(#[trigger] s[i])
}

/// `OffsetDateTime::now_utc().format(&Rfc3339)`: the current instant as an
/// RFC 3339 stamp, `None` when formatting fails (a year outside
/// `0..10000`). As the crate's formatter writes it, a stamp of a UTC
/// instant is four year digits, `-`, two month digits, `-`, two day
/// digits, `T`, two digits each for hours, minutes and seconds separated
/// by `:`, a `.` and the fraction digits when the nanoseconds are not
/// zero, and `Z`. Which instant it shows depends on the clock and is not
/// stated.
#[verifier::external_body]
fn now_rfc3339() -> (r: Option<String>)
    ensures
        r matches Some(s) ==> utc_stamp(s@),
{
    OffsetDateTime::now_utc().format(&Rfc3339).ok()
}

/// The current time as an RFC 3339 stamp, or the epoch when the clock
/// cannot be formatted.
pub fn now_iso() -> (r: String)
    ensures
        utc_stamp(r@),
{
    match now_rfc3339() {
        Some(s) => s,
        None => {
            let e = "1970-01-01T00:00:00Z".to_owned();
            proof {
                reveal_strlit("1970-01-01T00:00:00Z");
                assert(e@.len() == 20);
            }
            e
        },
    }
}

/// The duration `secs` in its largest whole unit: `42s`, `5m`, `3h`, `2d`.
pub fn format_duration(secs: u64) -> (r: String)
    ensures
        r@ == duration_text(secs as nat),
{
    let (n, unit) = if secs < 60 {
        (secs, 's')
    } else if secs < 3600 {
        (secs / 60, 'm')
    } else if secs < 86_400 {
        (secs / 3600, 'h')
    } else {
        (secs / 86_400, 'd')
    };
    let mut v = decimal_chars(n);
    v.push(unit);
    string_of(v.as_slice())
}

/// How long ago the stamp `iso` was, given what it parsed to and the
/// current instant `now` (both in nanoseconds since the epoch).
pub fn format_since_at(iso: &str, parsed: Option<i128>, now: i128) -> (r: String)
    requires
        parsed matches Some(p) ==> timestamp_in_range(p as int),
        timestamp_in_range(now as int),
    ensures
        r@ == since_text(iso, parsed, now),
{
    if let Some(p) = parsed {
        let d: i128 = now - p;
        let a: i128 = if d < 0 {
            -d
        } else {
            d
        };
        let secs: i128 = a / 1_000_000_000;
        assert(secs < 0x1_0000_0000_0000_0000);
        let text = format_duration(secs as u64);
        assert(text@ == since_text(iso, parsed, now));
        text
    } else if iso.len() >= 19 {
        "a while".to_owned()
    } else {
        "unknown".to_owned()
    }
}

/// How long ago the RFC 3339 stamp `iso` was, in its largest whole unit;
/// `a while` for a long stamp that does not parse, `unknown` otherwise.
pub fn format_since(iso: &str) -> (r: String)
    ensures
        exists|now: i128| r@ == since_text(iso, rfc3339_instant(iso@), now),
{
    let parsed = parse_rfc3339(iso);
    let now = now_unix_nanos();
    format_since_at(iso, parsed, now)
}

/// The id zero-padded to five digits.
fn padded_id(id: usize) -> (v: Vec<char>)
    ensures
        v@ == zero_padded(decimal(id as nat), 5),
{
    let digits = decimal_chars(id as u64);
    let mut v: Vec<char> = Vec::new();
    let mut k: usize = digits.len();
    while k < 5
        invariant
            digits.len() <= k <= 5 || (k == digits.len() && k >= 5),
            v@ == Seq::new((k - digits@.len()) as nat, |i: int| '0'),
        decreases 5 - k,
    {
        v.push('0');
        k = k + 1;
        assert(v@ =~= Seq::new((k - digits@.len()) as nat, |i: int| '0'));
    }
    let mut i: usize = 0;
    let ghost pad = v@;
    while i < digits.len()
        invariant
            i <= digits@.len(),
            v@ == pad + digits@.take(i as int),
        decreases digits.len() - i,
    {
        v.push(digits[i]);
        i = i + 1;
        assert(v@ =~= pad + digits@.take(i as int));
    }
    proof {
        assert(digits@.take(digits@.len() as int) =~= digits@);
        if digits@.len() >= 5 {
            assert(pad =~= Seq::<char>::empty());
        }
    }
    v
}

/// File name of swarm member `id`: the id zero-padded to five digits.
pub fn swarm_file_name(id: usize) -> (r: String)
    ensures
        r@ == zero_padded(decimal(id as nat), 5) + ".json"@,
{
    let mut s = string_of(padded_id(id).as_slice());
    s.append(".json");
    s
}

/// Name of a freshly spawned swarm member `id`: `node-` and the id
/// zero-padded to five digits.
pub fn node_name(id: usize) -> (r: String)
    ensures
        r@ == "node-"@ + zero_padded(decimal(id as nat), 5),
{
    let mut s = "node-".to_owned();
    let digits = string_of(padded_id(id).as_slice());
    s.append(digits.as_str());
    s
}

/// A random name: one prefix and one suffix from the name lists, chosen
/// by the given indices.
pub fn name_from(prefix: usize, suffix: usize) -> (r: String)
    requires
        prefix < 14,
        suffix < 14,
    ensures
        r@ == NAME_PREFIXES@[prefix as int]@ + NAME_SUFFIXES@[suffix as int]@,
{
    let a = NAME_PREFIXES[prefix].to_owned();
    let b = NAME_SUFFIXES[suffix];
    let mut s = a;
    s.append(b);
    s
}

/// A random name made of one prefix and one suffix.
pub fn random_name(rng: &mut ThreadRng) -> (r: String)
    ensures
        exists|i: int, j: int|
            0 <= i < 14 && 0 <= j < 14 && r@ == NAME_PREFIXES@[i]@ + NAME_SUFFIXES@[j]@,
{
    let i = random_index(rng, 14);
    let j = random_index(rng, 14);
    name_from(i, j)
}

/// A freshly rolled trait table: every trait of `TRAITS`, in order, with a
/// strength in `0..100`.
pub open spec fn fresh_traits(p: Seq<(Seq<char>, i32)>) -> bool {
    &&& p.len() == 10
    &&& forall|i: int| 0 <= i < 10 ==> (#[trigger] p[i]).0 == TRAITS@[i]@ && 0 <= p[i].1 < 100
}

/// Every trait of `TRAITS` with a random strength in `0..100`.
pub fn random_traits(rng: &mut ThreadRng) -> (r: Vec<(String, i32)>)
    ensures
        fresh_traits(traits_of(r@)),
{
    let mut out: Vec<(String, i32)> = Vec::new();
    let mut i: usize = 0;
    while i < 10
        invariant
            i <= 10,
            out@.len() == i,
            forall|j: int| 0 <= j < i ==> (#[trigger] out@[j]).0@ == TRAITS@[j]@ && 0 <= out@[j].1 < 100,
        decreases 10 - i,
    {
        let v = random_range(rng, 0, 100) as i32;
        out.push((TRAITS[i].to_owned(), v));
        i = i + 1;
    }
    out
}

/// What `sanitize` makes of `a`: every list loses its empty and repeated
/// entries (obsessions are normalized first), an empty trait table is
/// rolled afresh while a non-empty one is kept, energy, curiosity and
/// intelligence are clamped into `0..=100`, and nothing else changes.
pub open spec fn tidied(a: CreatureMemory, b: CreatureMemory) -> bool {
    &&& texts(b.experiences@) == deduped(texts(a.experiences@))
    &&& texts(b.quirks@) == deduped(texts(a.quirks@))
    &&& texts(b.favorite_things@) == deduped(texts(a.favorite_things@))
    &&& texts(b.fears@) == deduped(texts(a.fears@))
    &&& texts(b.goals@) == deduped(texts(a.goals@))
    &&& texts(b.plans@) == deduped(texts(a.plans@))
    &&& texts(b.thought_archive@) == deduped(texts(a.thought_archive@))
    &&& texts(b.obsessions@) == deduped(
        texts(a.obsessions@).map_values(|t: Seq<char>| normalized_topic(t)),
    )
    &&& a.personality@.len() > 0 ==> b.personality == a.personality
    &&& a.personality@.len() == 0 ==> fresh_traits(traits_of(b.personality@))
    &&& b.energy_level == clamped(a.energy_level as int, 0, 100)
    &&& b.curiosity == clamped(a.curiosity as int, 0, 100)
    &&& b.intelligence == clamped(a.intelligence as int, 0, 100)
    &&& b == (CreatureMemory {
        experiences: b.experiences,
        quirks: b.quirks,
        favorite_things: b.favorite_things,
        fears: b.fears,
        goals: b.goals,
        plans: b.plans,
        thought_archive: b.thought_archive,
        obsessions: b.obsessions,
        personality: b.personality,
        energy_level: b.energy_level,
        curiosity: b.curiosity,
        intelligence: b.intelligence,
        ..a
    })
}

/// Normalized topics are already normalized.
proof fn lemma_normalized_all_settled(s: Seq<Seq<char>>)
    ensures
        ({
            let d = deduped(s.map_values(|t: Seq<char>| normalized_topic(t)));
            d.map_values(|t: Seq<char>| normalized_topic(t)) == d
        }),
{
    let n = s.map_values(|t: Seq<char>| normalized_topic(t));
    let d = deduped(n);
    assert forall|i: int| 0 <= i < d.len() implies normalized_topic(#[trigger] d[i]) == d[i] by {
        lemma_deduped_members(n, d[i]);
        assert(d.contains(d[i]));
        let j = choose|j: int| 0 <= j < n.len() && n[j] == d[i];
        lemma_normalize_topic_idempotent(s[j]);
    }
    assert(d.map_values(|t: Seq<char>| normalized_topic(t)) =~= d);
}

/// Tidying a tidied memory changes nothing: its lists, its trait table and
/// its clamped stats stay as they are.
pub proof fn lemma_sanitize_settles(a: CreatureMemory, b: CreatureMemory, c: CreatureMemory)
    requires
        tidied(a, b),
        tidied(b, c),
    ensures
        texts(c.experiences@) == texts(b.experiences@),
        texts(c.quirks@) == texts(b.quirks@),
        texts(c.favorite_things@) == texts(b.favorite_things@),
        texts(c.fears@) == texts(b.fears@),
        texts(c.goals@) == texts(b.goals@),
        texts(c.plans@) == texts(b.plans@),
        texts(c.thought_archive@) == texts(b.thought_archive@),
        texts(c.obsessions@) == texts(b.obsessions@),
        c.personality == b.personality,
        c.energy_level == b.energy_level,
        c.curiosity == b.curiosity,
        c.intelligence == b.intelligence,
        c == (CreatureMemory {
            experiences: c.experiences,
            quirks: c.quirks,
            favorite_things: c.favorite_things,
            fears: c.fears,
            goals: c.goals,
            plans: c.plans,
            thought_archive: c.thought_archive,
            obsessions: c.obsessions,
            ..b
        }),
{
    lemma_dedupe_idempotent(texts(a.experiences@));
    lemma_dedupe_idempotent(texts(a.quirks@));
    lemma_dedupe_idempotent(texts(a.favorite_things@));
    lemma_dedupe_idempotent(texts(a.fears@));
    lemma_dedupe_idempotent(texts(a.goals@));
    lemma_dedupe_idempotent(texts(a.plans@));
    lemma_dedupe_idempotent(texts(a.thought_archive@));
    let n = texts(a.obsessions@).map_values(|t: Seq<char>| normalized_topic(t));
    lemma_normalized_all_settled(texts(a.obsessions@));
    lemma_dedupe_idempotent(n);
    if a.personality@.len() == 0 {
        assert(traits_of(b.personality@).len() == 10);
    }
}

impl CreatureMemory {
    /// A newborn creature with random traits and stats; it is called `name`
    /// when one is given, and gets a random name otherwise.
    pub fn new_random(rng: &mut ThreadRng, name: Option<String>) -> (m: Self)
        ensures
            name matches Some(n) ==> m.name@ == n@,
            name is None ==> exists|i: int, j: int|
                0 <= i < 14 && 0 <= j < 14 && m.name@ == NAME_PREFIXES@[i]@ + NAME_SUFFIXES@[j]@,
            m.age == 0,
            fresh_traits(traits_of(m.personality@)),
            m.experiences@.len() == 0,
            m.quirks@.len() == 0,
            m.favorite_things@.len() == 0,
            m.fears@.len() == 0,
            m.last_thought@.len() == 0,
            50 <= m.energy_level < 150,
            m.mood@ == "curious"@,
            m.creation_time@ == m.last_run_time@,
            m.run_count == 0,
            m.mutations == 0,
            m.memory_fragments@.len() == 0,
            m.learned_facts@.len() == 0,
            m.search_history@.len() == 0,
            m.goals@.len() == 0,
            m.plans@.len() == 0,
            m.obsessions@.len() == 0,
            50 <= m.intelligence < 100,
            50 <= m.curiosity < 150,
            m.thought_archive@.len() == 0,
            m.last_intent@.len() == 0,
            within_caps(m),
            free_of_repeats(m),
    {
        let personality = random_traits(rng);
        let now = now_iso();
        let name = match name {
            Some(n) => n,
            None => random_name(rng),
        };
        let energy_level = random_range(rng, 50, 150) as i32;
        let intelligence = random_range(rng, 50, 100) as i32;
        let curiosity = random_range(rng, 50, 150) as i32;
        proof {
            lemma_fresh_traits_distinct(traits_of(personality@));
            assert(fragments_of(Seq::<(String, String)>::empty()) =~= Seq::empty());
        }
        CreatureMemory {
            name,
            age: 0,
            personality,
            experiences: Vec::new(),
            quirks: Vec::new(),
            favorite_things: Vec::new(),
            fears: Vec::new(),
            last_thought: String::new(),
            energy_level,
            mood: "curious".to_owned(),
            creation_time: now.clone(),
            last_run_time: now,
            run_count: 0,
            mutations: 0,
            memory_fragments: Vec::new(),
            learned_facts: Vec::new(),
            search_history: Vec::new(),
            goals: Vec::new(),
            plans: Vec::new(),
            obsessions: Vec::new(),
            intelligence,
            curiosity,
            thought_archive: Vec::new(),
            last_intent: String::new(),
        }
    }

    /// Tidy a loaded memory: lists lose empty and repeated entries,
    /// obsessions are normalized, a missing trait table is rolled afresh and
    /// energy, curiosity and intelligence are clamped into `0..=100`.
    pub fn sanitize(&mut self)
        ensures
            tidied(*old(self), *final(self)),
            free_of_repeats(*old(self)) ==> free_of_repeats(*final(self)),
    {
        self.experiences = dedupe(take_list(&mut self.experiences));
        self.quirks = dedupe(take_list(&mut self.quirks));
        self.favorite_things = dedupe(take_list(&mut self.favorite_things));
        self.fears = dedupe(take_list(&mut self.fears));
        self.goals = dedupe(take_list(&mut self.goals));
        self.plans = dedupe(take_list(&mut self.plans));
        let normalized = normalize_all(&self.obsessions);
        self.obsessions = dedupe(normalized);
        self.thought_archive = dedupe(take_list(&mut self.thought_archive));
        if self.personality.len() == 0 {
            let mut rng = thread_rng();
            self.personality = random_traits(&mut rng);
        }
        self.energy_level = clamp(self.energy_level, 0, 100);
        self.curiosity = clamp(self.curiosity, 0, 100);
        self.intelligence = clamp(self.intelligence, 0, 100);
        proof {
            lemma_deduped_distinct(texts(old(self).experiences@));
            lemma_deduped_distinct(texts(old(self).quirks@));
            lemma_deduped_distinct(texts(old(self).favorite_things@));
            lemma_deduped_distinct(texts(old(self).fears@));
            lemma_deduped_distinct(texts(old(self).goals@));
            lemma_deduped_distinct(texts(old(self).plans@));
            lemma_deduped_distinct(texts(old(self).thought_archive@));
            lemma_deduped_distinct(
                texts(old(self).obsessions@).map_values(|t: Seq<char>| normalized_topic(t)),
            );
            if old(self).personality@.len() == 0 {
                lemma_fresh_traits_distinct(traits_of(self.personality@));
            }
        }
    }

    /// Strength of trait `name`; 50 when the creature lacks that trait.
    pub fn trait_val(&self, name: &str) -> (r: i32)
        ensures
            r == trait_value(traits_of(self.personality@), name@),
    {
        let mut i: usize = 0;
        let ghost p = traits_of(self.personality@);
        assert(p.skip(0) =~= p);
        while i < self.personality.len()
            invariant
                i <= self.personality@.len(),
                p == traits_of(self.personality@),
                lookup_trait(p, name@) == lookup_trait(p.skip(i as int), name@),
            decreases self.personality.len() - i,
        {
            let ghost q = p.skip(i as int);
            assert(q[0] == p[i as int]);
            if crate::lists::str_eq(self.personality[i].0.as_str(), name) {
                return self.personality[i].1;
            }
            assert(q.drop_first() =~= p.skip(i + 1));
            i = i + 1;
        }
        50
    }

    /// The trait with the greatest strength; `curiosity` when the creature
    /// has no traits.
    pub fn dominant_trait(&self) -> (r: &str)
        ensures
            r@ == dominant_name(traits_of(self.personality@)),
            is_dominant(traits_of(self.personality@), r@),
    {
        let ghost p = traits_of(self.personality@);
        if self.personality.len() == 0 {
            return "curiosity";
        }
        let mut best: usize = 0;
        let mut i: usize = 1;
        assert(p.take(1).len() == 1);
        while i < self.personality.len()
            invariant
                1 <= i <= self.personality@.len(),
                p == traits_of(self.personality@),
                best < i,
                best == last_strongest(p.take(i as int)),
            decreases self.personality.len() - i,
        {
            let ghost t = p.take(i + 1);
            assert(t.drop_last() =~= p.take(i as int));
            assert(t.last() == p[i as int]);
            assert(p.take(i as int)[best as int] == p[best as int]);
            assert(p[i as int].1 == self.personality@[i as int].1);
            assert(p[best as int].1 == self.personality@[best as int].1);
            if self.personality[i].1 >= self.personality[best].1 {
                best = i;
            }
            i = i + 1;
        }
        let r = self.personality[best].0.as_str();
        proof {
            assert(p.take(i as int) =~= p);
            assert(p[best as int].0 == r@);
            lemma_last_strongest(p);
        }
        r
    }

    /// Give trait `name` the strength `v`, adding the trait if it is missing.
    pub fn set_trait(&mut self, name: &str, v: i32)
        ensures
            traits_of(final(self).personality@) == with_trait(
                traits_of(old(self).personality@),
                name@,
                v,
            ),
            distinct_keys(traits_of(old(self).personality@)) ==> distinct_keys(
                traits_of(final(self).personality@),
            ),
            *final(self) == (CreatureMemory { personality: final(self).personality, ..*old(self) }),
    {
        let ghost p0 = traits_of(self.personality@);
        proof {
            if distinct_keys(p0) {
                lemma_with_trait_distinct(p0, name@, v);
            }
        }
        let mut i: usize = 0;
        while i < self.personality.len()
            invariant
                i <= self.personality@.len(),
                p0 == traits_of(self.personality@),
                forall|j: int| 0 <= j < i ==> p0[j].0 != name@,
                *self == *old(self),
                p0 == traits_of(old(self).personality@),
            decreases self.personality.len() - i,
        {
            if crate::lists::str_eq(self.personality[i].0.as_str(), name) {
                let ghost before = self.personality@;
                self.personality.set(i, (name.to_owned(), v));
                proof {
                    lemma_with_trait_at(p0, name@, v, i as int);
                    assert(traits_of(self.personality@) =~= p0.update(i as int, (name@, v)));
                }
                return ;
            }
            i = i + 1;
        }
        self.personality.push((name.to_owned(), v));
        proof {
            lemma_with_trait_absent(p0, name@, v);
            assert(traits_of(self.personality@) =~= p0.push((name@, v)));
        }
    }

    /// Store `text` under the fragment key `key`, replacing an existing
    /// fragment of that key.
    pub fn set_fragment(&mut self, key: String, text: String)
        ensures
            fragments_of(final(self).memory_fragments@) == with_fragment(
                fragments_of(old(self).memory_fragments@),
                key@,
                text@,
            ),
            distinct_keys(fragments_of(old(self).memory_fragments@)) ==> distinct_keys(
                fragments_of(final(self).memory_fragments@),
            ),
            *final(self) == (CreatureMemory {
                memory_fragments: final(self).memory_fragments,
                ..*old(self)
            }),
    {
        let ghost p0 = fragments_of(self.memory_fragments@);
        proof {
            if distinct_keys(p0) {
                lemma_with_fragment_distinct(p0, key@, text@);
            }
        }
        let mut i: usize = 0;
        while i < self.memory_fragments.len()
            invariant
                i <= self.memory_fragments@.len(),
                p0 == fragments_of(self.memory_fragments@),
                forall|j: int| 0 <= j < i ==> p0[j].0 != key@,
                *self == *old(self),
                p0 == fragments_of(old(self).memory_fragments@),
            decreases self.memory_fragments.len() - i,
        {
            if crate::lists::str_eq(self.memory_fragments[i].0.as_str(), key.as_str()) {
                self.memory_fragments.set(i, (key, text));
                proof {
                    lemma_with_fragment_at(p0, key@, text@, i as int);
                    assert(fragments_of(self.memory_fragments@) =~= p0.update(
                        i as int,
                        (key@, text@),
                    ));
                }
                return ;
            }
            i = i + 1;
        }
        self.memory_fragments.push((key, text));
        proof {
            lemma_with_fragment_absent(p0, key@, text@);
            assert(fragments_of(self.memory_fragments@) =~= p0.push((key@, text@)));
        }
    }

    /// Remember `thought` as the latest one, and archive it (at most 40
    /// kept) unless it is empty or already archived.
    pub fn remember_thought(&mut self, thought: String)
        ensures
            final(self).last_thought@ == thought@,
            texts(final(self).thought_archive@) == archived(texts(old(self).thought_archive@), thought@),
            within_caps(*old(self)) ==> within_caps(*final(self)),
            free_of_repeats(*old(self)) ==> free_of_repeats(*final(self)),
            *final(self) == (CreatureMemory {
                last_thought: final(self).last_thought,
                thought_archive: final(self).thought_archive,
                ..*old(self)
            }),
    {
        self.last_thought = thought.clone();
        if !thought.as_str().is_empty() && !contains_str(&self.thought_archive, thought.as_str()) {
            push_cap(&mut self.thought_archive, thought, 40);
        }

    }

    /// Learn a fact (at most 20 kept); empty facts are ignored.
    pub fn push_fact(&mut self, fact: String)
        ensures
            texts(final(self).learned_facts@) == if fact@.len() == 0 {
                texts(old(self).learned_facts@)
            } else {
                capped_push(texts(old(self).learned_facts@), fact@, 20)
            },
            within_caps(*old(self)) ==> within_caps(*final(self)),
            free_of_repeats(*old(self)) ==> free_of_repeats(*final(self)),
            *final(self) == (CreatureMemory {
                learned_facts: final(self).learned_facts,
                ..*old(self)
            }),
    {
        if fact.as_str().is_empty() {
            return ;
        }
        push_cap(&mut self.learned_facts, fact, 20);
    }

    /// Record a search query (at most 25 kept).
    pub fn push_search(&mut self, query: String)
        ensures
            texts(final(self).search_history@) == capped_push(
                texts(old(self).search_history@),
                query@,
                25,
            ),
            within_caps(*old(self)) ==> within_caps(*final(self)),
            free_of_repeats(*old(self)) ==> free_of_repeats(*final(self)),
            *final(self) == (CreatureMemory {
                search_history: final(self).search_history,
                ..*old(self)
            }),
    {
        push_cap(&mut self.search_history, query, 25);
    }
}

/// Move the contents out of `v`, leaving it empty.
fn take_list(v: &mut Vec<String>) -> (r: Vec<String>)
    ensures
        r@ == old(v)@,
        final(v)@.len() == 0,
{
    let mut e: Vec<String> = Vec::new();
    std::mem::swap(v, &mut e);
    e
}

/// Every topic of `v`, normalized.
fn normalize_all(v: &Vec<String>) -> (r: Vec<String>)
    ensures
        texts(r@) == texts(v@).map_values(|t: Seq<char>| normalized_topic(t)),
{
    let mut out: Vec<String> = Vec::new();
    let mut i: usize = 0;
    while i < v.len()
        invariant
            i <= v@.len(),
            texts(out@) == texts(v@).take(i as int).map_values(|t: Seq<char>| normalized_topic(t)),
        decreases v.len() - i,
    {
        let t = normalize_topic(v[i].as_str());
        let ghost before = texts(out@);
        out.push(t);
        proof {
            assert(texts(out@) =~= before.push(normalized_topic(v@[i as int]@)));
            assert(texts(v@).take(i + 1).map_values(|t: Seq<char>| normalized_topic(t)) =~= texts(
                v@,
            ).take(i as int).map_values(|t: Seq<char>| normalized_topic(t)).push(
                normalized_topic(v@[i as int]@),
            ));
        }
        i = i + 1;
    }
    assert(texts(v@).take(v@.len() as int) =~= texts(v@));
    out
}

proof fn lemma_with_trait_at(p: Seq<(Seq<char>, i32)>, name: Seq<char>, v: i32, i: int)
    requires
        0 <= i < p.len(),
        p[i].0 == name,
        forall|j: int| 0 <= j < i ==> p[j].0 != name,
    ensures
        with_trait(p, name, v) == p.update(i, (name, v)),
    decreases i,
{
    if i > 0 {
        lemma_with_trait_at(p.drop_first(), name, v, i - 1);
        assert(seq![p[0]] + p.drop_first().update(i - 1, (name, v)) =~= p.update(i, (name, v)));
    }
}

proof fn lemma_with_trait_absent(p: Seq<(Seq<char>, i32)>, name: Seq<char>, v: i32)
    requires
        forall|j: int| 0 <= j < p.len() ==> p[j].0 != name,
    ensures
        with_trait(p, name, v) == p.push((name, v)),
    decreases p.len(),
{
    if p.len() > 0 {
        lemma_with_trait_absent(p.drop_first(), name, v);
        assert(seq![p[0]] + p.drop_first().push((name, v)) =~= p.push((name, v)));
    } else {
        assert(seq![(name, v)] =~= p.push((name, v)));
    }
}

proof fn lemma_with_fragment_at(
    p: Seq<(Seq<char>, Seq<char>)>,
    key: Seq<char>,
    text: Seq<char>,
    i: int,
)
    requires
        0 <= i < p.len(),
        p[i].0 == key,
        forall|j: int| 0 <= j < i ==> p[j].0 != key,
    ensures
        with_fragment(p, key, text) == p.update(i, (key, text)),
    decreases i,
{
    if i > 0 {
        lemma_with_fragment_at(p.drop_first(), key, text, i - 1);
        assert(seq![p[0]] + p.drop_first().update(i - 1, (key, text)) =~= p.update(
            i,
            (key, text),
        ));
    }
}

proof fn lemma_with_fragment_absent(p: Seq<(Seq<char>, Seq<char>)>, key: Seq<char>, text: Seq<char>)
    requires
        forall|j: int| 0 <= j < p.len() ==> p[j].0 != key,
    ensures
        with_fragment(p, key, text) == p.push((key, text)),
    decreases p.len(),
{
    if p.len() > 0 {
        lemma_with_fragment_absent(p.drop_first(), key, text);
        assert(seq![p[0]] + p.drop_first().push((key, text)) =~= p.push((key, text)));
    } else {
        assert(seq![(key, text)] =~= p.push((key, text)));
    }
}

} // verus!
