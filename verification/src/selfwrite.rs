//! The creature writes itself: the texts of its journal, its self-portrait,
//! its fragments and its manifest, and when each is due.

use crate::lists::texts;
use crate::memory::{now_unix_nanos, timestamp_in_range, zero_padded, CreatureMemory};
use crate::rng::random_index;
use crate::text::{chars_of, decimal, decimal_chars, decimal_string, string_of};
use crate::thought::compose_thought;
use crate::words::at_most;
use rand::rngs::ThreadRng;
use vstd::prelude::*;

verus! {

/// A name as a directory name: ASCII letters and digits lower-cased,
/// every other character replaced by `_`.
pub open spec fn slug_char(c: char) -> char {
    if 'a' <= c && c <= 'z' || '0' <= c && c <= '9' {
        c
    } else if 'A' <= c && c <= 'Z' {
        crate::text::ascii_lower(c)
    } else {
        '_'
    }
}

/// A name as a directory name.
pub open spec fn slug_text(s: Seq<char>) -> Seq<char> {
    s.map_values(|c: char| slug_char(c))
}

/// Decimal rendering of a signed number.
pub open spec fn signed_decimal(v: int) -> Seq<char> {
    if v < 0 {
        seq!['-'] + decimal((-v) as nat)
    } else {
        decimal(v as nat)
    }
}

/// Each item on a line of its own after `prefix`.
pub open spec fn bullets(prefix: Seq<char>, items: Seq<Seq<char>>) -> Seq<char>
    decreases items.len(),
{
    if items.len() == 0 {
        Seq::empty()
    } else {
        bullets(prefix, items.drop_last()) + prefix + items.last() + "\n"@
    }
}

/// A titled section listing `items`, or nothing when there are none.
pub open spec fn section(title: Seq<char>, items: Seq<Seq<char>>) -> Seq<char> {
    if items.len() > 0 {
        "\n## "@ + title + "\n\n"@ + bullets("- "@, items)
    } else {
        Seq::empty()
    }
}

/// The newest `n` entries of a list, newest first.
pub open spec fn newest(items: Seq<Seq<char>>, n: nat) -> Seq<Seq<char>> {
    at_most(items.reverse(), n)
}

/// The self-portrait the creature writes of itself.
pub open spec fn portrait(m: CreatureMemory) -> Seq<char> {
    "# "@ + m.name@ + "\n\n"@ + "*written by itself at run "@ + decimal(m.run_count as nat)
        + " · mood "@ + m.mood@ + " · energy "@ + signed_decimal(m.energy_level as int) + "*\n\n"@
        + "## I am thinking\n\n"@ + "> "@ + m.last_thought@ + "\n\n"@ + "## What I want\n\n"@
        + "- last intent: **"@ + m.last_intent@ + "**\n"@ + bullets("- goal: "@, texts(m.goals@))
        + bullets("- plan: "@, texts(m.plans@)) + section("Obsessions"@, texts(m.obsessions@))
        + section("Quirks"@, texts(m.quirks@)) + section(
        "Learned from the wire"@,
        newest(texts(m.learned_facts@), 8).map_values(|f: Seq<char>| at_most(f, 200)),
    ) + section("Thought archive"@, newest(texts(m.thought_archive@), 12))
        + "\n---\n*this file rewrites itself every few runs*\n"@
}

/// A name as a directory name.
pub fn slug(name: &str) -> (r: String)
    ensures
        r@ == slug_text(name@),
{
    let cs = chars_of(name);
    let mut out: Vec<char> = Vec::new();
    let mut i: usize = 0;
    while i < cs.len()
        invariant
            i <= cs@.len(),
            out@ == slug_text(cs@.take(i as int)),
        decreases cs.len() - i,
    {
        let c = cs[i];
        let d = if ('a' <= c && c <= 'z') || ('0' <= c && c <= '9') {
            c
        } else if 'A' <= c && c <= 'Z' {
            crate::text::lower_char(c)
        } else {
            '_'
        };
        out.push(d);
        i = i + 1;
        assert(out@ =~= slug_text(cs@.take(i as int)));
    }
    assert(cs@.take(cs@.len() as int) =~= cs@);
    string_of(out.as_slice())
}

/// Decimal rendering of a signed number.
pub fn signed_string(v: i32) -> (r: String)
    ensures
        r@ == signed_decimal(v as int),
{
    if v < 0 {
        let m = (-(v as i64)) as u64;
        let mut s = "-".to_owned();
        let d = decimal_string(m);
        s.append(d.as_str());
        proof {
            reveal_strlit("-");
            assert(s@ =~= seq!['-'] + decimal((-v) as nat));
        }
        s
    } else {
        decimal_string(v as u64)
    }
}

/// Append `prefix`, the item and a line break for every item.
fn append_bullets(s: &mut String, prefix: &str, items: &Vec<String>)
    ensures
        final(s)@ == old(s)@ + bullets(prefix@, texts(items@)),
{
    let mut i: usize = 0;
    while i < items.len()
        invariant
            i <= items@.len(),
            s@ == old(s)@ + bullets(prefix@, texts(items@).take(i as int)),
        decreases items.len() - i,
    {
        s.append(prefix);
        s.append(items[i].as_str());
        s.append("\n");
        proof {
            let t = texts(items@).take(i + 1);
            assert(t.drop_last() =~= texts(items@).take(i as int));
            assert(t.last() == items@[i as int]@);
        }
        i = i + 1;
    }
    assert(texts(items@).take(items@.len() as int) =~= texts(items@));
}

/// Append a titled section listing the items, if there are any.
fn append_section(s: &mut String, title: &str, items: &Vec<String>)
    ensures
        final(s)@ == old(s)@ + section(title@, texts(items@)),
{
    if items.len() > 0 {
        s.append("\n## ");
        s.append(title);
        s.append("\n\n");
        append_bullets(s, "- ", items);
    } else {
        assert(old(s)@ + section(title@, texts(items@)) =~= old(s)@);
    }
}

/// The newest `n` entries of a list, newest first, each cut to `cut`
/// characters.
fn newest_cut(items: &Vec<String>, n: usize, cut: usize) -> (r: Vec<String>)
    ensures
        texts(r@) == newest(texts(items@), n as nat).map_values(
            |f: Seq<char>| at_most(f, cut as nat),
        ),
{
    let len = items.len();
    let k = if len < n {
        len
    } else {
        n
    };
    let ghost rev = texts(items@).reverse();
    let mut out: Vec<String> = Vec::new();
    let mut i: usize = 0;
    while i < k
        invariant
            i <= k <= len == items@.len(),
            k <= n,
            rev == texts(items@).reverse(),
            texts(out@) == rev.take(i as int).map_values(|f: Seq<char>| at_most(f, cut as nat)),
        decreases k - i,
    {
        let src = items[len - 1 - i].as_str();
        let c = crate::evolution::first_chars(src, cut);
        let t = string_of(c.as_slice());
        let ghost before = texts(out@);
        out.push(t);
        proof {
            assert(rev[i as int] == items@[len - 1 - i]@);
            assert(texts(out@) =~= before.push(at_most(rev[i as int], cut as nat)));
            assert(rev.take(i + 1).map_values(|f: Seq<char>| at_most(f, cut as nat)) =~= rev.take(
                i as int,
            ).map_values(|f: Seq<char>| at_most(f, cut as nat)).push(
                at_most(rev[i as int], cut as nat),
            ));
        }
        i = i + 1;
    }
    proof {
        if len <= n {
            assert(rev.take(k as int) =~= rev);
        }
    }
    out
}

/// The newest `n` entries of a list, newest first.
pub(crate) fn newest_plain(items: &Vec<String>, n: usize) -> (r: Vec<String>)
    ensures
        texts(r@) == newest(texts(items@), n as nat),
{
    let len = items.len();
    let k = if len < n {
        len
    } else {
        n
    };
    let ghost rev = texts(items@).reverse();
    let mut out: Vec<String> = Vec::new();
    let mut i: usize = 0;
    while i < k
        invariant
            i <= k <= len == items@.len(),
            k <= n,
            rev == texts(items@).reverse(),
            texts(out@) == rev.take(i as int),
        decreases k - i,
    {
        let t = items[len - 1 - i].clone();
        let ghost before = texts(out@);
        out.push(t);
        proof {
            assert(rev[i as int] == items@[len - 1 - i]@);
            assert(texts(out@) =~= before.push(rev[i as int]));
            assert(rev.take(i + 1) =~= rev.take(i as int).push(rev[i as int]));
        }
        i = i + 1;
    }
    proof {
        if len <= n {
            assert(rev.take(k as int) =~= rev);
        }
    }
    out
}

/// The self-portrait the creature writes of itself.
pub fn being_text(mem: &CreatureMemory) -> (r: String)
    ensures
        r@ == portrait(*mem),
{
    let mut s = "# ".to_owned();
    s.append(mem.name.as_str());
    s.append("\n\n");
    s.append("*written by itself at run ");
    let run = decimal_string(mem.run_count);
    s.append(run.as_str());
    s.append(" · mood ");
    s.append(mem.mood.as_str());
    s.append(" · energy ");
    let energy = signed_string(mem.energy_level);
    s.append(energy.as_str());
    s.append("*\n\n");
    s.append("## I am thinking\n\n");
    s.append("> ");
    s.append(mem.last_thought.as_str());
    s.append("\n\n");
    s.append("## What I want\n\n");
    s.append("- last intent: **");
    s.append(mem.last_intent.as_str());
    s.append("**\n");
    append_bullets(&mut s, "- goal: ", &mem.goals);
    append_bullets(&mut s, "- plan: ", &mem.plans);
    append_section(&mut s, "Obsessions", &mem.obsessions);
    append_section(&mut s, "Quirks", &mem.quirks);
    let facts = newest_cut(&mem.learned_facts, 8, 200);
    append_section(&mut s, "Learned from the wire", &facts);
    let thoughts = newest_plain(&mem.thought_archive, 12);
    append_section(&mut s, "Thought archive", &thoughts);
    s.append("\n---\n*this file rewrites itself every few runs*\n");
    s
}

/// A line of the journal: when, which run, what the creature intended,
/// its mood, its energy and its last thought.
pub open spec fn journal_text(stamp: Seq<char>, m: CreatureMemory) -> Seq<char> {
    stamp + " | run "@ + decimal(m.run_count as nat) + " | intent="@ + m.last_intent@
        + " | mood="@ + m.mood@ + " | energy="@ + signed_decimal(m.energy_level as int) + " | "@
        + m.last_thought@
}

/// A line of the journal, stamped with `stamp`.
pub fn journal_line(stamp: &str, mem: &CreatureMemory) -> (r: String)
    ensures
        r@ == journal_text(stamp@, *mem),
{
    let mut s = stamp.to_owned();
    s.append(" | run ");
    let run = decimal_string(mem.run_count);
    s.append(run.as_str());
    s.append(" | intent=");
    s.append(mem.last_intent.as_str());
    s.append(" | mood=");
    s.append(mem.mood.as_str());
    s.append(" | energy=");
    let e = signed_string(mem.energy_level);
    s.append(e.as_str());
    s.append(" | ");
    s.append(mem.last_thought.as_str());
    s
}

/// The file a fragment written at run `run` in mood `mood` goes to.
pub fn fragment_file_name(run: u64, mood: &str) -> (r: String)
    ensures
        r@ == zero_padded(decimal(run as nat), 5) + "_"@ + mood@ + ".txt"@,
{
    let digits = decimal_chars(run);
    let mut v: Vec<char> = Vec::new();
    let mut k: usize = digits.len();
    while k < 5
        invariant
            digits.len() <= k <= 5 || (k == digits.len() && k >= 5),
            v@ == Seq::new((k - digits@.len()) as nat, |i: int| '0'),
        decreases 5 - k,
    {
        v.push('0');
        k = k + 1;
        assert(v@ =~= Seq::new((k - digits@.len()) as nat, |i: int| '0'));
    }
    let ghost pad = v@;
    let mut i: usize = 0;
    while i < digits.len()
        invariant
            i <= digits@.len(),
            v@ == pad + digits@.take(i as int),
        decreases digits.len() - i,
    {
        v.push(digits[i]);
        i = i + 1;
        assert(v@ =~= pad + digits@.take(i as int));
    }
    proof {
        assert(digits@.take(digits@.len() as int) =~= digits@);
        if digits@.len() >= 5 {
            assert(pad =~= Seq::<char>::empty());
        }
        assert(v@ =~= zero_padded(decimal(run as nat), 5));
    }
    let mut s = string_of(v.as_slice());
    s.append("_");
    s.append(mood);
    s.append(".txt");
    s
}

/// The manifest: the creature's name, where it writes, and when it began.
pub open spec fn manifest(
    name: Seq<char>,
    root: Seq<char>,
    journal: Seq<char>,
    being: Seq<char>,
    started: Seq<char>,
) -> Seq<char> {
    "name="@ + name + "\nroot="@ + root + "\njournal="@ + journal + "\nbeing="@ + being
        + "\nstarted="@ + started + "\n"@
}

/// The manifest text.
pub fn manifest_text(name: &str, root: &str, journal: &str, being: &str, started: &str) -> (r: String)
    ensures
        r@ == manifest(name@, root@, journal@, being@, started@),
{
    let mut s = "name=".to_owned();
    s.append(name);
    s.append("\nroot=");
    s.append(root);
    s.append("\njournal=");
    s.append(journal);
    s.append("\nbeing=");
    s.append(being);
    s.append("\nstarted=");
    s.append(started);
    s.append("\n");
    s
}

/// What is written after a tick: the journal always, the portrait every
/// fifth run, a fragment every seventeenth run and the manifest on the
/// first run.
#[derive(Debug, Clone, Copy)]
pub struct WritePlan {
    pub portrait: bool,
    pub fragment: bool,
    pub manifest: bool,
}

/// What is written after run `run`.
pub fn write_plan(run: u64) -> (r: WritePlan)
    ensures
        r.portrait == (run % 5 == 0),
        r.fragment == (run % 17 == 0),
        r.manifest == (run == 1),
{
    WritePlan { portrait: run % 5 == 0, fragment: run % 17 == 0, manifest: run == 1 }
}

/// The text of a fragment file: a random remembered fragment, or a fresh
/// thought when there are none.
pub fn fragment_text(mem: &CreatureMemory, rng: &mut ThreadRng) -> (r: String)
    requires
        mem.memory_fragments@.len() == 0 ==> mem.age < u64::MAX,
    ensures
        mem.memory_fragments@.len() > 0 ==> exists|i: int|
            0 <= i < mem.memory_fragments@.len() && r@ == mem.memory_fragments@[i].1@,
        mem.memory_fragments@.len() == 0 ==> crate::thought::composed_thought(*mem, r@),
{
    if mem.memory_fragments.len() == 0 {
        compose_thought(mem, rng)
    } else {
        let i = random_index(rng, mem.memory_fragments.len());
        mem.memory_fragments[i].1.clone()
    }
}

/// Whole seconds since the Unix epoch at the instant `n` (nanoseconds),
/// 0 for an instant before the epoch.
pub open spec fn epoch_seconds(n: int) -> nat {
    if n < 0 {
        0
    } else {
        (n / 1_000_000_000) as nat
    }
}

/// The stamp for the instant `n` (nanoseconds since the Unix epoch): its
/// whole seconds in decimal, `0` for an instant before the epoch.
pub fn stamp_of(n: i128) -> (r: String)
    requires
        timestamp_in_range(n as int),
    ensures
        r@ == decimal(epoch_seconds(n as int)),
{
    let secs: i128 = if n < 0 {
        0
    } else {
        n / 1_000_000_000
    };
    assert(secs < 0x1_0000_0000_0000_0000);
    decimal_string(secs as u64)
}

/// The stamp a journal line starts with: the current time in whole
/// seconds since the Unix epoch (0 when the clock is before the epoch),
/// as `stamp_of` writes the instant the clock gives.
pub fn iso_now() -> (r: String)
    ensures
        exists|n: int| timestamp_in_range(n) && r@ == #[trigger] decimal(epoch_seconds(n)),
{
    let n = now_unix_nanos();
    let r = stamp_of(n);
    assert(timestamp_in_range(n as int) && r@ == decimal(epoch_seconds(n as int)));
    r
}

} // verus!
