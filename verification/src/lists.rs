//! The bounded, duplicate-free string lists the creature keeps, and the
//! small value helpers around them.

use crate::text::{
    chars_of, has_prefix, is_ws, lower, lower_has_prefix, string_of, trim, trim_chars, trim_end,
    trim_start,
};
use vstd::prelude::*;

verus! {

/// The texts held by a list of strings.
pub open spec fn texts(v: Seq<String>) -> Seq<Seq<char>> {
    v.map_values(|s: String| s@)
}

/// A list holds as many texts as strings.
pub broadcast proof fn lemma_texts_len(v: Seq<String>)
    ensures
        (#[trigger] texts(v)).len() == v.len(),
{
}

/// `v` clamped into `lo..=hi`.
pub open spec fn clamped(v: int, lo: int, hi: int) -> int {
    if v < lo {
        lo
    } else if v > hi {
        hi
    } else {
        v
    }
}

/// What `push_cap` leaves: unchanged when `x` is already there; otherwise
/// `x` appended and the oldest entries dropped so at most `max` remain.
pub open spec fn capped_push(s: Seq<Seq<char>>, x: Seq<char>, max: nat) -> Seq<Seq<char>> {
    if s.contains(x) {
        s
    } else {
        let t = s.push(x);
        if t.len() > max {
            t.skip(t.len() - max)
        } else {
            t
        }
    }
}

/// The first occurrence of every non-empty text of `s`, in order.
pub open spec fn deduped(s: Seq<Seq<char>>) -> Seq<Seq<char>>
    decreases s.len(),
{
    if s.len() == 0 {
        Seq::empty()
    } else {
        let p = deduped(s.drop_last());
        let x = s.last();
        if x.len() == 0 || p.contains(x) {
            p
        } else {
            p.push(x)
        }
    }
}

/// The prefix stripped (case-insensitively) from topics.
pub open spec fn dive_prefix() -> Seq<char> {
    seq!['d', 'e', 'e', 'p', ' ', 'd', 'i', 'v', 'e', ' ', 'i', 'n', 't', 'o', ' ']
}

/// Repeatedly strip a leading `deep dive into ` (any ASCII case) and trim.
pub open spec fn strip_dives(t: Seq<char>) -> Seq<char>
    decreases t.len(),
{
    if has_prefix(lower(t), dive_prefix()) && t.len() >= 15 {
        proof {
            lemma_trim_shorter(t.skip(15));
        }
        strip_dives(trim(t.skip(15)))
    } else {
        t
    }
}

/// The topic as the creature stores it: trimmed and without leading
/// `deep dive into ` phrases.
pub open spec fn normalized_topic(t: Seq<char>) -> Seq<char> {
    strip_dives(trim(t))
}

/// `i32::clamp`: `v` kept within `lo..=hi` (`lo` must not exceed `hi`).
pub fn clamp(v: i32, lo: i32, hi: i32) -> (r: i32)
    requires
        lo <= hi,
    ensures
        r == clamped(v as int, lo as int, hi as int),
{
    if v < lo {
        lo
    } else if v > hi {
        hi
    } else {
        v
    }
}

/// Whether `v` holds a string equal to `x`.
pub fn contains_str(v: &Vec<String>, x: &str) -> (r: bool)
    ensures
        r == texts(v@).contains(x@),
{
    let mut i: usize = 0;
    while i < v.len()
        invariant
            i <= v@.len(),
            forall|j: int| 0 <= j < i ==> v@[j]@ != x@,
        decreases v.len() - i,
    {
        if str_eq(v[i].as_str(), x) {
            assert(texts(v@)[i as int] == x@);
            return true;
        }
        i = i + 1;
    }
    assert forall|j: int| 0 <= j < texts(v@).len() implies texts(v@)[j] != x@ by {
        assert(texts(v@)[j] == v@[j]@);
    }
    false
}

/// Text equality.
pub fn str_eq(a: &str, b: &str) -> (r: bool)
    ensures
        r == (a@ == b@),
{
    let x = chars_of(a);
    let y = chars_of(b);
    if x.len() != y.len() {
        return false;
    }
    let mut i: usize = 0;
    while i < x.len()
        invariant
            x@.len() == y@.len(),
            x@ == a@,
            y@ == b@,
            i <= x@.len(),
            forall|j: int| 0 <= j < i ==> x@[j] == y@[j],
        decreases x.len() - i,
    {
        if x[i] != y[i] {
            assert(a@[i as int] != b@[i as int]);
            return false;
        }
        i = i + 1;
    }
    assert(x@ =~= y@);
    true
}

/// Append `item` unless it is already there, then drop the oldest entries
/// so that at most `max` remain.
pub fn push_cap(v: &mut Vec<String>, item: String, max: usize)
    ensures
        texts(final(v)@) == capped_push(texts(old(v)@), item@, max as nat),
{
    if contains_str(v, item.as_str()) {
        return;
    }
    let ghost t = texts(old(v)@).push(item@);
    v.push(item);
    assert(texts(v@) =~= t);
    if v.len() > max {
        let drop = v.len() - max;
        let mut out: Vec<String> = Vec::new();
        let mut i: usize = drop;
        while i < v.len()
            invariant
                drop <= i <= v@.len(),
                texts(out@) == texts(v@).subrange(drop as int, i as int),
            decreases v.len() - i,
        {
            let ghost before = texts(out@);
            let c = v[i].clone();
            out.push(c);
            proof {
                assert(texts(out@) =~= before.push(v@[i as int]@));
                assert(texts(v@).subrange(drop as int, i + 1) =~= texts(v@).subrange(
                    drop as int,
                    i as int,
                ).push(texts(v@)[i as int]));
            }
            i = i + 1;
        }
        assert(texts(v@).subrange(drop as int, v@.len() as int) =~= t.skip(t.len() - max));
        *v = out;
    }
}

/// Remove empty strings and repeated strings, keeping first occurrences.
pub fn dedupe(v: Vec<String>) -> (r: Vec<String>)
    ensures
        texts(r@) == deduped(texts(v@)),
{
    let mut out: Vec<String> = Vec::new();
    let mut i: usize = 0;
    while i < v.len()
        invariant
            i <= v@.len(),
            texts(out@) == deduped(texts(v@).take(i as int)),
        decreases v.len() - i,
    {
        let s = &v[i];
        let keep = !s.as_str().is_empty() && !contains_str(&out, s.as_str());
        proof {
            let pre = texts(v@).take(i as int + 1);
            assert(pre.drop_last() =~= texts(v@).take(i as int));
            assert(pre.last() == v@[i as int]@);
        }
        if keep {
            out.push(s.clone());
        }
        assert(texts(out@) =~= deduped(texts(v@).take(i as int + 1)));
        i = i + 1;
    }
    assert(texts(v@).take(v@.len() as int) =~= texts(v@));
    out
}

proof fn lemma_strip_dives_shrinks(t: Seq<char>)
    ensures
        strip_dives(t).len() <= t.len(),
    decreases t.len(),
{
    if has_prefix(lower(t), dive_prefix()) && t.len() >= 15 {
        lemma_trim_shorter(t.skip(15));
        lemma_strip_dives_shrinks(trim(t.skip(15)));
    }
}

/// Trimming never makes a text longer.
pub proof fn lemma_trim_shorter(s: Seq<char>)
    ensures
        trim(s).len() <= s.len(),
{
    lemma_trim_start_shorter(s);
    lemma_trim_end_shorter(trim_start(s));
}

proof fn lemma_trim_start_shorter(s: Seq<char>)
    ensures
        trim_start(s).len() <= s.len(),
    decreases s.len(),
{
    if s.len() > 0 && is_ws(s[0]) {
        lemma_trim_start_shorter(s.drop_first());
    }
}

proof fn lemma_trim_end_shorter(s: Seq<char>)
    ensures
        trim_end(s).len() <= s.len(),
    decreases s.len(),
{
    if s.len() > 0 && is_ws(s.last()) {
        lemma_trim_end_shorter(s.drop_last());
    }
}

/// Trim a topic and strip any leading `deep dive into ` phrases.
pub fn normalize_topic(topic: &str) -> (r: String)
    ensures
        r@ == normalized_topic(topic@),
{
    let raw = chars_of(topic);
    let mut t = trim_chars(&raw);
    let prefix = dive_prefix_chars();
    while lower_has_prefix(&t, &prefix)
        invariant
            prefix@ == dive_prefix(),
            strip_dives(t@) == normalized_topic(topic@),
        decreases t@.len(),
    {
        let mut rest: Vec<char> = Vec::new();
        let mut i: usize = 15;
        while i < t.len()
            invariant
                15 <= i <= t@.len(),
                rest@ == t@.subrange(15, i as int),
            decreases t.len() - i,
        {
            rest.push(t[i]);
            i = i + 1;
            assert(rest@ =~= t@.subrange(15, i as int));
        }
        assert(rest@ =~= t@.skip(15));
        let next = trim_chars(&rest);
        proof {
            lemma_trim_shorter(t@.skip(15));
        }
        t = next;
    }
    string_of(t.as_slice())
}

fn dive_prefix_chars() -> (v: Vec<char>)
    ensures
        v@ == dive_prefix(),
{
    let v: Vec<char> = vec!['d', 'e', 'e', 'p', ' ', 'd', 'i', 'v', 'e', ' ', 'i', 'n', 't', 'o', ' '];
    assert(v@ =~= dive_prefix());
    v
}


/// Every text `dedupe` keeps is non-empty and appears once.
pub proof fn lemma_deduped_distinct(s: Seq<Seq<char>>)
    ensures
        deduped(s).no_duplicates(),
        forall|i: int| 0 <= i < deduped(s).len() ==> #[trigger] deduped(s)[i].len() > 0,
    decreases s.len(),
{
    if s.len() > 0 {
        lemma_deduped_distinct(s.drop_last());
    }
}

/// `dedupe` keeps exactly the non-empty texts of its input.
pub proof fn lemma_deduped_members(s: Seq<Seq<char>>, x: Seq<char>)
    ensures
        deduped(s).contains(x) <==> (s.contains(x) && x.len() > 0),
    decreases s.len(),
{
    if s.len() > 0 {
        let p = s.drop_last();
        let last = s.last();
        lemma_deduped_members(p, x);
        lemma_deduped_members(p, last);
        assert(s =~= p.push(last));
        lemma_push_contains(p, last, x);
        let dp = deduped(p);
        if last.len() == 0 || dp.contains(last) {
            assert(deduped(s) == dp);
        } else {
            assert(deduped(s) == dp.push(last));
            lemma_push_contains(dp, last, x);
        }
    } else {
        assert(!deduped(s).contains(x));
    }
}

proof fn lemma_push_contains(p: Seq<Seq<char>>, y: Seq<char>, x: Seq<char>)
    ensures
        p.push(y).contains(x) <==> (p.contains(x) || x == y),
{
    let s = p.push(y);
    if s.contains(x) && x != y {
        let k = choose|k: int| 0 <= k < s.len() && s[k] == x;
        assert(p[k] == x);
    }
    if p.contains(x) {
        let k = choose|k: int| 0 <= k < p.len() && p[k] == x;
        assert(s[k] == x);
    }
    if x == y {
        assert(s[s.len() - 1] == x);
    }
}

/// A list of distinct non-empty texts is left as it is by `dedupe`.
pub proof fn lemma_deduped_fixed(s: Seq<Seq<char>>)
    requires
        s.no_duplicates(),
        forall|i: int| 0 <= i < s.len() ==> #[trigger] s[i].len() > 0,
    ensures
        deduped(s) == s,
    decreases s.len(),
{
    if s.len() > 0 {
        let p = s.drop_last();
        assert(p.no_duplicates());
        lemma_deduped_fixed(p);
        assert(!p.contains(s.last())) by {
            if p.contains(s.last()) {
                let k = choose|k: int| 0 <= k < p.len() && p[k] == s.last();
                assert(s[k] == s[s.len() - 1]);
            }
        }
        assert(s.last().len() > 0);
        assert(p.push(s.last()) =~= s);
    } else {
        assert(s =~= Seq::<Seq<char>>::empty());
    }
}

/// Deduplicating twice changes nothing more than deduplicating once.
pub proof fn lemma_dedupe_idempotent(s: Seq<Seq<char>>)
    ensures
        deduped(deduped(s)) == deduped(s),
{
    lemma_deduped_distinct(s);
    lemma_deduped_fixed(deduped(s));
}

/// `push_cap` keeps a list within its cap, keeps it free of repeats, makes
/// the pushed text present (for a positive cap) and pushing the same text
/// again changes nothing.
pub proof fn lemma_capped_push(s: Seq<Seq<char>>, x: Seq<char>, max: nat)
    ensures
        s.len() <= max ==> capped_push(s, x, max).len() <= max,
        max > 0 ==> capped_push(s, x, max).contains(x),
        s.no_duplicates() ==> capped_push(s, x, max).no_duplicates(),
        max > 0 ==> capped_push(capped_push(s, x, max), x, max) == capped_push(s, x, max),
        forall|y: Seq<char>| #[trigger] capped_push(s, x, max).contains(y) ==> s.contains(y) || y == x,
{
    let r = capped_push(s, x, max);
    if !s.contains(x) {
        let t = s.push(x);
        if max > 0 {
            assert(r[r.len() - 1] == x);
        }
        assert forall|y: Seq<char>| #[trigger] r.contains(y) implies s.contains(y) || y == x by {
            let k = choose|k: int| 0 <= k < r.len() && r[k] == y;
            let kk = if t.len() > max { k + (t.len() - max) } else { k };
            assert(t[kk] == y);
            if kk < s.len() {
                assert(s[kk] == y);
            }
        }
        if s.no_duplicates() {
            assert(t.no_duplicates()) by {
                assert forall|i: int, j: int| 0 <= i < t.len() && 0 <= j < t.len() && i != j
                    implies t[i] != t[j] by {
                    if i == s.len() as int {
                        assert(!s.contains(x));
                        assert(s[j] == t[j]);
                    } else if j == s.len() as int {
                        assert(s[i] == t[i]);
                    }
                }
            }
        }
        if max > 0 {
            assert(r.contains(x)) by {
                assert(r[r.len() - 1] == x);
            }
        }
    }
}

/// A list `push_cap` keeps within its cap stays within it.
pub broadcast proof fn lemma_capped_push_within(s: Seq<Seq<char>>, x: Seq<char>, max: nat)
    ensures
        s.len() <= max ==> (#[trigger] capped_push(s, x, max)).len() <= max,
{
    lemma_capped_push(s, x, max);
}

/// `push_cap` keeps a list free of repeats.
pub broadcast proof fn lemma_capped_push_distinct(s: Seq<Seq<char>>, x: Seq<char>, max: nat)
    ensures
        s.no_duplicates() ==> (#[trigger] capped_push(s, x, max)).no_duplicates(),
{
    lemma_capped_push(s, x, max);
}

/// Trimming twice is trimming once.
pub proof fn lemma_trim_idempotent(s: Seq<char>)
    ensures
        trim(trim(s)) == trim(s),
{
    let a = trim_start(s);
    lemma_trim_start_first(s);
    lemma_trim_end_keeps_first(a);
    lemma_trim_start_fixed(trim_end(a));
    lemma_trim_end_last(a);
    lemma_trim_end_fixed(trim_end(a));
}

proof fn lemma_trim_start_first(s: Seq<char>)
    ensures
        trim_start(s).len() > 0 ==> !is_ws(trim_start(s)[0]),
    decreases s.len(),
{
    if s.len() > 0 && is_ws(s[0]) {
        lemma_trim_start_first(s.drop_first());
    }
}

proof fn lemma_trim_end_last(s: Seq<char>)
    ensures
        trim_end(s).len() > 0 ==> !is_ws(trim_end(s).last()),
    decreases s.len(),
{
    if s.len() > 0 && is_ws(s.last()) {
        lemma_trim_end_last(s.drop_last());
    }
}

proof fn lemma_trim_end_keeps_first(s: Seq<char>)
    ensures
        trim_end(s).len() > 0 ==> trim_end(s)[0] == s[0],
        trim_end(s).len() <= s.len(),
    decreases s.len(),
{
    if s.len() > 0 && is_ws(s.last()) {
        lemma_trim_end_keeps_first(s.drop_last());
    }
}

proof fn lemma_trim_start_fixed(s: Seq<char>)
    requires
        s.len() > 0 ==> !is_ws(s[0]),
    ensures
        trim_start(s) == s,
{
}

proof fn lemma_trim_end_fixed(s: Seq<char>)
    requires
        s.len() > 0 ==> !is_ws(s.last()),
    ensures
        trim_end(s) == s,
{
}

proof fn lemma_strip_dives_settled(t: Seq<char>)
    requires
        trim(t) == t,
    ensures
        trim(strip_dives(t)) == strip_dives(t),
        !(has_prefix(lower(strip_dives(t)), dive_prefix()) && strip_dives(t).len() >= 15),
    decreases t.len(),
{
    if has_prefix(lower(t), dive_prefix()) && t.len() >= 15 {
        lemma_trim_shorter(t.skip(15));
        lemma_trim_idempotent(t.skip(15));
        lemma_strip_dives_settled(trim(t.skip(15)));
    }
}

/// Normalizing a topic twice gives the same topic as normalizing it once.
pub proof fn lemma_normalize_topic_idempotent(t: Seq<char>)
    ensures
        normalized_topic(normalized_topic(t)) == normalized_topic(t),
{
    lemma_trim_idempotent(t);
    lemma_strip_dives_settled(trim(t));
    let r = normalized_topic(t);
    assert(trim(r) == r);
}

proof fn lemma_trim_start_skip(s: Seq<char>) -> (j: int)
    ensures
        0 <= j <= s.len(),
        trim_start(s) == s.skip(j),
    decreases s.len(),
{
    if s.len() > 0 && is_ws(s[0]) {
        let j = lemma_trim_start_skip(s.drop_first());
        assert(s.drop_first().skip(j) =~= s.skip(j + 1));
        j + 1
    } else {
        assert(s.skip(0) =~= s);
        0
    }
}

proof fn lemma_strip_dives_skip(t: Seq<char>) -> (k: int)
    requires
        trim(t) == t,
    ensures
        0 <= k <= t.len(),
        strip_dives(t) == t.skip(k),
    decreases t.len(),
{
    if has_prefix(lower(t), dive_prefix()) && t.len() >= 15 {
        let u = t.skip(15);
        let j = lemma_trim_start_skip(u);
        let v = u.skip(j);
        assert(v =~= t.skip(15 + j));
        lemma_trim_end_last(trim_start(t));
        if v.len() > 0 {
            assert(v.last() == t.last());
        }
        assert(trim_end(v) == v);
        assert(trim(u) == v);
        lemma_trim_shorter(u);
        lemma_trim_idempotent(u);
        let k = lemma_strip_dives_skip(v);
        assert(v.skip(k) =~= t.skip(15 + j + k));
        15 + j + k
    } else {
        assert(t.skip(0) =~= t);
        0
    }
}

/// A normalized topic is trimmed, starts with no `deep dive into ` (in any
/// ASCII case), is what is left at the end of the trimmed topic once the
/// phrases are cut off, equals the trimmed topic when that has no such
/// phrase, and normalizing it again changes nothing.
pub proof fn lemma_normalize_topic(t: Seq<char>)
    ensures
        trim(normalized_topic(t)) == normalized_topic(t),
        !has_prefix(lower(normalized_topic(t)), dive_prefix()),
        normalized_topic(t).is_suffix_of(trim(t)),
        !has_prefix(lower(trim(t)), dive_prefix()) ==> normalized_topic(t) == trim(t),
        normalized_topic(normalized_topic(t)) == normalized_topic(t),
{
    let s = trim(t);
    let r = normalized_topic(t);
    lemma_trim_idempotent(t);
    lemma_strip_dives_settled(s);
    assert(lower(r).len() == r.len());
    let k = lemma_strip_dives_skip(s);
    assert(r =~= s.subrange(s.len() - r.len(), s.len() as int));
    lemma_normalize_topic_idempotent(t);
}

/// A clamped value lies within its bounds, and a value already within them is kept.
pub proof fn lemma_clamped(v: int, lo: int, hi: int)
    requires
        lo <= hi,
    ensures
        lo <= clamped(v, lo, hi) <= hi,
        lo <= v <= hi ==> clamped(v, lo, hi) == v,
        clamped(clamped(v, lo, hi), lo, hi) == clamped(v, lo, hi),
{
}

} // verus!
