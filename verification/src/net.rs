//! What the creature makes of an instant-answer search reply: the summary
//! it learns, the topics it finds, and how relevant a text is to a query.

use crate::rng::random_index;
use crate::text::{chars_of, has_infix, lower, occurs_at, str_contains};
use crate::wired::{strs, EMPTY_NET};
use crate::words::{lowered, string_texts, tokenize, tokens_of};
use rand::rngs::ThreadRng;
use serde_json::Value;
use vstd::prelude::*;
use vstd::utf8::encode_utf8;

verus! {

/// One related topic of a reply: its own text, if it has one, and the
/// texts of its sub-topics.
#[derive(Debug, Clone)]
pub struct DdgTopic {
    pub text: Option<String>,
    pub topics: Vec<Option<String>>,
}

/// The parts of an instant-answer reply the creature reads: the abstract,
/// the definition and the related topics (each `None` when absent or not
/// a text).
#[derive(Debug, Clone)]
pub struct DdgReply {
    pub abstract_text: Option<String>,
    pub definition: Option<String>,
    pub related: Vec<DdgTopic>,
}

/// The text of an optional string, empty when absent.
pub open spec fn opt_text(o: Option<String>) -> Seq<char> {
    match o {
        Some(s) => s@,
        None => Seq::empty(),
    }
}

/// The text of the first related topic that has one.
pub open spec fn first_topic_text(ts: Seq<DdgTopic>) -> Option<Seq<char>>
    decreases ts.len(),
{
    if ts.len() == 0 {
        None
    } else if ts[0].text is Some {
        Some(opt_text(ts[0].text))
    } else {
        first_topic_text(ts.drop_first())
    }
}

/// The summary of a reply: the abstract and the definition joined by
/// ` | ` (whichever are non-empty), or else the text of the first related
/// topic that has one.
pub open spec fn reply_summary(r: DdgReply) -> Seq<char> {
    let a = opt_text(r.abstract_text);
    let d = opt_text(r.definition);
    let head = if d.len() > 0 {
        if a.len() > 0 {
            a + " | "@ + d
        } else {
            d
        }
    } else {
        a
    };
    if head.len() > 0 {
        head
    } else {
        match first_topic_text(r.related@) {
            Some(t) => t,
            None => Seq::empty(),
        }
    }
}

/// The non-empty texts of a list of optional strings, in order.
pub open spec fn present_texts(s: Seq<Option<String>>) -> Seq<Seq<char>>
    decreases s.len(),
{
    if s.len() == 0 {
        Seq::empty()
    } else {
        let r = present_texts(s.drop_last());
        let t = opt_text(s.last());
        if t.len() > 0 {
            r.push(t)
        } else {
            r
        }
    }
}

/// Every non-empty topic text of a reply: each related topic's own text,
/// then those of its sub-topics.
pub open spec fn all_topic_texts(ts: Seq<DdgTopic>) -> Seq<Seq<char>>
    decreases ts.len(),
{
    if ts.len() == 0 {
        Seq::empty()
    } else {
        all_topic_texts(ts.drop_last()) + present_texts(seq![ts.last().text]) + present_texts(
            ts.last().topics@,
        )
    }
}

fn text_or_empty(o: &Option<String>) -> (r: String)
    ensures
        r@ == opt_text(*o),
{
    match o {
        Some(s) => s.clone(),
        None => String::new(),
    }
}

/// The summary a reply offers, or `None` when it offers nothing.
pub fn extract_ddg(r: &DdgReply) -> (out: Option<String>)
    ensures
        reply_summary(*r).len() == 0 ==> out is None,
        reply_summary(*r).len() > 0 ==> (out matches Some(s) && s@ == reply_summary(*r)),
{
    let a = text_or_empty(&r.abstract_text);
    let d = text_or_empty(&r.definition);
    let mut out = a;
    if !d.as_str().is_empty() {
        if !out.as_str().is_empty() {
            out.append(" | ");
        }
        out.append(d.as_str());
    }
    if out.as_str().is_empty() {
        let mut i: usize = 0;
        assert(r.related@.skip(0) =~= r.related@);
        while i < r.related.len()
            invariant_except_break
                i <= r.related@.len(),
                first_topic_text(r.related@) == first_topic_text(r.related@.skip(i as int)),
                out@.len() == 0,
            ensures
                out@ == match first_topic_text(r.related@) {
                    Some(t) => t,
                    None => Seq::<char>::empty(),
                },
            decreases r.related.len() - i,
        {
            let ghost q = r.related@.skip(i as int);
            assert(q[0] == r.related@[i as int]);
            if let Some(t) = &r.related[i].text {
                out.append(t.as_str());
                assert(out@ =~= t@);
                break;
            }
            assert(q.drop_first() =~= r.related@.skip(i + 1));
            i = i + 1;
        }
    }
    if out.as_str().is_empty() {
        None
    } else {
        Some(out)
    }
}

proof fn lemma_present_single(o: Option<String>)
    ensures
        present_texts(seq![o]) == if opt_text(o).len() > 0 {
            seq![opt_text(o)]
        } else {
            Seq::<Seq<char>>::empty()
        },
{
    assert(seq![o].drop_last() =~= Seq::<Option<String>>::empty());
    assert(seq![o].last() == o);
    assert(present_texts(Seq::<Option<String>>::empty()) == Seq::<Seq<char>>::empty());
    if opt_text(o).len() > 0 {
        assert(Seq::<Seq<char>>::empty().push(opt_text(o)) =~= seq![opt_text(o)]);
    }
}

fn push_present(out: &mut Vec<String>, o: &Option<String>)
    ensures
        string_texts(final(out)@) == string_texts(old(out)@) + present_texts(seq![*o]),
{
    proof {
        lemma_present_single(*o);
    }
    if let Some(t) = o {
        if !t.as_str().is_empty() {
            let ghost before = string_texts(out@);
            out.push(t.clone());
            assert(string_texts(out@) =~= before + present_texts(seq![*o]));
            return ;
        }
    }
    assert(string_texts(out@) =~= string_texts(old(out)@) + present_texts(seq![*o]));
}

/// Every non-empty topic and sub-topic text of a reply, in order.
pub fn extract_all_topics(r: &DdgReply) -> (out: Vec<String>)
    ensures
        string_texts(out@) == all_topic_texts(r.related@),
{
    let mut out: Vec<String> = Vec::new();
    let mut i: usize = 0;
    while i < r.related.len()
        invariant
            i <= r.related@.len(),
            string_texts(out@) == all_topic_texts(r.related@.take(i as int)),
        decreases r.related.len() - i,
    {
        let t = &r.related[i];
        push_present(&mut out, &t.text);
        let ghost mid = string_texts(out@);
        let mut k: usize = 0;
        while k < t.topics.len()
            invariant
                k <= t.topics@.len(),
                string_texts(out@) == mid + present_texts(t.topics@.take(k as int)),
            decreases t.topics.len() - k,
        {
            let ghost before = string_texts(out@);
            push_present(&mut out, &t.topics[k]);
            proof {
                let tk = t.topics@.take(k + 1);
                assert(tk.drop_last() =~= t.topics@.take(k as int));
                lemma_present_single(t.topics@[k as int]);
                assert(tk.last() == t.topics@[k as int]);
                assert(string_texts(out@) =~= mid + present_texts(tk));
            }
            k = k + 1;
        }
        proof {
            assert(t.topics@.take(t.topics@.len() as int) =~= t.topics@);
            let rt = r.related@.take(i + 1);
            assert(rt.drop_last() =~= r.related@.take(i as int));
            assert(rt.last() == *t);
        }
        i = i + 1;
    }
    assert(r.related@.take(r.related@.len() as int) =~= r.related@);
    out
}

/// The tokens a query or a result is compared by: lower-cased
/// alphanumeric runs of at least 3 bytes.
pub fn search_tokens(s: &str) -> (r: Vec<String>)
    ensures
        string_texts(r@) == tokens_of(s@, 3, false),
{
    tokenize(s, 3, false)
}

/// How many query tokens occur inside some token of the text.
pub open spec fn hit_count(q: Seq<Seq<char>>, t: Seq<Seq<char>>) -> nat
    decreases q.len(),
{
    if q.len() == 0 {
        0
    } else {
        hit_count(q.drop_last(), t) + if exists|x: Seq<char>| t.contains(x) && has_infix(x, q.last()) {
            1nat
        } else {
            0nat
        }
    }
}

/// One more query token adds one hit exactly when it occurs inside some
/// token of the text, whatever its length, and none otherwise.
pub proof fn lemma_hit_step(q: Seq<Seq<char>>, y: Seq<char>, t: Seq<Seq<char>>)
    ensures
        (exists|x: Seq<char>| t.contains(x) && has_infix(x, y)) ==> hit_count(q.push(y), t)
            == hit_count(q, t) + 1,
        !(exists|x: Seq<char>| t.contains(x) && has_infix(x, y)) ==> hit_count(q.push(y), t)
            == hit_count(q, t),
{
    assert(q.push(y).drop_last() =~= q);
    assert(q.push(y).last() == y);
}

/// Every query token that is itself a token of the text is a hit,
/// whatever its length: when all of them are, every query token counts.
pub proof fn lemma_all_found(q: Seq<Seq<char>>, t: Seq<Seq<char>>)
    requires
        forall|i: int| 0 <= i < q.len() ==> t.contains(#[trigger] q[i]),
    ensures
        hit_count(q, t) == q.len(),
    decreases q.len(),
{
    if q.len() > 0 {
        let x = q.last();
        assert(t.contains(q[q.len() - 1]));
        assert(x.subrange(0, x.len() as int) =~= x);
        assert(occurs_at(x, x, 0));
        assert(has_infix(x, x));
        assert forall|i: int| 0 <= i < q.drop_last().len() implies t.contains(
            #[trigger] q.drop_last()[i],
        ) by {
            assert(q.drop_last()[i] == q[i]);
        }
        lemma_all_found(q.drop_last(), t);
    }
}

/// A query token that occurs inside no token of the text is no hit: when
/// none does, the count is 0; and the count never exceeds the number of
/// query tokens.
pub proof fn lemma_hits_bounds(q: Seq<Seq<char>>, t: Seq<Seq<char>>)
    ensures
        hit_count(q, t) <= q.len(),
        (forall|i: int, x: Seq<char>|
            #![trigger has_infix(x, q[i])]
            0 <= i < q.len() && t.contains(x) ==> !has_infix(x, q[i])) ==> hit_count(q, t) == 0,
    decreases q.len(),
{
    if q.len() > 0 {
        lemma_hits_bounds(q.drop_last(), t);
        if forall|i: int, x: Seq<char>|
            #![trigger has_infix(x, q[i])]
            0 <= i < q.len() && t.contains(x) ==> !has_infix(x, q[i]) {
            assert forall|i: int, x: Seq<char>|
                #![trigger has_infix(x, q.drop_last()[i])]
                0 <= i < q.drop_last().len() && t.contains(x) implies !has_infix(
                x,
                q.drop_last()[i],
            ) by {
                assert(q.drop_last()[i] == q[i]);
                assert(!has_infix(x, q[i]));
            }
            assert forall|x: Seq<char>| t.contains(x) implies !has_infix(x, q.last()) by {
                assert(q.last() == q[q.len() - 1]);
                assert(!has_infix(x, q[q.len() - 1]));
            }
        }
    }
}

fn some_token_holds(ttok: &Vec<String>, q: &str) -> (r: bool)
    ensures
        r == exists|x: Seq<char>| string_texts(ttok@).contains(x) && has_infix(x, q@),
{
    let mut i: usize = 0;
    while i < ttok.len()
        invariant
            i <= ttok@.len(),
            forall|j: int| 0 <= j < i ==> !has_infix(#[trigger] ttok@[j]@, q@),
        decreases ttok.len() - i,
    {
        if str_contains(ttok[i].as_str(), q) {
            assert(string_texts(ttok@)[i as int] == ttok@[i as int]@);
            return true;
        }
        i = i + 1;
    }
    assert forall|x: Seq<char>| !(string_texts(ttok@).contains(x) && has_infix(x, q@)) by {
        if string_texts(ttok@).contains(x) {
            let j = choose|j: int| 0 <= j < ttok@.len() && string_texts(ttok@)[j] == x;
            assert(ttok@[j]@ == x);
        }
    }
    false
}

/// How many of the query tokens occur in some token of `text`; the
/// relevance of the text is this count over the number of query tokens.
pub fn relevance_hits(query: &Vec<String>, text: &str) -> (r: usize)
    ensures
        r == hit_count(string_texts(query@), tokens_of(text@, 3, false)),
        r <= query@.len(),
        (forall|i: int|
            0 <= i < query@.len() ==> tokens_of(text@, 3, false).contains(#[trigger] query@[i]@))
            ==> r == query@.len(),
{
    proof {
        let q = string_texts(query@);
        let t = tokens_of(text@, 3, false);
        if forall|i: int| 0 <= i < query@.len() ==> t.contains(#[trigger] query@[i]@) {
            assert forall|i: int| 0 <= i < q.len() implies t.contains(#[trigger] q[i]) by {
                assert(q[i] == query@[i]@);
            }
            lemma_all_found(q, t);
        }
    }
    let ttok = search_tokens(text);
    let mut n: usize = 0;
    let mut i: usize = 0;
    while i < query.len()
        invariant
            i <= query@.len(),
            n <= i,
            string_texts(ttok@) == tokens_of(text@, 3, false),
            n == hit_count(string_texts(query@).take(i as int), tokens_of(text@, 3, false)),
        decreases query.len() - i,
    {
        let hit = some_token_holds(&ttok, query[i].as_str());
        proof {
            let t = string_texts(query@).take(i + 1);
            assert(t.drop_last() =~= string_texts(query@).take(i as int));
            assert(t.last() == query@[i as int]@);
        }
        if hit {
            n = n + 1;
        }
        i = i + 1;
    }
    assert(string_texts(query@).take(query@.len() as int) =~= string_texts(query@));
    n
}

/// The texts a search weighs: the reply's summary (when it has one)
/// before every topic text, or the empty-net line when there is nothing.
pub open spec fn candidates_of(r: DdgReply) -> Seq<Seq<char>> {
    let all = all_topic_texts(r.related@);
    let with = if reply_summary(r).len() > 0 {
        seq![reply_summary(r)] + all
    } else {
        all
    };
    if with.len() == 0 {
        seq![EMPTY_NET@]
    } else {
        with
    }
}

/// Index `a` ranks before index `b` when the hit counts are `h`: more
/// hits first, and of equal counts the earlier index first (the order a
/// stable sort by falling score keeps).
pub open spec fn ranks_before(h: Seq<usize>, a: int, b: int) -> bool {
    h[a] > h[b] || (h[a] == h[b] && a < b)
}

/// The indices of `s` are in ranking order.
pub open spec fn in_rank_order(h: Seq<usize>, s: Seq<usize>) -> bool {
    forall|a: int, b: int|
        #![trigger s[a], s[b]]
        0 <= a < b < s.len() ==> ranks_before(h, s[a] as int, s[b] as int)
}

/// `r` holds the best-ranked `max` indices of `h` (all of them when there
/// are fewer), best first: each lies within `h`, they are in ranking
/// order, and every index left out ranks after every index kept.
pub open spec fn top_ranked(h: Seq<usize>, max: nat, r: Seq<usize>) -> bool {
    &&& r.len() == (if max < h.len() {
        max
    } else {
        h.len()
    })
    &&& forall|a: int| 0 <= a < r.len() ==> #[trigger] r[a] < h.len()
    &&& in_rank_order(h, r)
    &&& forall|x: int, a: int|
        #![trigger r.contains(x as usize), r[a]]
        0 <= x < h.len() && !r.contains(x as usize) && 0 <= a < r.len() ==> ranks_before(
            h,
            r[a] as int,
            x,
        )
}

proof fn lemma_top_ranked_prefix(h: Seq<usize>, max: nat, r1: Seq<usize>, r2: Seq<usize>, k: int)
    requires
        top_ranked(h, max, r1),
        top_ranked(h, max, r2),
        0 <= k <= r1.len(),
    ensures
        forall|a: int| 0 <= a < k ==> r1[a] == r2[a],
    decreases k,
{
    if k > 0 {
        lemma_top_ranked_prefix(h, max, r1, r2, k - 1);
        let a = k - 1;
        let x = r1[a];
        let y = r2[a];
        if x != y {
            lemma_kept_ranks_before(h, max, r1, r2, a);
            lemma_kept_ranks_before(h, max, r2, r1, a);
            assert(false);
        }
    }
}

proof fn lemma_kept_ranks_before(h: Seq<usize>, max: nat, r1: Seq<usize>, r2: Seq<usize>, a: int)
    requires
        top_ranked(h, max, r1),
        top_ranked(h, max, r2),
        r1.len() == r2.len(),
        0 <= a < r1.len(),
        forall|c: int| 0 <= c < a ==> r1[c] == r2[c],
        r1[a] != r2[a],
    ensures
        ranks_before(h, r1[a] as int, r2[a] as int),
{
    let x = r1[a];
    let y = r2[a];
    if r1.contains(y) {
        let b = choose|b: int| 0 <= b < r1.len() && r1[b] == y;
        if b < a {
            assert(r2[b] == y);
            assert(ranks_before(h, r2[b] as int, r2[a] as int));
        }
        assert(b != a);
        assert(ranks_before(h, r1[a] as int, r1[b] as int));
    } else {
        assert(r2[a] < h.len());
        assert(r1.contains((y as int) as usize) == r1.contains(y));
    }
}

/// A ranking is unique: two results that both keep the best-ranked `max`
/// indices of `h` in ranking order are the same.
pub proof fn lemma_top_ranked_unique(h: Seq<usize>, max: nat, r1: Seq<usize>, r2: Seq<usize>)
    requires
        top_ranked(h, max, r1),
        top_ranked(h, max, r2),
    ensures
        r1 == r2,
{
    lemma_top_ranked_prefix(h, max, r1, r2, r1.len() as int);
    assert(r1 =~= r2);
}

/// The positions of the `max` best results, best first, for results with
/// the given hit counts: more hits first, ties in their first order.
pub fn rank_by_hits(hits: &Vec<usize>, max: usize) -> (r: Vec<usize>)
    ensures
        top_ranked(hits@, max as nat, r@),
{
    let n = hits.len();
    let ghost h = hits@;
    let mut s: Vec<usize> = Vec::new();
    let mut i: usize = 0;
    while i < n
        invariant
            i <= n,
            n == h.len(),
            h == hits@,
            s@.len() == i,
            forall|a: int| 0 <= a < s@.len() ==> #[trigger] s@[a] < i,
            forall|x: int| 0 <= x < i ==> #[trigger] s@.contains(x as usize),
            in_rank_order(h, s@),
        decreases n - i,
    {
        let mut p: usize = 0;
        while p < s.len() && hits[s[p]] >= hits[i]
            invariant
                p <= s@.len(),
                i < n,
                n == h.len(),
                h == hits@,
                forall|a: int| 0 <= a < s@.len() ==> #[trigger] s@[a] < i,
                forall|q: int| 0 <= q < p ==> h[#[trigger] s@[q] as int] >= h[i as int],
            decreases s.len() - p,
        {
            p = p + 1;
        }
        let ghost s0 = s@;
        proof {
            assert forall|q: int| p <= q < s0.len() implies h[#[trigger] s0[q] as int] < h[i as int] by {
                if q > p {
                    assert(ranks_before(h, s0[p as int] as int, s0[q] as int));
                }
            }
        }
        s.insert(p, i);
        proof {
            let s1 = s@;
            assert(s1 == s0.insert(p as int, i));
            assert forall|a: int| 0 <= a < s1.len() implies #[trigger] s1[a] < i + 1 by {
                if a < p {
                    assert(s1[a] == s0[a]);
                } else if a > p {
                    assert(s1[a] == s0[a - 1]);
                }
            }
            assert forall|x: int| 0 <= x < i + 1 implies #[trigger] s1.contains(x as usize) by {
                if x == i {
                    assert(s1[p as int] == i);
                } else {
                    assert(s0.contains(x as usize));
                    let q = choose|q: int| 0 <= q < s0.len() && s0[q] == x as usize;
                    if q < p {
                        assert(s1[q] == s0[q]);
                    } else {
                        assert(s1[q + 1] == s0[q]);
                    }
                }
            }
            assert forall|a: int, b: int| 0 <= a < b < s1.len() implies ranks_before(
                h,
                #[trigger] s1[a] as int,
                #[trigger] s1[b] as int,
            ) by {
                if b < p {
                    assert(s1[a] == s0[a] && s1[b] == s0[b]);
                } else if b == p {
                    assert(s1[a] == s0[a]);
                    assert(s0[a] < i);
                } else if a < p {
                    assert(s1[a] == s0[a] && s1[b] == s0[b - 1]);
                } else if a == p {
                    assert(s1[b] == s0[b - 1]);
                } else {
                    assert(s1[a] == s0[a - 1] && s1[b] == s0[b - 1]);
                }
            }
        }
        i = i + 1;
    }
    let k: usize = if max < n {
        max
    } else {
        n
    };
    let mut r: Vec<usize> = Vec::new();
    let mut j: usize = 0;
    while j < k
        invariant
            j <= k,
            k <= n,
            n == s@.len(),
            r@ == s@.take(j as int),
        decreases k - j,
    {
        r.push(s[j]);
        j = j + 1;
        assert(r@ =~= s@.take(j as int));
    }
    proof {
        assert forall|a: int, b: int| 0 <= a < b < r@.len() implies ranks_before(
            h,
            #[trigger] r@[a] as int,
            #[trigger] r@[b] as int,
        ) by {
            assert(r@[a] == s@[a] && r@[b] == s@[b]);
        }
        assert forall|x: int, a: int|
            #![trigger r@.contains(x as usize), r@[a]]
            0 <= x < h.len() && !r@.contains(x as usize) && 0 <= a < r@.len() implies ranks_before(
            h,
            r@[a] as int,
            x,
        ) by {
            assert(s@.contains(x as usize));
            let q = choose|q: int| 0 <= q < s@.len() && s@[q] == x as usize;
            if q < k {
                assert(r@[q] == x as usize);
            }
            assert(r@[a] == s@[a]);
            assert(ranks_before(h, s@[a] as int, s@[q] as int));
        }
        assert forall|a: int| 0 <= a < r@.len() implies #[trigger] r@[a] < h.len() by {
            assert(r@[a] == s@[a]);
        }
    }
    r
}

/// The texts a search weighs, in order.
pub fn search_candidates(r: &DdgReply) -> (out: Vec<String>)
    ensures
        string_texts(out@) == candidates_of(*r),
{
    let mut raw = extract_all_topics(r);
    let ghost all = string_texts(raw@);
    match extract_ddg(r) {
        Some(primary) => {
            raw.insert(0, primary);
            assert(string_texts(raw@) =~= seq![reply_summary(*r)] + all);
        },
        None => {},
    }
    if raw.len() == 0 {
        raw.push(EMPTY_NET.to_owned());
        assert(string_texts(raw@) =~= seq![EMPTY_NET@]);
    }
    raw
}

/// An optional text as a plain value.
pub open spec fn opt_view(o: Option<String>) -> Option<Seq<char>> {
    match o {
        Some(s) => Some(s@),
        None => None,
    }
}

/// A list of optional texts as plain values.
pub open spec fn opt_views(s: Seq<Option<String>>) -> Seq<Option<Seq<char>>> {
    s.map_values(|o: Option<String>| opt_view(o))
}

/// A related topic as plain values: its text and those of its sub-topics.
pub open spec fn topic_view(t: DdgTopic) -> (Option<Seq<char>>, Seq<Option<Seq<char>>>) {
    (opt_view(t.text), opt_views(t.topics@))
}

/// The related topics as plain values.
pub open spec fn topic_views(ts: Seq<DdgTopic>) -> Seq<(Option<Seq<char>>, Seq<Option<Seq<char>>>)> {
    ts.map_values(|t: DdgTopic| topic_view(t))
}

/// A reply as plain values: the abstract, the definition and the related
/// topics.
pub open spec fn reply_model(r: DdgReply) -> (
    Option<Seq<char>>,
    Option<Seq<char>>,
    Seq<(Option<Seq<char>>, Seq<Option<Seq<char>>>)>,
) {
    (opt_view(r.abstract_text), opt_view(r.definition), topic_views(r.related@))
}

/// What `serde_json` reads out of a reply body: `None` when the body is
/// not JSON, or is JSON nested deeper than serde_json's limit of 128
/// levels; otherwise the `Abstract` and `Definition` strings, and for
/// each entry of the `RelatedTopics` array its `Text` string and the
/// `Text` strings of its `Topics` array (a missing or non-string field is
/// `None`, a missing array is empty).
pub uninterp spec fn reply_of_body(body: Seq<char>) -> Option<
    (Option<Seq<char>>, Option<Seq<char>>, Seq<(Option<Seq<char>>, Seq<Option<Seq<char>>>)>),
>;

/// `serde_json::from_str` into a `serde_json::Value`, then the fields of
/// the reply picked out of it. The contract claims that the result is
/// `Ok` exactly when serde_json reads the body (`reply_of_body` is
/// `Some`: JSON nested no deeper than 128 levels), and
/// that an `Ok` reply holds what `reply_of_body` names; the error text is
/// serde's message, of which nothing is stated.
#[verifier::external_body]
pub(crate) fn parse_reply(body: &str) -> (r: Result<DdgReply, String>)
    ensures
        r is Err <==> reply_of_body(body@) is None,
        r matches Ok(d) ==> reply_of_body(body@) == Some(reply_model(d)),
{
    let v: Value = serde_json::from_str(body).map_err(|e| e.to_string())?;
    let str_at = |x: &Value, k: &str| x.get(k).and_then(Value::as_str).map(str::to_string);
    let list = |x: &Value, k: &str| x.get(k).and_then(Value::as_array).cloned().unwrap_or_default();
    let topic = |t: &Value| DdgTopic {
        text: str_at(t, "Text"),
        topics: list(t, "Topics").iter().map(|s| str_at(s, "Text")).collect(),
    };
    Ok(DdgReply {
        abstract_text: str_at(&v, "Abstract"),
        definition: str_at(&v, "Definition"),
        related: list(&v, "RelatedTopics").iter().map(topic).collect(),
    })
}

proof fn lemma_present_same(a: Seq<Option<String>>, b: Seq<Option<String>>)
    requires
        opt_views(a) == opt_views(b),
    ensures
        present_texts(a) == present_texts(b),
    decreases a.len(),
{
    assert(a.len() == opt_views(a).len() && b.len() == opt_views(b).len());
    if a.len() > 0 {
        assert(opt_views(a.drop_last()) =~= opt_views(b.drop_last())) by {
            assert forall|i: int| 0 <= i < a.len() - 1 implies opt_views(a.drop_last())[i] == opt_views(b.drop_last())[i] by {
                assert(opt_views(a)[i] == opt_views(b)[i]);
            }
        }
        assert(opt_views(a)[a.len() - 1] == opt_views(b)[b.len() - 1]);
        lemma_present_same(a.drop_last(), b.drop_last());
    }
}

proof fn lemma_first_topic_same(a: Seq<DdgTopic>, b: Seq<DdgTopic>)
    requires
        topic_views(a) == topic_views(b),
    ensures
        first_topic_text(a) == first_topic_text(b),
    decreases a.len(),
{
    assert(a.len() == topic_views(a).len() && b.len() == topic_views(b).len());
    if a.len() > 0 {
        assert(topic_views(a)[0] == topic_views(b)[0]);
        assert(topic_views(a.drop_first()) =~= topic_views(b.drop_first())) by {
            assert forall|i: int| 0 <= i < a.len() - 1 implies topic_views(a.drop_first())[i] == topic_views(b.drop_first())[i] by {
                assert(topic_views(a)[i + 1] == topic_views(b)[i + 1]);
            }
        }
        lemma_first_topic_same(a.drop_first(), b.drop_first());
    }
}

proof fn lemma_all_topics_same(a: Seq<DdgTopic>, b: Seq<DdgTopic>)
    requires
        topic_views(a) == topic_views(b),
    ensures
        all_topic_texts(a) == all_topic_texts(b),
    decreases a.len(),
{
    assert(a.len() == topic_views(a).len() && b.len() == topic_views(b).len());
    if a.len() > 0 {
        assert(topic_views(a.drop_last()) =~= topic_views(b.drop_last())) by {
            assert forall|i: int| 0 <= i < a.len() - 1 implies topic_views(a.drop_last())[i] == topic_views(b.drop_last())[i] by {
                assert(topic_views(a)[i] == topic_views(b)[i]);
            }
        }
        lemma_all_topics_same(a.drop_last(), b.drop_last());
        assert(topic_views(a)[a.len() - 1] == topic_views(b)[b.len() - 1]);
        let (x, y) = (a.last(), b.last());
        assert(opt_views(seq![x.text]) =~= opt_views(seq![y.text]));
        lemma_present_same(seq![x.text], seq![y.text]);
        lemma_present_same(x.topics@, y.topics@);
    }
}

/// What the library makes of a reply depends only on its plain values:
/// two replies with the same model have the same summary and the same
/// candidate texts.
pub proof fn lemma_reply_model_decides(a: DdgReply, b: DdgReply)
    requires
        reply_model(a) == reply_model(b),
    ensures
        reply_summary(a) == reply_summary(b),
        candidates_of(a) == candidates_of(b),
{
    lemma_first_topic_same(a.related@, b.related@);
    lemma_all_topics_same(a.related@, b.related@);
}

/// The summary a reply body offers: `None` when the body is not JSON or
/// its reply offers no summary (see `extract_ddg`).
pub fn summary_of_body(body: &str) -> (r: Option<String>)
    ensures
        reply_of_body(body@) is None ==> r is None,
        forall|d: DdgReply|
            reply_of_body(body@) == Some(#[trigger] reply_model(d)) ==> (if reply_summary(d).len()
                > 0 {
                r matches Some(s) && s@ == reply_summary(d)
            } else {
                r is None
            }),
{
    match parse_reply(body) {
        Ok(d) => {
            let r = extract_ddg(&d);
            assert forall|e: DdgReply| reply_of_body(body@) == Some(#[trigger] reply_model(e)) implies if reply_summary(e).len() > 0 {
                r matches Some(s) && s@ == reply_summary(e)
            } else {
                r is None
            } by {
                lemma_reply_model_decides(d, e);
            }
            r
        },
        Err(_) => None,
    }
}

/// The answer a search gives for a reply body: the reply's summary, or the
/// empty-net line when it offers none; `Err` with the parser's message
/// when the body is not JSON.
pub fn answer_of_body(body: &str) -> (r: Result<String, String>)
    ensures
        r is Err <==> reply_of_body(body@) is None,
        forall|d: DdgReply|
            reply_of_body(body@) == Some(#[trigger] reply_model(d)) ==> (r matches Ok(s) && s@ == (
            if reply_summary(d).len() > 0 {
                reply_summary(d)
            } else {
                EMPTY_NET@
            })),
{
    match parse_reply(body) {
        Ok(d) => {
            let s = match extract_ddg(&d) {
                Some(s) => s,
                None => EMPTY_NET.to_owned(),
            };
            assert forall|e: DdgReply| reply_of_body(body@) == Some(#[trigger] reply_model(e)) implies s@ == (
            if reply_summary(e).len() > 0 {
                reply_summary(e)
            } else {
                EMPTY_NET@
            }) by {
                lemma_reply_model_decides(d, e);
            }
            Ok(s)
        },
        Err(e) => Err(e),
    }
}

/// The texts a search weighs for a reply body (see `search_candidates`),
/// or `None` when the body is not JSON.
pub fn candidates_of_body(body: &str) -> (r: Option<Vec<String>>)
    ensures
        r is None <==> reply_of_body(body@) is None,
        forall|d: DdgReply|
            reply_of_body(body@) == Some(#[trigger] reply_model(d)) ==> (r matches Some(v)
                && string_texts(v@) == candidates_of(d)),
{
    match parse_reply(body) {
        Ok(d) => {
            let v = search_candidates(&d);
            assert forall|e: DdgReply| reply_of_body(body@) == Some(#[trigger] reply_model(e)) implies string_texts(v@) == candidates_of(e) by {
                lemma_reply_model_decides(d, e);
            }
            Some(v)
        },
        Err(_) => None,
    }
}

/// A byte a URL carries as it is: an ASCII letter or digit, `-`, `.`, `_`
/// or `~`.
pub open spec fn url_safe(b: u8) -> bool {
    ||| (48 <= b && b <= 57)
    ||| (65 <= b && b <= 90)
    ||| (97 <= b && b <= 122)
    ||| b == 45
    ||| b == 46
    ||| b == 95
    ||| b == 126
}

/// Upper-case hexadecimal digit of a value below 16.
pub open spec fn hex_upper(d: u8) -> char {
    if d < 10 {
        (48 + d) as char
    } else {
        (55 + d) as char
    }
}

/// One byte as a URL carries it: itself when safe, else `%` and its two
/// upper-case hexadecimal digits.
pub open spec fn percent_byte(b: u8) -> Seq<char> {
    if url_safe(b) {
        seq![b as char]
    } else {
        seq!['%', hex_upper(b / 16), hex_upper(b % 16)]
    }
}

/// Percent-encoding of a byte string, byte by byte.
pub open spec fn percent_encoded(bytes: Seq<u8>) -> Seq<char>
    decreases bytes.len(),
{
    if bytes.len() == 0 {
        Seq::empty()
    } else {
        percent_encoded(bytes.drop_last()) + percent_byte(bytes.last())
    }
}

/// `urlencoding::encode`: every byte of the UTF-8 encoding of `s` is kept
/// when it is an ASCII letter or digit, `-`, `.`, `_` or `~`, and written
/// as `%` and two upper-case hexadecimal digits otherwise.
#[verifier::external_body]
fn url_encode(s: &str) -> (r: String)
    ensures
        r@ == percent_encoded(encode_utf8(s@)),
{
    urlencoding::encode(s).into_owned()
}

/// The instant-answer request for a query.
pub open spec fn ddg_url_text(q: Seq<char>) -> Seq<char> {
    "https://api.duckduckgo.com/?q="@ + percent_encoded(encode_utf8(q))
        + "&format=json&no_html=1&skip_disambig=1"@
}

/// The URL of the instant-answer request for `query`, the query
/// percent-encoded.
pub fn ddg_url(query: &str) -> (r: String)
    ensures
        r@ == ddg_url_text(query@),
{
    let mut s = "https://api.duckduckgo.com/?q=".to_owned();
    let e = url_encode(query);
    s.append(e.as_str());
    s.append("&format=json&no_html=1&skip_disambig=1");
    s
}

/// The key a query's answer is cached under: the query ASCII lower-cased,
/// so that queries differing only in case share an answer.
pub fn cache_key(query: &str) -> (r: String)
    ensures
        r@ == lower(query@),
{
    lowered(&chars_of(query))
}

/// Above this many entries the answer cache is emptied before the next
/// answer is stored.
pub const CACHE_LIMIT: usize = 500;

/// Queries an exploring creature may start from.
pub const EXPLORATION_SEEDS: [&'static str; 5] = [
    "emergence complex systems",
    "digital evolution",
    "computational creativity",
    "nature of memory",
    "artificial life",
];

/// A random exploration seed.
pub fn seed_exploration_queries(rng: &mut ThreadRng) -> (r: &'static str)
    ensures
        strs(EXPLORATION_SEEDS@).contains(r@),
{
    let i = random_index(rng, 5);
    let r = EXPLORATION_SEEDS[i];
    assert(strs(EXPLORATION_SEEDS@)[i as int] == r@);
    r
}

} // verus!
