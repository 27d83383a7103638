//! Splitting text into words and tokens, and keeping token sets sorted.

use crate::text::{
    char_width, chars_of, is_whitespace, is_ws, lower, lower_char, string_of, utf8_len, utf8_width,
};
use vstd::prelude::*;

verus! {

/// Whether `char::is_alphanumeric` holds of `c` (the Unicode `Alphabetic`
/// property or a numeric general category), as std computes it.
pub uninterp spec fn char_alphanumeric(c: char) -> bool;

/// ASCII letters and digits.
pub open spec fn ascii_alnum(c: char) -> bool {
    ('a' <= c && c <= 'z') || ('A' <= c && c <= 'Z') || ('0' <= c && c <= '9')
}

/// `char::is_alphanumeric`. Of ASCII characters exactly the letters and
/// digits are alphanumeric; beyond ASCII the Unicode tables decide and
/// nothing more is stated.
#[verifier::external_body]
fn alphanumeric(c: char) -> (r: bool)
    ensures
        r == char_alphanumeric(c),
        (c as u32) < 0x80 ==> (r == ascii_alnum(c)),
{
    c.is_alphanumeric()
}

/// Words that carry no meaning as thought tokens.
pub const STOP: [&'static str; 22] = [
    "the",
    "and",
    "for",
    "that",
    "with",
    "this",
    "from",
    "have",
    "are",
    "was",
    "were",
    "been",
    "being",
    "into",
    "about",
    "what",
    "when",
    "where",
    "which",
    "while",
    "their",
    "there",
];

/// The pieces of `s` between non-alphanumeric characters (as
/// `str::split(|c| !c.is_alphanumeric())`, empty pieces included).
pub open spec fn pieces(s: Seq<char>) -> Seq<Seq<char>>
    decreases s.len(),
{
    if s.len() == 0 {
        seq![Seq::empty()]
    } else {
        let p = pieces(s.drop_last());
        if char_alphanumeric(s.last()) {
            p.update(p.len() - 1, p.last().push(s.last()))
        } else {
            p.push(Seq::empty())
        }
    }
}

/// A word is a stop word when its ASCII lower-case form is one of `STOP`.
pub open spec fn is_stop(w: Seq<char>) -> bool {
    exists|i: int| 0 <= i < 22 && lower(w) == (#[trigger] STOP@[i])@
}

/// A piece becomes a token when it has at least `min` UTF-8 bytes and,
/// if `skip_stop` holds, is not a stop word.
pub open spec fn keeps(w: Seq<char>, min: nat, skip_stop: bool) -> bool {
    utf8_len(w) >= min && !(skip_stop && is_stop(w))
}

/// The kept pieces of `ps`, ASCII lower-cased, in order.
pub open spec fn select_tokens(ps: Seq<Seq<char>>, min: nat, skip_stop: bool) -> Seq<Seq<char>>
    decreases ps.len(),
{
    if ps.len() == 0 {
        Seq::empty()
    } else {
        let r = select_tokens(ps.drop_last(), min, skip_stop);
        if keeps(ps.last(), min, skip_stop) {
            r.push(lower(ps.last()))
        } else {
            r
        }
    }
}

/// The tokens of a text: alphanumeric runs of at least `min` bytes,
/// optionally without stop words, lower-cased.
pub open spec fn tokens_of(s: Seq<char>, min: nat, skip_stop: bool) -> Seq<Seq<char>> {
    select_tokens(pieces(s), min, skip_stop)
}

/// The whitespace-separated words of `s` (as `str::split_whitespace`).
pub open spec fn ws_words(s: Seq<char>) -> Seq<Seq<char>>
    decreases s.len(),
{
    if s.len() == 0 {
        Seq::empty()
    } else {
        let p = ws_words(s.drop_last());
        if is_ws(s.last()) {
            p
        } else if s.len() >= 2 && !is_ws(s[s.len() - 2]) && p.len() > 0 {
            p.update(p.len() - 1, p.last().push(s.last()))
        } else {
            p.push(seq![s.last()])
        }
    }
}

/// The first `n` entries of `s` (all of them when there are fewer).
pub open spec fn at_most<A>(s: Seq<A>, n: nat) -> Seq<A> {
    if s.len() <= n {
        s
    } else {
        s.take(n as int)
    }
}

/// Words joined by single spaces.
pub open spec fn joined(ws: Seq<Seq<char>>) -> Seq<char>
    decreases ws.len(),
{
    if ws.len() == 0 {
        Seq::empty()
    } else if ws.len() == 1 {
        ws[0]
    } else {
        joined(ws.drop_last()) + seq![' '] + ws.last()
    }
}

/// Lexicographic order of texts by code point (the order of `String`).
pub open spec fn text_lt(a: Seq<char>, b: Seq<char>) -> bool
    decreases a.len(),
{
    if a.len() == 0 {
        b.len() > 0
    } else if b.len() == 0 {
        false
    } else if a[0] != b[0] {
        (a[0] as u32) < (b[0] as u32)
    } else {
        text_lt(a.drop_first(), b.drop_first())
    }
}

/// `s` is strictly increasing in text order (so also free of repeats).
pub open spec fn strictly_sorted(s: Seq<Seq<char>>) -> bool {
    forall|i: int, j: int| 0 <= i < j < s.len() ==> text_lt(#[trigger] s[i], #[trigger] s[j])
}

/// Text order is irreflexive.
pub proof fn lemma_text_lt_irreflexive(a: Seq<char>)
    ensures
        !text_lt(a, a),
    decreases a.len(),
{
    if a.len() > 0 {
        lemma_text_lt_irreflexive(a.drop_first());
    }
}

/// Text order is total on distinct texts.
pub proof fn lemma_text_lt_total(a: Seq<char>, b: Seq<char>)
    ensures
        a == b || text_lt(a, b) || text_lt(b, a),
    decreases a.len(),
{
    if a.len() > 0 && b.len() > 0 && a[0] == b[0] {
        lemma_text_lt_total(a.drop_first(), b.drop_first());
        if a.drop_first() == b.drop_first() {
            assert(a =~= seq![a[0]] + a.drop_first());
            assert(b =~= seq![b[0]] + b.drop_first());
        }
    } else if a.len() == 0 && b.len() == 0 {
        assert(a =~= b);
    } else if a.len() > 0 && b.len() > 0 {
        let x = a[0] as u32;
        let y = b[0] as u32;
        assert(x != y) by {
            if x == y {
                vstd::utf8::char_u32_cast(a[0], x);
                vstd::utf8::char_u32_cast(b[0], y);
            }
        }
    }
}

/// Text order is transitive.
pub proof fn lemma_text_lt_transitive(a: Seq<char>, b: Seq<char>, c: Seq<char>)
    requires
        text_lt(a, b),
        text_lt(b, c),
    ensures
        text_lt(a, c),
    decreases a.len(),
{
    if a.len() > 0 && b.len() > 0 && c.len() > 0 && a[0] == b[0] && b[0] == c[0] {
        lemma_text_lt_transitive(a.drop_first(), b.drop_first(), c.drop_first());
    }
}

/// Text comparison.
pub fn text_less(a: &Vec<char>, b: &Vec<char>) -> (r: bool)
    ensures
        r == text_lt(a@, b@),
{
    let mut i: usize = 0;
    assert(a@.skip(0) =~= a@);
    assert(b@.skip(0) =~= b@);
    while i < a.len() && i < b.len()
        invariant
            i <= a@.len(),
            i <= b@.len(),
            forall|j: int| 0 <= j < i ==> a@[j] == b@[j],
            text_lt(a@, b@) == text_lt(a@.skip(i as int), b@.skip(i as int)),
        decreases a.len() - i,
    {
        if a[i] != b[i] {
            let r = (a[i] as u32) < (b[i] as u32);
            assert(a@.skip(i as int)[0] == a@[i as int]);
            assert(b@.skip(i as int)[0] == b@[i as int]);
            return r;
        }
        assert(a@.skip(i as int).drop_first() =~= a@.skip(i + 1));
        assert(b@.skip(i as int).drop_first() =~= b@.skip(i + 1));
        i = i + 1;
    }
    i == a.len() && i < b.len()
}

/// Text equality of two character lists.
pub fn chars_eq(a: &Vec<char>, b: &Vec<char>) -> (r: bool)
    ensures
        r == (a@ == b@),
{
    if a.len() != b.len() {
        return false;
    }
    let mut i: usize = 0;
    while i < a.len()
        invariant
            a@.len() == b@.len(),
            i <= a@.len(),
            forall|j: int| 0 <= j < i ==> a@[j] == b@[j],
        decreases a.len() - i,
    {
        if a[i] != b[i] {
            return false;
        }
        i = i + 1;
    }
    assert(a@ =~= b@);
    true
}

/// Whether a word is a stop word.
fn stop_word(w: &Vec<char>) -> (r: bool)
    ensures
        r == is_stop(w@),
{
    let mut low: Vec<char> = Vec::new();
    let mut k: usize = 0;
    while k < w.len()
        invariant
            k <= w@.len(),
            low@ == lower(w@.take(k as int)),
        decreases w.len() - k,
    {
        low.push(lower_char(w[k]));
        k = k + 1;
        assert(low@ =~= lower(w@.take(k as int)));
    }
    assert(w@.take(w@.len() as int) =~= w@);
    let mut i: usize = 0;
    while i < 22
        invariant
            i <= 22,
            low@ == lower(w@),
            forall|j: int| 0 <= j < i ==> lower(w@) != (#[trigger] STOP@[j])@,
        decreases 22 - i,
    {
        let s = chars_of(STOP[i]);
        if chars_eq(&low, &s) {
            return true;
        }
        i = i + 1;
    }
    false
}

/// Lower-cased copy of a word.
pub(crate) fn lowered(w: &Vec<char>) -> (r: String)
    ensures
        r@ == lower(w@),
{
    let mut low: Vec<char> = Vec::new();
    let mut k: usize = 0;
    while k < w.len()
        invariant
            k <= w@.len(),
            low@ == lower(w@.take(k as int)),
        decreases w.len() - k,
    {
        low.push(lower_char(w[k]));
        k = k + 1;
        assert(low@ =~= lower(w@.take(k as int)));
    }
    assert(w@.take(w@.len() as int) =~= w@);
    string_of(low.as_slice())
}

proof fn lemma_utf8_len_push(s: Seq<char>, c: char)
    ensures
        utf8_len(s.push(c)) == utf8_len(s) + utf8_width(c),
{
    assert(s.push(c).drop_last() =~= s);
}

/// The tokens of `s`: alphanumeric runs of at least `min` UTF-8 bytes,
/// without stop words when `skip_stop` holds, ASCII lower-cased.
pub fn tokenize(s: &str, min: usize, skip_stop: bool) -> (r: Vec<String>)
    ensures
        r@.map_values(|t: String| t@) == tokens_of(s@, min as nat, skip_stop),
{
    let cs = chars_of(s);
    let mut out: Vec<String> = Vec::new();
    let mut cur: Vec<char> = Vec::new();
    let mut cur_bytes: usize = 0;
    let ghost mut done: Seq<Seq<char>> = Seq::empty();
    let mut i: usize = 0;
    while i < cs.len()
        invariant
            i <= cs@.len(),
            cs@ == s@,
            pieces(cs@.take(i as int)) == done.push(cur@),
            out@.map_values(|t: String| t@) == select_tokens(done, min as nat, skip_stop),
            cur_bytes as nat == capped_len(cur@),
        decreases cs.len() - i,
    {
        let c = cs[i];
        proof {
            assert(cs@.take(i + 1).drop_last() =~= cs@.take(i as int));
            assert(cs@.take(i + 1).last() == c);
        }
        if alphanumeric(c) {
            let ghost old_cur = cur@;
            proof {
                lemma_utf8_len_push(cur@, c);
            }
            cur.push(c);
            cur_bytes = cur_bytes.saturating_add(char_width(c));
            proof {
                let p = done.push(old_cur);
                assert(done.push(cur@) =~= p.update(p.len() - 1, p.last().push(c)));
            }
        } else {
            let ghost before = out@.map_values(|t: String| t@);
            if cur_bytes >= min && !(skip_stop && stop_word(&cur)) {
                let t = lowered(&cur);
                out.push(t);
                assert(out@.map_values(|t: String| t@) =~= before.push(lower(cur@)));
            }
            proof {
                assert(done.push(cur@).drop_last() =~= done);
                done = done.push(cur@);
            }
            cur = Vec::new();
            cur_bytes = 0;
            proof {
                assert(pieces(cs@.take(i + 1)) =~= done.push(cur@));
            }
        }
        i = i + 1;
    }
    if cur_bytes >= min && !(skip_stop && stop_word(&cur)) {
        let ghost before = out@.map_values(|t: String| t@);
        let t = lowered(&cur);
        out.push(t);
        assert(out@.map_values(|t: String| t@) =~= before.push(lower(cur@)));
    }
    proof {
        assert(cs@.take(cs@.len() as int) =~= cs@);
        assert(done.push(cur@).drop_last() =~= done);
    }
    out
}

/// The UTF-8 length of `s`, saturated at `usize::MAX`.
spec fn capped_len(s: Seq<char>) -> nat {
    if utf8_len(s) > usize::MAX {
        usize::MAX as nat
    } else {
        utf8_len(s)
    }
}


/// The character lists of a list of character lists.
pub open spec fn char_lists(v: Seq<Vec<char>>) -> Seq<Seq<char>> {
    v.map_values(|w: Vec<char>| w@)
}

/// The whitespace-separated words of a character list.
pub(crate) fn split_ws(cs: &Vec<char>) -> (r: Vec<Vec<char>>)
    ensures
        char_lists(r@) == ws_words(cs@),
{
    let mut out: Vec<Vec<char>> = Vec::new();
    let mut cur: Vec<char> = Vec::new();
    let mut in_word = false;
    let mut i: usize = 0;
    while i < cs.len()
        invariant
            i <= cs@.len(),
            in_word ==> i > 0 && !is_ws(cs@[i - 1]) && ws_words(cs@.take(i as int)).len() > 0,
            !in_word ==> (i == 0 || is_ws(cs@[i - 1])),
            in_word ==> ws_words(cs@.take(i as int)) == char_lists(out@).push(cur@),
            !in_word ==> ws_words(cs@.take(i as int)) == char_lists(out@),
        decreases cs.len() - i,
    {
        let c = cs[i];
        let ghost t = cs@.take(i + 1);
        proof {
            assert(t.drop_last() =~= cs@.take(i as int));
            assert(t.last() == c);
            if i > 0 {
                assert(t[t.len() - 2] == cs@[i - 1]);
            }
        }
        if is_whitespace(c) {
            if in_word {
                let ghost before = char_lists(out@);
                let w = cur;
                out.push(w);
                cur = Vec::new();
                assert(char_lists(out@) =~= before.push(w@));
            }
            in_word = false;
        } else {
            if in_word {
                let ghost before = char_lists(out@);
                let ghost old_cur = cur@;
                cur.push(c);
                proof {
                    let p = before.push(old_cur);
                    assert(p.update(p.len() - 1, p.last().push(c)) =~= before.push(cur@));
                }
            } else {
                cur = Vec::new();
                cur.push(c);
                assert(cur@ =~= seq![c]);
            }
            in_word = true;
        }
        i = i + 1;
    }
    if in_word {
        let ghost before = char_lists(out@);
        let w = cur;
        out.push(w);
        assert(char_lists(out@) =~= before.push(w@));
    }
    assert(cs@.take(cs@.len() as int) =~= cs@);
    out
}

/// The first `max` whitespace-separated words of `s`, joined by single spaces.
pub fn truncate_words(s: &str, max: usize) -> (r: String)
    ensures
        r@ == joined(at_most(ws_words(s@), max as nat)),
{
    let cs = chars_of(s);
    let ws = split_ws(&cs);
    let n = if ws.len() < max {
        ws.len()
    } else {
        max
    };
    let mut out: Vec<char> = Vec::new();
    let mut k: usize = 0;
    while k < n
        invariant
            k <= n <= ws@.len(),
            n <= max,
            out@ == joined(char_lists(ws@).take(k as int)),
        decreases n - k,
    {
        let ghost before = out@;
        if k > 0 {
            out.push(' ');
        }
        let w = &ws[k];
        let mut j: usize = 0;
        let ghost mid = out@;
        while j < w.len()
            invariant
                j <= w@.len(),
                out@ == mid + w@.take(j as int),
            decreases w.len() - j,
        {
            out.push(w[j]);
            j = j + 1;
            assert(out@ =~= mid + w@.take(j as int));
        }
        proof {
            let l = char_lists(ws@);
            assert(w@.take(w@.len() as int) =~= w@);
            assert(l.take(k + 1).drop_last() =~= l.take(k as int));
            assert(l.take(k + 1).last() == w@);
            if k == 0 {
                assert(before.len() == 0);
                assert(out@ =~= w@);
            } else {
                assert(out@ =~= before + seq![' '] + w@);
            }
        }
        k = k + 1;
    }
    proof {
        let l = char_lists(ws@);
        assert(l == ws_words(s@));
        if ws@.len() < max {
            assert(l.take(n as int) =~= l);
            assert(at_most(l, max as nat) == l);
        } else {
            assert(at_most(l, max as nat) == l.take(max as int));
        }
    }
    string_of(out.as_slice())
}

/// The strings of `v` as texts.
pub open spec fn string_texts(v: Seq<String>) -> Seq<Seq<char>> {
    v.map_values(|t: String| t@)
}

/// The distinct texts of `v` in increasing text order (as `sort_unstable`
/// followed by `dedup`).
pub fn sorted_unique(v: &Vec<String>) -> (r: Vec<String>)
    ensures
        strictly_sorted(string_texts(r@)),
        forall|x: Seq<char>| string_texts(r@).contains(x) <==> string_texts(v@).contains(x),
{
    let mut out: Vec<String> = Vec::new();
    let mut keys: Vec<Vec<char>> = Vec::new();
    let mut i: usize = 0;
    while i < v.len()
        invariant
            i <= v@.len(),
            char_lists(keys@) == string_texts(out@),
            strictly_sorted(string_texts(out@)),
            forall|x: Seq<char>|
                string_texts(out@).contains(x) <==> string_texts(v@).take(i as int).contains(x),
        decreases v.len() - i,
    {
        let key = chars_of(v[i].as_str());
        let ghost so = string_texts(out@);
        let mut p: usize = 0;
        while p < keys.len() && text_less(&keys[p], &key)
            invariant
                p <= keys@.len(),
                char_lists(keys@) == so,
                forall|j: int| 0 <= j < p ==> text_lt(#[trigger] so[j], key@),
            decreases keys.len() - p,
        {
            p = p + 1;
        }
        let present = p < keys.len() && chars_eq(&keys[p], &key);
        proof {
            let pre = string_texts(v@).take(i + 1);
            assert(pre.drop_last() =~= string_texts(v@).take(i as int));
            assert(pre.last() == key@);
            assert forall|x: Seq<char>| pre.contains(x) <==> (string_texts(v@).take(
                i as int,
            ).contains(x) || x == key@) by {
                lemma_seq_push_contains(string_texts(v@).take(i as int), key@, x);
                assert(pre =~= string_texts(v@).take(i as int).push(key@));
            }
        }
        if !present {
            proof {
                if p < so.len() {
                    lemma_text_lt_total(so[p as int], key@);
                    assert(text_lt(key@, so[p as int]));
                }
            }
            let s = v[i].clone();
            out.insert(p, s);
            keys.insert(p, key);
            proof {
                let no = string_texts(out@);
                assert(no =~= so.insert(p as int, key@));
                assert(char_lists(keys@) =~= no);
                assert forall|a: int, b: int| 0 <= a < b < no.len() implies text_lt(
                    #[trigger] no[a],
                    #[trigger] no[b],
                ) by {
                    if b < p {
                        assert(no[a] == so[a] && no[b] == so[b]);
                    } else if b == p {
                        assert(no[a] == so[a]);
                    } else if a == p {
                        assert(no[b] == so[b - 1]);
                        if b - 1 > p {
                            lemma_text_lt_transitive(key@, so[p as int], so[b - 1]);
                        }
                    } else if a < p {
                        assert(no[a] == so[a] && no[b] == so[b - 1]);
                    } else {
                        assert(no[a] == so[a - 1] && no[b] == so[b - 1]);
                    }
                }
                assert forall|x: Seq<char>| no.contains(x) <==> (so.contains(x) || x == key@) by {
                    if no.contains(x) {
                        let k = choose|k: int| 0 <= k < no.len() && no[k] == x;
                        if k < p {
                            assert(so[k] == x);
                        } else if k > p {
                            assert(so[k - 1] == x);
                        }
                    }
                    if so.contains(x) {
                        let k = choose|k: int| 0 <= k < so.len() && so[k] == x;
                        if k < p {
                            assert(no[k] == x);
                        } else {
                            assert(no[k + 1] == x);
                        }
                    }
                    if x == key@ {
                        assert(no[p as int] == x);
                    }
                }
            }
        } else {
            proof {
                assert(so[p as int] == key@);
                assert(so.contains(key@));
            }
        }
        i = i + 1;
    }
    assert(string_texts(v@).take(v@.len() as int) =~= string_texts(v@));
    out
}

proof fn lemma_seq_push_contains(p: Seq<Seq<char>>, y: Seq<char>, x: Seq<char>)
    ensures
        p.push(y).contains(x) <==> (p.contains(x) || x == y),
{
    let s = p.push(y);
    if s.contains(x) && x != y {
        let k = choose|k: int| 0 <= k < s.len() && s[k] == x;
        assert(p[k] == x);
    }
    if p.contains(x) {
        let k = choose|k: int| 0 <= k < p.len() && p[k] == x;
        assert(s[k] == x);
    }
    if x == y {
        assert(s[s.len() - 1] == x);
    }
}
} // verus!
