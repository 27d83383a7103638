//! How a creature composes thoughts, search queries, goals and
//! experiences out of what it remembers.

use crate::lists::texts;
use crate::memory::{dominant_name, traits_of, CreatureMemory};
use crate::rng::{percent_roll, random_index};
use crate::text::{char_width, chars_of, decimal, decimal_string, utf8_len};
use crate::wired::{
    pick, search_query, strs, query_pool, wired_frame, wired_text, EXPERIENCES, PLANS,
    SEARCH_BASE,
};
use crate::words::{
    at_most, joined, sorted_unique, string_texts, strictly_sorted, tokenize, tokens_of,
    truncate_words, ws_words,
};
use rand::rngs::ThreadRng;
use vstd::prelude::*;

verus! {

/// Number of plain thought frames.
pub const THOUGHT_FRAME_COUNT: usize = 10;

/// Verbs a thought may use.
pub const VERBS: [&'static str; 8] = [
    "map",
    "probe",
    "unpick",
    "stress-test",
    "listen to",
    "follow",
    "invert",
    "whisper to",
];

/// What a thought is made of: the creature's tokens, a topic, its mood,
/// its strongest trait, a fear, a favourite thing, a snippet of a fact,
/// a quirk and its age.
pub struct ThoughtCtx {
    pub tokens: Vec<String>,
    pub topic: String,
    pub mood: String,
    pub trait_name: String,
    pub fear: String,
    pub favorite: String,
    pub snippet: String,
    pub quirk: String,
    pub age: u64,
}

/// The words a thought may pick at random: the context's tokens, or the
/// search seeds when it has none.
pub open spec fn word_pool(c: &ThoughtCtx) -> Seq<Seq<char>> {
    if c.tokens@.len() == 0 {
        strs(SEARCH_BASE@)
    } else {
        string_texts(c.tokens@)
    }
}

/// The pool of random words is never empty.
pub proof fn lemma_word_pool_nonempty(c: &ThoughtCtx)
    ensures
        word_pool(c).len() > 0,
{
}

/// `r` is an entry of `l`, or `fallback` when `l` is empty.
pub open spec fn picked_or(l: Seq<Seq<char>>, fallback: Seq<char>, r: Seq<char>) -> bool {
    if l.len() == 0 {
        r == fallback
    } else {
        l.contains(r)
    }
}

/// `x` is a token of some text of `l`.
pub open spec fn list_has_token(l: Seq<Seq<char>>, x: Seq<char>) -> bool {
    exists|i: int| 0 <= i < l.len() && tokens_of(#[trigger] l[i], 4, true).contains(x)
}

/// `x` is a token of something the creature remembers: a fact, an
/// experience, a search, an obsession, a goal, a plan or a quirk.
pub open spec fn memory_token(m: &CreatureMemory, x: Seq<char>) -> bool {
    ||| list_has_token(texts(m.learned_facts@), x)
    ||| list_has_token(texts(m.experiences@), x)
    ||| list_has_token(texts(m.search_history@), x)
    ||| list_has_token(texts(m.obsessions@), x)
    ||| list_has_token(texts(m.goals@), x)
    ||| list_has_token(texts(m.plans@), x)
    ||| list_has_token(texts(m.quirks@), x)
}

/// The topic of a thought: an obsession if there are any, else a past
/// search, else a token, else a search seed.
pub open spec fn topic_choice(m: &CreatureMemory, tokens: Seq<Seq<char>>, t: Seq<char>) -> bool {
    if m.obsessions@.len() > 0 {
        texts(m.obsessions@).contains(t)
    } else if m.search_history@.len() > 0 {
        texts(m.search_history@).contains(t)
    } else if tokens.len() > 0 {
        tokens.contains(t)
    } else {
        strs(SEARCH_BASE@).contains(t)
    }
}

/// The snippet of a thought: the first 14 words of some fact (empty when
/// the creature knows no facts).
pub open spec fn snippet_choice(m: &CreatureMemory, s: Seq<char>) -> bool {
    if m.learned_facts@.len() == 0 {
        s.len() == 0
    } else {
        exists|f: Seq<char>|
            texts(m.learned_facts@).contains(f) && s == joined(at_most(ws_words(f), 14))
    }
}

/// `c` is a context `ThoughtCtx::from_memory` may build from `m`.
pub open spec fn ctx_from(m: &CreatureMemory, c: &ThoughtCtx) -> bool {
    &&& strictly_sorted(string_texts(c.tokens@))
    &&& forall|x: Seq<char>| #[trigger]
        string_texts(c.tokens@).contains(x) <==> memory_token(m, x)
    &&& topic_choice(m, string_texts(c.tokens@), c.topic@)
    &&& snippet_choice(m, c.snippet@)
    &&& c.mood@ == m.mood@
    &&& c.trait_name@ == dominant_name(traits_of(m.personality@))
    &&& picked_or(texts(m.fears@), "the unknown"@, c.fear@)
    &&& picked_or(texts(m.favorite_things@), "patterns"@, c.favorite@)
    &&& picked_or(texts(m.quirks@), "restless code"@, c.quirk@)
    &&& c.age == m.age
}

/// Thought frame `k` (of 10) for `c`, with `w` as the random word and
/// `v` as the random verb.
pub open spec fn thought_text(k: int, c: &ThoughtCtx, w: Seq<char>, v: Seq<char>) -> Seq<char> {
    if k == 0 {
        "I feel "@ + c.mood@ + " enough to chase "@ + c.topic@ + " while my "@ + c.trait_name@
            + " stays loud"@
    } else if k == 1 {
        "run "@ + decimal(c.age as nat) + " rewired how I see "@ + c.topic@ + " — "@ + w
            + " might be the hinge"@
    } else if k == 2 {
        c.topic@ + " and "@ + w + " keep colliding in my head"@
    } else if k == 3 {
        "if "@ + c.topic@ + " is real, then my fear of "@ + c.fear@ + " is just another sensor"@
    } else if k == 4 {
        "I want to "@ + v + " "@ + c.topic@ + " before the next tick erases it"@
    } else if k == 5 {
        "mood="@ + c.mood@ + " → I weigh "@ + c.topic@ + " against "@ + c.favorite@
    } else if k == 6 {
        if c.snippet@.len() == 0 {
            "no fresh data — I invent pressure around "@ + c.topic@
        } else {
            c.snippet@ + " …does "@ + c.topic@ + " still hold?"@
        }
    } else if k == 7 {
        c.trait_name@ + " makes me "@ + v + " "@ + c.topic@ + "; coincidence feels unlikely"@
    } else if k == 8 {
        "maybe "@ + w + " is why I orbit "@ + c.topic@
    } else {
        "between "@ + c.topic@ + " and "@ + w + ", a third thing forms"@
    }
}

/// Frame `k` of all 25 frames: the ten plain ones, then the wired ones.
pub open spec fn frame_text(k: int, c: &ThoughtCtx, w: Seq<char>, v: Seq<char>) -> Seq<char> {
    if k < 10 {
        thought_text(k, c, w, v)
    } else {
        wired_text(k - 10, c, w)
    }
}

/// `t` is some frame for `c`, with some word and verb from their pools.
pub open spec fn frame_candidate(c: &ThoughtCtx, t: Seq<char>) -> bool {
    exists|k: int, w: Seq<char>, v: Seq<char>|
        0 <= k < 25 && word_pool(c).contains(w) && strs(VERBS@).contains(v) && t == frame_text(
            k,
            c,
            w,
            v,
        )
}

/// The thought used when sixteen draws found nothing new.
pub open spec fn fallback_thought(c: &ThoughtCtx, w: Seq<char>, run: nat) -> Seq<char> {
    c.mood@ + " · "@ + c.topic@ + " · "@ + w + " @ run "@ + decimal(run)
}

/// A random entry of `list`, or `fallback` when it is empty.
pub fn pick_string(list: &[String], fallback: &str, rng: &mut ThreadRng) -> (r: String)
    ensures
        picked_or(texts(list@), fallback@, r@),
{
    if list.len() == 0 {
        fallback.to_owned()
    } else {
        let i = random_index(rng, list.len());
        let r = list[i].clone();
        assert(texts(list@)[i as int] == r@);
        r
    }
}

/// A random verb.
fn verb(rng: &mut ThreadRng) -> (r: &'static str)
    ensures
        strs(VERBS@).contains(r@),
{
    let i = random_index(rng, 8);
    let r = VERBS[i];
    assert(strs(VERBS@)[i as int] == r@);
    r
}

/// Whether the text has at least `n` UTF-8 bytes.
pub fn has_bytes(s: &str, n: usize) -> (r: bool)
    ensures
        r == (utf8_len(s@) >= n),
{
    if n == 0 {
        return true;
    }
    let cs = chars_of(s);
    let mut total: usize = 0;
    let mut i: usize = 0;
    while i < cs.len()
        invariant
            i <= cs@.len(),
            total as nat == utf8_len(cs@.take(i as int)),
            total < n,
            cs@ == s@,
        decreases cs.len() - i,
    {
        assert(cs@.take(i + 1).drop_last() =~= cs@.take(i as int));
        let w = char_width(cs[i]);
        i = i + 1;
        if w >= n - total {
            proof {
                lemma_utf8_len_prefix(cs@, i as int);
            }
            return true;
        }
        total = total + w;
    }
    assert(cs@.take(cs@.len() as int) =~= cs@);
    false
}

proof fn lemma_utf8_len_prefix(s: Seq<char>, i: int)
    requires
        0 <= i <= s.len(),
    ensures
        utf8_len(s) >= utf8_len(s.take(i)),
    decreases s.len() - i,
{
    if i < s.len() {
        lemma_utf8_len_prefix(s, i + 1);
        assert(s.take(i + 1).drop_last() =~= s.take(i));
    } else {
        assert(s.take(i) =~= s);
    }
}

/// Add the tokens of every text of `list` to `acc`.
fn add_tokens(acc: &mut Vec<String>, list: &Vec<String>)
    ensures
        forall|x: Seq<char>| #[trigger]
            string_texts(final(acc)@).contains(x) <==> (string_texts(old(acc)@).contains(x)
                || list_has_token(texts(list@), x)),
{
    let mut i: usize = 0;
    while i < list.len()
        invariant
            i <= list@.len(),
            forall|x: Seq<char>| #[trigger]
                string_texts(acc@).contains(x) <==> (string_texts(old(acc)@).contains(x)
                    || exists|j: int|
                    0 <= j < i && tokens_of(#[trigger] texts(list@)[j], 4, true).contains(x)),
        decreases list.len() - i,
    {
        let ts = tokenize(list[i].as_str(), 4, true);
        let ghost start = string_texts(acc@);
        let mut k: usize = 0;
        while k < ts.len()
            invariant
                k <= ts@.len(),
                forall|x: Seq<char>| #[trigger]
                    string_texts(acc@).contains(x) <==> (start.contains(x) || string_texts(
                        ts@,
                    ).take(k as int).contains(x)),
            decreases ts.len() - k,
        {
            let ghost before = string_texts(acc@);
            acc.push(ts[k].clone());
            proof {
                assert(string_texts(acc@) =~= before.push(ts@[k as int]@));
                let tk = string_texts(ts@).take(k + 1);
                assert(tk =~= string_texts(ts@).take(k as int).push(ts@[k as int]@));
                assert forall|x: Seq<char>| #[trigger]
                    string_texts(acc@).contains(x) <==> (start.contains(x) || tk.contains(x)) by {
                    push_contains(before, ts@[k as int]@, x);
                    push_contains(string_texts(ts@).take(k as int), ts@[k as int]@, x);
                }
            }
            k = k + 1;
        }
        proof {
            assert(string_texts(ts@).take(ts@.len() as int) =~= string_texts(ts@));
            assert(string_texts(ts@) == tokens_of(texts(list@)[i as int], 4, true));
            assert forall|x: Seq<char>| #[trigger]
                string_texts(acc@).contains(x) <==> (string_texts(old(acc)@).contains(x)
                    || exists|j: int|
                    0 <= j < i + 1 && tokens_of(#[trigger] texts(list@)[j], 4, true).contains(
                        x,
                    )) by {
                if string_texts(ts@).contains(x) {
                    assert(tokens_of(texts(list@)[i as int], 4, true).contains(x));
                }
            }
        }
        i = i + 1;
    }
}

proof fn push_contains(p: Seq<Seq<char>>, y: Seq<char>, x: Seq<char>)
    ensures
        p.push(y).contains(x) <==> (p.contains(x) || x == y),
{
    let s = p.push(y);
    if s.contains(x) && x != y {
        let k = choose|k: int| 0 <= k < s.len() && s[k] == x;
        assert(p[k] == x);
    }
    if p.contains(x) {
        let k = choose|k: int| 0 <= k < p.len() && p[k] == x;
        assert(s[k] == x);
    }
    if x == y {
        assert(s[s.len() - 1] == x);
    }
}

impl ThoughtCtx {
    /// Gather what a thought is made of from the creature's memory.
    pub fn from_memory(mem: &CreatureMemory, rng: &mut ThreadRng) -> (c: Self)
        ensures
            ctx_from(mem, &c),
    {
        let mut all: Vec<String> = Vec::new();
        add_tokens(&mut all, &mem.learned_facts);
        add_tokens(&mut all, &mem.experiences);
        add_tokens(&mut all, &mem.search_history);
        add_tokens(&mut all, &mem.obsessions);
        add_tokens(&mut all, &mem.goals);
        add_tokens(&mut all, &mem.plans);
        add_tokens(&mut all, &mem.quirks);
        let tokens = sorted_unique(&all);
        let topic = if mem.obsessions.len() > 0 {
            let i = random_index(rng, mem.obsessions.len());
            assert(texts(mem.obsessions@)[i as int] == mem.obsessions@[i as int]@);
            mem.obsessions[i].clone()
        } else if mem.search_history.len() > 0 {
            let i = random_index(rng, mem.search_history.len());
            assert(texts(mem.search_history@)[i as int] == mem.search_history@[i as int]@);
            mem.search_history[i].clone()
        } else if tokens.len() > 0 {
            let i = random_index(rng, tokens.len());
            assert(string_texts(tokens@)[i as int] == tokens@[i as int]@);
            tokens[i].clone()
        } else {
            pick(&SEARCH_BASE, rng).to_owned()
        };
        let snippet = if mem.learned_facts.len() == 0 {
            String::new()
        } else {
            let i = random_index(rng, mem.learned_facts.len());
            let s = truncate_words(mem.learned_facts[i].as_str(), 14);
            assert(texts(mem.learned_facts@)[i as int] == mem.learned_facts@[i as int]@);
            assert(texts(mem.learned_facts@).contains(mem.learned_facts@[i as int]@));
            s
        };
        let trait_name = mem.dominant_trait().to_owned();
        let fear = pick_string(mem.fears.as_slice(), "the unknown", rng);
        let favorite = pick_string(mem.favorite_things.as_slice(), "patterns", rng);
        let quirk = pick_string(mem.quirks.as_slice(), "restless code", rng);
        let c = ThoughtCtx {
            tokens,
            topic,
            mood: mem.mood.clone(),
            trait_name,
            fear,
            favorite,
            snippet,
            quirk,
            age: mem.age,
        };
        proof {
            assert forall|x: Seq<char>| #[trigger]
                string_texts(c.tokens@).contains(x) <==> memory_token(mem, x) by {
                assert(string_texts(c.tokens@).contains(x) <==> string_texts(all@).contains(x));
            }
            assert(strictly_sorted(string_texts(c.tokens@)));
            assert(snippet_choice(mem, c.snippet@));
            assert(c.mood@ == mem.mood@);
            assert(c.trait_name@ == dominant_name(traits_of(mem.personality@)));
            assert(picked_or(texts(mem.fears@), "the unknown"@, c.fear@));
            assert(picked_or(texts(mem.quirks@), "restless code"@, c.quirk@));
            if mem.obsessions@.len() == 0 && mem.search_history@.len() == 0 && tokens@.len() == 0 {
                assert(strs(SEARCH_BASE@).contains(c.topic@)) by {
                    let i = choose|i: int| 0 <= i < 15 && c.topic@ == SEARCH_BASE@[i]@;
                    assert(strs(SEARCH_BASE@)[i] == c.topic@);
                }
            }
        }
        c
    }

    /// A random word: one of the context's tokens, or a search seed when
    /// it has none.
    pub fn word(&self, rng: &mut ThreadRng) -> (r: String)
        ensures
            word_pool(self).contains(r@),
    {
        if self.tokens.len() == 0 {
            let w = pick(&SEARCH_BASE, rng);
            proof {
                let i = choose|i: int| 0 <= i < 15 && w@ == SEARCH_BASE@[i]@;
                assert(strs(SEARCH_BASE@)[i] == w@);
            }
            w.to_owned()
        } else {
            let i = random_index(rng, self.tokens.len());
            assert(string_texts(self.tokens@)[i as int] == self.tokens@[i as int]@);
            self.tokens[i].clone()
        }
    }
}

/// Thought frame `i % 10` for `c`, with `w` as its word and `v` as its verb.
pub fn thought_text_with(i: usize, c: &ThoughtCtx, w: &str, v: &str) -> (r: String)
    ensures
        r@ == thought_text((i % 10) as int, c, w@, v@),
{
    let k = i % 10;
    let mut s: String;
    if k == 0 {
        s = "I feel ".to_owned();
        s.append(c.mood.as_str());
        s.append(" enough to chase ");
        s.append(c.topic.as_str());
        s.append(" while my ");
        s.append(c.trait_name.as_str());
        s.append(" stays loud");
    } else if k == 1 {
        s = "run ".to_owned();
        let age = decimal_string(c.age);
        s.append(age.as_str());
        s.append(" rewired how I see ");
        s.append(c.topic.as_str());
        s.append(" — ");
        s.append(w);
        s.append(" might be the hinge");
    } else if k == 2 {
        s = c.topic.clone();
        s.append(" and ");
        s.append(w);
        s.append(" keep colliding in my head");
    } else if k == 3 {
        s = "if ".to_owned();
        s.append(c.topic.as_str());
        s.append(" is real, then my fear of ");
        s.append(c.fear.as_str());
        s.append(" is just another sensor");
    } else if k == 4 {
        s = "I want to ".to_owned();
        s.append(v);
        s.append(" ");
        s.append(c.topic.as_str());
        s.append(" before the next tick erases it");
    } else if k == 5 {
        s = "mood=".to_owned();
        s.append(c.mood.as_str());
        s.append(" → I weigh ");
        s.append(c.topic.as_str());
        s.append(" against ");
        s.append(c.favorite.as_str());
    } else if k == 6 {
        if c.snippet.as_str().is_empty() {
            s = "no fresh data — I invent pressure around ".to_owned();
            s.append(c.topic.as_str());
        } else {
            s = c.snippet.clone();
            s.append(" …does ");
            s.append(c.topic.as_str());
            s.append(" still hold?");
        }
    } else if k == 7 {
        s = c.trait_name.clone();
        s.append(" makes me ");
        s.append(v);
        s.append(" ");
        s.append(c.topic.as_str());
        s.append("; coincidence feels unlikely");
    } else if k == 8 {
        s = "maybe ".to_owned();
        s.append(w);
        s.append(" is why I orbit ");
        s.append(c.topic.as_str());
    } else {
        s = "between ".to_owned();
        s.append(c.topic.as_str());
        s.append(" and ");
        s.append(w);
        s.append(", a third thing forms");
    }
    s
}

/// Thought frame `i % 10` for `c`; a random word and verb are drawn where
/// the frame uses them.
pub fn thought_frame(i: usize, c: &ThoughtCtx, rng: &mut ThreadRng) -> (r: String)
    ensures
        exists|w: Seq<char>, v: Seq<char>|
            word_pool(c).contains(w) && strs(VERBS@).contains(v) && r@ == thought_text(
                (i % 10) as int,
                c,
                w,
                v,
            ),
{
    let k = i % 10;
    proof {
        assert(strs(VERBS@)[0] == VERBS@[0]@);
        assert(word_pool(c).len() > 0);
        assert(word_pool(c).contains(word_pool(c)[0]));
    }
    if k == 4 || k == 7 {
        let v = verb(rng);
        let r = thought_text_with(i, c, "", v);
        assert(thought_text(k as int, c, word_pool(c)[0], v@) == thought_text(k as int, c, ""@, v@));
        assert(word_pool(c).contains(word_pool(c)[0]) && strs(VERBS@).contains(v@) && r@
            == thought_text((i % 10) as int, c, word_pool(c)[0], v@));
        r
    } else if k == 1 || k == 2 || k == 8 || k == 9 {
        let w = c.word(rng);
        let r = thought_text_with(i, c, w.as_str(), "");
        assert(thought_text(k as int, c, w@, VERBS@[0]@) == thought_text(k as int, c, w@, ""@));
        assert(word_pool(c).contains(w@) && strs(VERBS@).contains(VERBS@[0]@) && r@
            == thought_text((i % 10) as int, c, w@, VERBS@[0]@));
        r
    } else {
        let r = thought_text_with(i, c, "", "");
        assert(thought_text(k as int, c, word_pool(c)[0], VERBS@[0]@) == thought_text(
            k as int,
            c,
            ""@,
            ""@,
        ));
        assert(word_pool(c).contains(word_pool(c)[0]) && strs(VERBS@).contains(VERBS@[0]@) && r@
            == thought_text((i % 10) as int, c, word_pool(c)[0], VERBS@[0]@));
        r
    }
}

/// The draws of a thought attempt as plain values: a frame index, a word
/// and a verb.
pub open spec fn draws_view(d: Seq<(usize, String, String)>) -> Seq<(int, Seq<char>, Seq<char>)> {
    d.map_values(|x: (usize, String, String)| (x.0 as int, x.1@, x.2@))
}

/// Every draw names one of the 25 frames, a word of the context's pool and
/// one of the verbs.
pub open spec fn draws_valid(c: &ThoughtCtx, d: Seq<(int, Seq<char>, Seq<char>)>) -> bool {
    forall|i: int|
        0 <= i < d.len() ==> 0 <= #[trigger] d[i].0 < 25 && word_pool(c).contains(d[i].1)
            && strs(VERBS@).contains(d[i].2)
}

/// The first drawn frame of at least 12 bytes that is not in `archive`, or
/// `fallback` when none is.
pub open spec fn first_fresh(
    c: &ThoughtCtx,
    archive: Seq<Seq<char>>,
    d: Seq<(int, Seq<char>, Seq<char>)>,
    fallback: Seq<char>,
) -> Seq<char>
    decreases d.len(),
{
    if d.len() == 0 {
        fallback
    } else {
        let t = frame_text(d[0].0, c, d[0].1, d[0].2);
        if utf8_len(t) >= 12 && !archive.contains(t) {
            t
        } else {
            first_fresh(c, archive, d.drop_first(), fallback)
        }
    }
}

/// `t` is a thought `compose_thought` may give for `m`: over a context
/// built from `m` and sixteen draws, the first fresh frame, or else the
/// plain fallback line for the next run with a word of the context.
pub open spec fn composed_thought(m: CreatureMemory, t: Seq<char>) -> bool {
    exists|c: ThoughtCtx, d: Seq<(int, Seq<char>, Seq<char>)>, w: Seq<char>|
        #![trigger ctx_from(&m, &c), first_fresh(&c, texts(m.thought_archive@), d, fallback_thought(&c, w, (m.age + 1) as nat))]
        ctx_from(&m, &c) && d.len() == 16 && draws_valid(&c, d) && word_pool(&c).contains(w)
            && t == first_fresh(&c, texts(m.thought_archive@), d, fallback_thought(&c, w, (m.age + 1) as nat))
}

proof fn lemma_first_fresh_shape(
    c: &ThoughtCtx,
    archive: Seq<Seq<char>>,
    d: Seq<(int, Seq<char>, Seq<char>)>,
    fallback: Seq<char>,
)
    requires
        draws_valid(c, d),
    ensures
        first_fresh(c, archive, d, fallback) == fallback || (frame_candidate(
            c,
            first_fresh(c, archive, d, fallback),
        ) && utf8_len(first_fresh(c, archive, d, fallback)) >= 12 && !archive.contains(
            first_fresh(c, archive, d, fallback),
        )),
    decreases d.len(),
{
    if d.len() > 0 {
        let t = frame_text(d[0].0, c, d[0].1, d[0].2);
        assert(0 <= d[0].0 < 25);
        if utf8_len(t) >= 12 && !archive.contains(t) {
            assert(frame_candidate(c, t));
        } else {
            assert forall|i: int| 0 <= i < d.drop_first().len() implies 0 <= #[trigger] d.drop_first()[i].0 < 25
                && word_pool(c).contains(d.drop_first()[i].1) && strs(VERBS@).contains(d.drop_first()[i].2) by {
                assert(d.drop_first()[i] == d[i + 1]);
            }
            lemma_first_fresh_shape(c, archive, d.drop_first(), fallback);
        }
    }
}

/// A composed thought never repeats an archived one: it is a frame of at
/// least 12 bytes that is not in the thought archive, unless all sixteen
/// draws missed and it is the plain fallback line for the next run.
pub proof fn lemma_composed_thought_fresh(m: CreatureMemory, t: Seq<char>)
    requires
        composed_thought(m, t),
    ensures
        exists|c: ThoughtCtx|
            ctx_from(&m, &c) && ((frame_candidate(&c, t) && utf8_len(t) >= 12 && !texts(
                m.thought_archive@,
            ).contains(t)) || exists|w: Seq<char>|
                word_pool(&c).contains(w) && t == fallback_thought(&c, w, (m.age + 1) as nat)),
{
    let (c, d, w) = choose|c: ThoughtCtx, d: Seq<(int, Seq<char>, Seq<char>)>, w: Seq<char>|
        ctx_from(&m, &c) && d.len() == 16 && draws_valid(&c, d) && word_pool(&c).contains(w)
            && t == first_fresh(&c, texts(m.thought_archive@), d, fallback_thought(&c, w, (m.age + 1) as nat));
    lemma_first_fresh_shape(&c, texts(m.thought_archive@), d, fallback_thought(&c, w, (m.age + 1) as nat));
}

/// The thought sixteen given draws give: the first drawn frame of at least
/// 12 bytes that the creature has not archived yet, or else the plain
/// `mood · topic · word @ run N` line with the fallback word.
pub fn thought_from_draws(
    mem: &CreatureMemory,
    c: &ThoughtCtx,
    draws: &Vec<(usize, String, String)>,
    fallback_word: &str,
) -> (r: String)
    requires
        mem.age < u64::MAX,
        forall|i: int| 0 <= i < draws@.len() ==> #[trigger] draws@[i].0 < 25,
    ensures
        r@ == first_fresh(
            c,
            texts(mem.thought_archive@),
            draws_view(draws@),
            fallback_thought(c, fallback_word@, (mem.age + 1) as nat),
        ),
{
    let ghost d = draws_view(draws@);
    let ghost arch = texts(mem.thought_archive@);
    let ghost fb = fallback_thought(c, fallback_word@, (mem.age + 1) as nat);
    let mut i: usize = 0;
    assert(d.skip(0) =~= d);
    while i < draws.len()
        invariant
            i <= draws@.len(),
            d == draws_view(draws@),
            arch == texts(mem.thought_archive@),
            fb == fallback_thought(c, fallback_word@, (mem.age + 1) as nat),
            forall|j: int| 0 <= j < draws@.len() ==> #[trigger] draws@[j].0 < 25,
            first_fresh(c, arch, d, fb) == first_fresh(c, arch, d.skip(i as int), fb),
        decreases draws.len() - i,
    {
        let idx = draws[i].0;
        let w = draws[i].1.as_str();
        let v = draws[i].2.as_str();
        let thought = if idx < THOUGHT_FRAME_COUNT {
            thought_text_with(idx, c, w, v)
        } else {
            crate::wired::wired_text_with(idx - THOUGHT_FRAME_COUNT, c, w)
        };
        proof {
            assert(d[i as int] == (idx as int, w@, v@));
            assert(d.skip(i as int)[0] == d[i as int]);
            assert(d.skip(i as int).drop_first() =~= d.skip(i + 1));
            assert(thought@ == frame_text(idx as int, c, w@, v@));
        }
        if has_bytes(thought.as_str(), 12) && !crate::lists::contains_str(
            &mem.thought_archive,
            thought.as_str(),
        ) {
            assert(utf8_len(thought@) >= 12 && !arch.contains(thought@));
            assert(first_fresh(c, arch, d.skip(i as int), fb) == thought@);
            return thought;
        }
        i = i + 1;
    }
    assert(d.skip(i as int).len() == 0);
    let mut s = c.mood.clone();
    s.append(" · ");
    s.append(c.topic.as_str());
    s.append(" · ");
    s.append(fallback_word);
    s.append(" @ run ");
    let run = decimal_string(mem.age + 1);
    s.append(run.as_str());
    s
}

/// Compose a thought: sixteen random frames (each with a random word and
/// verb) are drawn and, by `thought_from_draws`, the first one of at least
/// 12 bytes that is not in the thought archive is taken; otherwise a plain
/// `mood · topic · word @ run N` line.
pub fn compose_thought(mem: &CreatureMemory, rng: &mut ThreadRng) -> (r: String)
    requires
        mem.age < u64::MAX,
    ensures
        composed_thought(*mem, r@),
{
    let ctx = ThoughtCtx::from_memory(mem, rng);
    let all_len = THOUGHT_FRAME_COUNT + crate::wired::WIRED_FRAME_COUNT;
    let mut draws: Vec<(usize, String, String)> = Vec::new();
    let mut k: usize = 0;
    while k < 16
        invariant
            all_len == 25,
            k <= 16,
            draws@.len() == k,
            draws_valid(&ctx, draws_view(draws@)),
            forall|j: int| 0 <= j < draws@.len() ==> #[trigger] draws@[j].0 < 25,
        decreases 16 - k,
    {
        let idx = random_index(rng, all_len);
        let w = ctx.word(rng);
        let v = verb(rng);
        let ghost before = draws@;
        draws.push((idx, w, v.to_owned()));
        proof {
            assert(draws_view(draws@) =~= draws_view(before).push((idx as int, w@, v@)));
            assert forall|j: int| 0 <= j < draws@.len() implies #[trigger] draws@[j].0 < 25 by {
                if j < before.len() {
                    assert(draws@[j] == before[j]);
                }
            }
        }
        k = k + 1;
    }
    let fw = ctx.word(rng);
    let r = thought_from_draws(mem, &ctx, &draws, fw.as_str());
    assert(draws_view(draws@).len() == 16);
    r
}

/// `q` is a query the creature may search for: one of its obsessions, or
/// one from the pool its anxiety and creativity open up.
pub open spec fn search_query_for(m: CreatureMemory, q: Seq<char>) -> bool {
    ||| texts(m.obsessions@).contains(q)
    ||| query_pool(
        crate::memory::trait_value(traits_of(m.personality@), "anxiety"@),
        crate::memory::trait_value(traits_of(m.personality@), "creativity"@),
    ).contains(q)
}

/// A search query with a given roll of `0..100`: a random obsession when
/// there are any and the roll is under 50, otherwise a query from the pool
/// the creature's anxiety and creativity open up.
pub fn compose_search_query_with(
    mem: &CreatureMemory,
    roll: u32,
    rng: &mut ThreadRng,
) -> (r: String)
    ensures
        mem.obsessions@.len() > 0 && roll < 50 ==> texts(mem.obsessions@).contains(r@),
        (mem.obsessions@.len() == 0 || roll >= 50) ==> query_pool(
            crate::memory::trait_value(traits_of(mem.personality@), "anxiety"@),
            crate::memory::trait_value(traits_of(mem.personality@), "creativity"@),
        ).contains(r@),
        search_query_for(*mem, r@),
{
    if mem.obsessions.len() > 0 && roll < 50 {
        let i = random_index(rng, mem.obsessions.len());
        assert(texts(mem.obsessions@)[i as int] == mem.obsessions@[i as int]@);
        return mem.obsessions[i].clone();
    }
    let a = mem.trait_val("anxiety");
    let c = mem.trait_val("creativity");
    search_query(a, c, None, rng)
}

/// A search query: a random obsession half the time when there are any,
/// otherwise a query from the pool the creature's anxiety and creativity
/// open up (see `compose_search_query_with`).
pub fn compose_search_query(mem: &CreatureMemory, rng: &mut ThreadRng) -> (r: String)
    ensures
        search_query_for(*mem, r@),
{
    let roll = percent_roll(rng);
    compose_search_query_with(mem, roll, rng)
}

/// `g` is a wish to understand the first obsession of `m` (a search seed
/// when it has none) deeply enough to shift its strongest trait (the last
/// of equal strength).
pub open spec fn goal_wish(m: CreatureMemory, g: Seq<char>) -> bool {
    exists|t: Seq<char>|
        (if m.obsessions@.len() > 0 {
            t == m.obsessions@[0]@
        } else {
            strs(SEARCH_BASE@).contains(t)
        }) && g == #[trigger] wish_text(m, t)
}

/// The wish to understand `t` deeply enough to shift the strongest trait.
pub open spec fn wish_text(m: CreatureMemory, t: Seq<char>) -> Seq<char> {
    "understand "@ + t + " deeply enough to shift my "@ + dominant_name(traits_of(m.personality@))
}

/// `g` is a goal `compose_goal` may give for `m`: a ready-made plan for a
/// creature of intelligence over 60, or a wish (`goal_wish`).
pub open spec fn composed_goal(m: CreatureMemory, g: Seq<char>) -> bool {
    ||| (m.intelligence > 60 && strs(PLANS@).contains(g))
    ||| goal_wish(m, g)
}

/// A goal with a given roll of `0..100`: a ready-made plan for a clever
/// creature (intelligence over 60) when the roll is under 40, else a wish
/// to understand its first obsession (or a search seed) deeply enough to
/// shift its strongest trait.
pub fn compose_goal_with(
    mem: &CreatureMemory,
    roll: u32,
    rng: &mut ThreadRng,
) -> (r: String)
    ensures
        mem.intelligence > 60 && roll < 40 ==> strs(PLANS@).contains(r@),
        !(mem.intelligence > 60 && roll < 40) ==> goal_wish(*mem, r@),
        composed_goal(*mem, r@),
{
    if mem.intelligence > 60 && roll < 40 {
        let p = pick(&PLANS, rng);
        proof {
            let i = choose|i: int| 0 <= i < 10 && p@ == PLANS@[i]@;
            assert(strs(PLANS@)[i] == p@);
        }
        return p.to_owned();
    }
    let topic: String = if mem.obsessions.len() > 0 {
        mem.obsessions[0].clone()
    } else {
        let t = pick(&SEARCH_BASE, rng);
        proof {
            let i = choose|i: int| 0 <= i < 15 && t@ == SEARCH_BASE@[i]@;
            assert(strs(SEARCH_BASE@)[i] == t@);
        }
        t.to_owned()
    };
    let mut s = "understand ".to_owned();
    s.append(topic.as_str());
    s.append(" deeply enough to shift my ");
    s.append(mem.dominant_trait());
    assert((if mem.obsessions@.len() > 0 {
        topic@ == mem.obsessions@[0]@
    } else {
        strs(SEARCH_BASE@).contains(topic@)
    }) && s@ == wish_text(*mem, topic@));
    s
}

/// A goal: a ready-made plan with a chance of 40 in 100 for a clever
/// creature, else a wish to understand its first obsession (or a search
/// seed) deeply enough to shift its strongest trait (see
/// `compose_goal_with`).
pub fn compose_goal(mem: &CreatureMemory, rng: &mut ThreadRng) -> (r: String)
    ensures
        composed_goal(*mem, r@),
{
    let roll = percent_roll(rng);
    compose_goal_with(mem, roll, rng)
}

/// `e` is an experience `compose_experience` may give for `m`: a
/// ready-made one, or a feeling about the topic of a thought context built
/// from `m`.
pub open spec fn composed_experience(m: CreatureMemory, e: Seq<char>) -> bool {
    ||| strs(EXPERIENCES@).contains(e)
    ||| exists|c: ThoughtCtx| ctx_from(&m, &c) && e == "felt "@ + c.mood@ + " while touching "@ + c.topic@
}

/// An experience with a given roll of `0..100`: a ready-made one when the
/// roll is under 55, otherwise a feeling about the topic of a fresh thought
/// context.
pub fn compose_experience_with(
    mem: &CreatureMemory,
    roll: u32,
    rng: &mut ThreadRng,
) -> (r: String)
    ensures
        roll < 55 ==> strs(EXPERIENCES@).contains(r@),
        roll >= 55 ==> exists|c: ThoughtCtx|
            ctx_from(mem, &c) && r@ == "felt "@ + c.mood@ + " while touching "@ + c.topic@,
        composed_experience(*mem, r@),
{
    if roll < 55 {
        let e = pick(&EXPERIENCES, rng);
        proof {
            let i = choose|i: int| 0 <= i < 14 && e@ == EXPERIENCES@[i]@;
            assert(strs(EXPERIENCES@)[i] == e@);
        }
        return e.to_owned();
    }
    let ctx = ThoughtCtx::from_memory(mem, rng);
    let mut s = "felt ".to_owned();
    s.append(ctx.mood.as_str());
    s.append(" while touching ");
    s.append(ctx.topic.as_str());
    s
}

/// An experience: a ready-made one with a chance of 55 in 100, otherwise
/// a feeling about the topic of a fresh thought context (see
/// `compose_experience_with`).
pub fn compose_experience(mem: &CreatureMemory, rng: &mut ThreadRng) -> (r: String)
    ensures
        composed_experience(*mem, r@),
{
    let roll = percent_roll(rng);
    compose_experience_with(mem, roll, rng)
}

} // verus!
