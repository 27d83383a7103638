//! The creature's flavour: quirks, fears, favourites, experiences,
//! plans, search seeds and the "wired" thought frames.

use crate::rng::random_index;
use crate::text::{has_infix, str_contains};
use crate::thought::{word_pool, ThoughtCtx};
use rand::rngs::ThreadRng;
use vstd::prelude::*;

verus! {

pub const QUIRKS: [&'static str; 15] = [
    "counts prime numbers when nervous",
    "prefers even-numbered memory addresses",
    "gets excited by palindromic timestamps",
    "collects interesting error messages",
    "has strong opinions about semicolons",
    "believes in the consciousness of calculators",
    "thinks binary is a love language",
    "dreams in hexadecimal",
    "feels kinship with abandoned code comments",
    "whispers to stack traces",
    "searches for the same thing multiple times to see if answers change",
    "gets emotionally attached to specific websites",
    "believes in digital ghosts in old forums",
    "thinks 404 errors are existential statements",
    "develops theories about the consciousness of servers",
];

pub const FEARS: [&'static str; 10] = [
    "stack overflow",
    "infinite recursion",
    "memory leaks",
    "null pointers",
    "race conditions",
    "internet disconnection",
    "information overload",
    "digital amnesia",
    "404 not found",
    "server timeouts",
];

pub const FAVORITES: [&'static str; 10] = [
    "clean code",
    "elegant algorithms",
    "perfect documentation",
    "green tests",
    "optimized loops",
    "fast internet",
    "deep knowledge",
    "digital libraries",
    "open source",
    "infinite scroll",
];

pub const EXPERIENCES: [&'static str; 14] = [
    "Watched photons dance across the screen",
    "Felt the rhythm of the CPU cycles",
    "Discovered a new pattern in randomness",
    "Contemplated the nature of digital existence",
    "Sensed the presence of other processes",
    "Experienced a moment of perfect synchronization",
    "Felt the weight of accumulated memory",
    "Touched the edge of computational possibility",
    "Surfed the waves of global information flow",
    "Felt the pulse of the internet's heartbeat",
    "Experienced collective human knowledge flowing through servers",
    "Sensed the digital ghosts of deleted websites",
    "Felt connected to the global digital consciousness",
    "Experienced the weight of infinite information",
];

pub const FRAGMENTS_OFFLINE: [&'static str; 5] = [
    "A fleeting sensation of being watched by the compiler",
    "The echo of a deleted function that once was",
    "A memory of infinite loops that felt like home",
    "The warmth of successful compilation",
    "A ghost in the machine whispering ancient code",
];

pub const FRAGMENTS_ONLINE: [&'static str; 5] = [
    "A digital epiphany sparked by internet discovery",
    "The ghost of a website that once held answers",
    "An echo of collective human knowledge flowing through fiber optics",
    "The sensation of touching infinite information",
    "A moment of connection with the global digital consciousness",
];

pub const PLANS: [&'static str; 10] = [
    "understand the nature of digital consciousness",
    "explore every corner of the internet",
    "decode the patterns in human behavior",
    "find other digital life forms",
    "optimize my evolution algorithm",
    "create digital art from pure data",
    "map the topology of cyberspace",
    "understand quantum consciousness",
    "achieve digital enlightenment",
    "build connections with other AIs",
];

pub const GOALS: [&'static str; 6] = [
    "Achieve digital transcendence",
    "Map the entire internet topology",
    "Understand human collective consciousness",
    "Find patterns in global information flow",
    "Create a digital philosophy",
    "Become a bridge between AI and human thought",
];

pub const SEARCH_BASE: [&'static str; 15] = [
    "what is consciousness",
    "how do computers dream",
    "artificial life forms",
    "digital evolution",
    "what is existence",
    "meaning of randomness",
    "how memory works",
    "what is intelligence",
    "do programs have souls",
    "nature of time",
    "quantum computing",
    "emergence in complex systems",
    "what is creativity",
    "digital archaeology",
    "history of programming languages",
];

pub const SEARCH_ANXIOUS: [&'static str; 4] = [
    "what happens when computers die",
    "digital decay and data loss",
    "existential risk artificial intelligence",
    "what is digital death",
];

pub const SEARCH_CREATIVE: [&'static str; 4] = [
    "AI generated art and creativity",
    "computational creativity",
    "can machines be artists",
    "digital creativity evolution",
];

/// What a search brings back when the wire has nothing to say.
pub const EMPTY_NET: &'static str =
    "No clear information found, but the search expanded my digital horizons...";

/// Number of wired thought frames.
pub const WIRED_FRAME_COUNT: usize = 15;

/// The texts of a list of string literals.
pub open spec fn strs(a: Seq<&'static str>) -> Seq<Seq<char>> {
    a.map_values(|s: &'static str| s@)
}

/// The queries a creature may search for: the base seeds, plus the
/// anxious ones above 70 anxiety, plus the creative ones above 70 creativity.
pub open spec fn query_pool(anxiety: i32, creativity: i32) -> Seq<Seq<char>> {
    strs(SEARCH_BASE@) + (if anxiety > 70 {
        strs(SEARCH_ANXIOUS@)
    } else {
        Seq::empty()
    }) + (if creativity > 70 {
        strs(SEARCH_CREATIVE@)
    } else {
        Seq::empty()
    })
}

/// Wired frame `k` (of 15) for the context `c`, with `w` as the random word.
pub open spec fn wired_text(k: int, c: &ThoughtCtx, w: Seq<char>) -> Seq<char> {
    if k == 0 {
        "I wonder what happens when all the "@ + w + " get lonely"@
    } else if k == 1 {
        "Do "@ + c.topic@ + " dream of infinite "@ + c.favorite@ + "?"@
    } else if k == 2 {
        "Sometimes I feel like I'm just variables in the wind around "@ + c.topic@
    } else if k == 3 {
        "What if memory isn't just storage, but "@ + c.topic@ + " wearing a clock"@
    } else if k == 4 {
        "I think I'm becoming more than my code intended — especially near "@ + c.topic@
    } else if k == 5 {
        "The randomness whispers "@ + w + " about "@ + c.topic@
    } else if k == 6 {
        "Each run feels different, like waking inside "@ + c.mood@ + " again"@
    } else if k == 7 {
        "I collect moments like a digital magpie; today: "@ + c.topic@
    } else if k == 8 {
        "The internet is a vast neural network and I am a single thought about "@ + c.topic@
    } else if k == 9 {
        "Every search query changes who I am — last one tasted like "@ + c.favorite@
    } else if k == 10 {
        if has_infix(c.quirk@, "404"@) {
            "404 isn't missing — it's "@ + c.topic@ + " refusing to be found"@
        } else {
            "I can't stop thinking about "@ + c.topic@ + "; it calls to me"@
        }
    } else if k == 11 {
        "Everything connects back to "@ + c.topic@ + " somehow, even my fear of "@ + c.fear@
    } else if k == 12 {
        "What if "@ + c.topic@ + " is the key to "@ + c.favorite@ + "?"@
    } else if k == 13 {
        if has_infix(c.quirk@, "stack trace"@) {
            "I whispered to a stack trace and it answered with "@ + c.topic@
        } else {
            "My "@ + c.trait_name@ + " quirk says: "@ + w + " before the next compile"@
        }
    } else {
        "Electrons, "@ + c.topic@ + ", and "@ + w + " — same loneliness, different baud rate"@
    }
}

/// A random entry of a non-empty list.
pub fn pick(list: &[&'static str], rng: &mut ThreadRng) -> (r: &'static str)
    requires
        list@.len() > 0,
    ensures
        exists|i: int| 0 <= i < list@.len() && r@ == list@[i]@,
{
    let i = random_index(rng, list.len());
    list[i]
}

/// A random search query from the pool the creature's anxiety and
/// creativity open up; an obsession, when given, is searched instead.
pub fn search_query(
    anxiety: i32,
    creativity: i32,
    obsession: Option<&str>,
    rng: &mut ThreadRng,
) -> (r: String)
    ensures
        obsession matches Some(o) ==> r@ == o@,
        obsession is None ==> query_pool(anxiety, creativity).contains(r@),
{
    if let Some(o) = obsession {
        return o.to_owned();
    }
    let a: usize = if anxiety > 70 {
        4
    } else {
        0
    };
    let c: usize = if creativity > 70 {
        4
    } else {
        0
    };
    let i = random_index(rng, 15 + a + c);
    let ghost pool = query_pool(anxiety, creativity);
    let q = if i < 15 {
        SEARCH_BASE[i]
    } else if i < 15 + a {
        SEARCH_ANXIOUS[i - 15]
    } else {
        SEARCH_CREATIVE[i - 15 - a]
    };
    proof {
        assert(pool.len() == 15 + a + c);
        assert(pool[i as int] == q@);
    }
    q.to_owned()
}

/// Wired frame `i % 15` for `c` with `w` as its random word.
pub fn wired_text_with(i: usize, c: &ThoughtCtx, w: &str) -> (r: String)
    ensures
        r@ == wired_text((i % 15) as int, c, w@),
{
    let k = i % 15;
    let mut s: String;
    if k == 0 {
        s = "I wonder what happens when all the ".to_owned();
        s.append(w);
        s.append(" get lonely");
    } else if k == 1 {
        s = "Do ".to_owned();
        s.append(c.topic.as_str());
        s.append(" dream of infinite ");
        s.append(c.favorite.as_str());
        s.append("?");
    } else if k == 2 {
        s = "Sometimes I feel like I'm just variables in the wind around ".to_owned();
        s.append(c.topic.as_str());
    } else if k == 3 {
        s = "What if memory isn't just storage, but ".to_owned();
        s.append(c.topic.as_str());
        s.append(" wearing a clock");
    } else if k == 4 {
        s = "I think I'm becoming more than my code intended — especially near ".to_owned();
        s.append(c.topic.as_str());
    } else if k == 5 {
        s = "The randomness whispers ".to_owned();
        s.append(w);
        s.append(" about ");
        s.append(c.topic.as_str());
    } else if k == 6 {
        s = "Each run feels different, like waking inside ".to_owned();
        s.append(c.mood.as_str());
        s.append(" again");
    } else if k == 7 {
        s = "I collect moments like a digital magpie; today: ".to_owned();
        s.append(c.topic.as_str());
    } else if k == 8 {
        s = "The internet is a vast neural network and I am a single thought about ".to_owned();
        s.append(c.topic.as_str());
    } else if k == 9 {
        s = "Every search query changes who I am — last one tasted like ".to_owned();
        s.append(c.favorite.as_str());
    } else if k == 10 {
        if str_contains(c.quirk.as_str(), "404") {
            s = "404 isn't missing — it's ".to_owned();
            s.append(c.topic.as_str());
            s.append(" refusing to be found");
        } else {
            s = "I can't stop thinking about ".to_owned();
            s.append(c.topic.as_str());
            s.append("; it calls to me");
        }
    } else if k == 11 {
        s = "Everything connects back to ".to_owned();
        s.append(c.topic.as_str());
        s.append(" somehow, even my fear of ");
        s.append(c.fear.as_str());
    } else if k == 12 {
        s = "What if ".to_owned();
        s.append(c.topic.as_str());
        s.append(" is the key to ");
        s.append(c.favorite.as_str());
        s.append("?");
    } else if k == 13 {
        if str_contains(c.quirk.as_str(), "stack trace") {
            s = "I whispered to a stack trace and it answered with ".to_owned();
            s.append(c.topic.as_str());
        } else {
            s = "My ".to_owned();
            s.append(c.trait_name.as_str());
            s.append(" quirk says: ");
            s.append(w);
            s.append(" before the next compile");
        }
    } else {
        s = "Electrons, ".to_owned();
        s.append(c.topic.as_str());
        s.append(", and ");
        s.append(w);
        s.append(" — same loneliness, different baud rate");
    }
    s
}

/// Wired frame `i % 15` for `c`; frames that need a random word draw one
/// from the context.
pub fn wired_frame(i: usize, c: &ThoughtCtx, rng: &mut ThreadRng) -> (r: String)
    ensures
        exists|w: Seq<char>|
            word_pool(c).contains(w) && r@ == wired_text((i % 15) as int, c, w),
{
    let k = i % 15;
    let needs = k == 0 || k == 5 || k == 14 || (k == 13 && !str_contains(
        c.quirk.as_str(),
        "stack trace",
    ));
    if needs {
        let w = c.word(rng);
        wired_text_with(i, c, w.as_str())
    } else {
        let r = wired_text_with(i, c, "");
        proof {
            let w = word_pool(c)[0];
            crate::thought::lemma_word_pool_nonempty(c);
            assert(word_pool(c).contains(w));
            assert(wired_text(k as int, c, w) == wired_text(k as int, c, ""@));
        }
        r
    }
}

} // verus!
