# moxnode

Digital creatures that think, search the web, obsess, plan, write, mutate
and slowly grow habits, rituals and dreams. One creature loops forever, or a
swarm of them ticks in parallel.

## Layout

- `src/` — the library, verified with Verus. The creature's integer and
  text logic is here, each function with a contract: what a tick step does
  to the memory and which step an intent leads to, how thoughts, queries,
  goals and dreams are composed, when habits, rituals, dreams and leaps are
  due, how search reply bodies are read and their results ranked by hits,
  and the texts the creature writes about itself. Where a step rolls a
  chance, a variant taking the roll (`intent_for_roll`, `mutate_with`,
  `think_end_with`, `dream_decision`, `thought_from_draws` and the like)
  states exactly what each roll gives. The contracts are stated over plain
  models (`Seq<char>` for texts, sequences of texts for the lists). Laws
  that span functions are public proof functions or clauses in the
  `ensures` of the steps: lists stay within their caps and free of repeats,
  and trait and fragment keys stay distinct, through every step; tidying a
  memory twice is tidying it once; `dedupe` and `normalize_topic` are
  idempotent; and so on.
- `tests/` — tests of the library on concrete values.
- `app/` — the program: command line, files, HTTP, threads, printing, the
  order in which a tick runs its steps, and the parts of the evolution
  layer that work on floating-point strengths (memory decay, priorities,
  the inner voices, habit strength, expression, and the intent choice that
  weighs rituals, habits and the society's influence).

Randomness comes from `rand`, times from `time`, JSON reading from
`serde_json`, URL encoding from `urlencoding` and CPU counts from
`num_cpus`; each call goes through a small trusted wrapper whose contract
says what the crate documents.
