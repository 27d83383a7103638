//! Which evolution subsystems are switched on.

use vstd::prelude::*;

verus! {

/// Toggleable evolution subsystems — all off by default for stability.
#[derive(Debug, Clone, Copy)]
pub struct EvolutionConfig {
    pub internet: bool,
    pub memory_decay: bool,
    pub society: bool,
    pub habits: bool,
    pub priorities: bool,
    pub dreams: bool,
    pub rituals: bool,
    pub expression: bool,
    pub leaps: bool,
}

/// Whether any subsystem of `c` is on.
pub open spec fn any_on(c: EvolutionConfig) -> bool {
    c.internet || c.memory_decay || c.society || c.habits || c.priorities || c.dreams || c.rituals
        || c.expression || c.leaps
}

/// Every subsystem of `c` is set to `b`.
pub open spec fn all_set(c: EvolutionConfig, b: bool) -> bool {
    &&& c.internet == b
    &&& c.memory_decay == b
    &&& c.society == b
    &&& c.habits == b
    &&& c.priorities == b
    &&& c.dreams == b
    &&& c.rituals == b
    &&& c.expression == b
    &&& c.leaps == b
}

impl EvolutionConfig {
    /// Every subsystem off.
    pub fn none() -> (c: Self)
        ensures
            all_set(c, false),
    {
        Self {
            internet: false,
            memory_decay: false,
            society: false,
            habits: false,
            priorities: false,
            dreams: false,
            rituals: false,
            expression: false,
            leaps: false,
        }
    }

    /// Every subsystem on.
    pub fn all() -> (c: Self)
        ensures
            all_set(c, true),
    {
        Self {
            internet: true,
            memory_decay: true,
            society: true,
            habits: true,
            priorities: true,
            dreams: true,
            rituals: true,
            expression: true,
            leaps: true,
        }
    }

    /// Whether at least one subsystem is on.
    pub fn any(&self) -> (r: bool)
        ensures
            r == any_on(*self),
    {
        self.internet || self.memory_decay || self.society || self.habits || self.priorities
            || self.dreams || self.rituals || self.expression || self.leaps
    }

    /// The configuration the command line asks for: everything when
    /// `evolution` is set, otherwise exactly the flags given.
    pub fn from_cli(
        evolution: bool,
        internet: bool,
        memory_decay: bool,
        society: bool,
        habits: bool,
        priorities: bool,
        dreams: bool,
        rituals: bool,
        expression: bool,
        leaps: bool,
    ) -> (c: Self)
        ensures
            evolution ==> all_set(c, true),
            !evolution ==> c == (EvolutionConfig {
                internet,
                memory_decay,
                society,
                habits,
                priorities,
                dreams,
                rituals,
                expression,
                leaps,
            }),
    {
        if evolution {
            return Self::all();
        }
        Self {
            internet,
            memory_decay,
            society,
            habits,
            priorities,
            dreams,
            rituals,
            expression,
            leaps,
        }
    }
}

/// With every subsystem off nothing is active; with every subsystem on
/// something is.
pub proof fn lemma_none_all(a: EvolutionConfig, b: EvolutionConfig)
    requires
        all_set(a, false),
        all_set(b, true),
    ensures
        !any_on(a),
        any_on(b),
{
}

} // verus!
