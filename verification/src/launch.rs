//! How many creatures a swarm runs, how many worker threads carry it, and
//! on which ticks it is saved and sampled.

use vstd::prelude::*;

verus! {

/// `num_cpus::get`: the number of logical CPUs of this machine, which the
/// crate documents as always at least 1. The number itself depends on the
/// machine and is not stated.
#[verifier::external_body]
fn available_cpus() -> (r: usize)
    ensures
        r >= 1,
{
    num_cpus::get()
}

/// `a * b`, or `usize::MAX` when the product does not fit.
pub open spec fn saturating_product(a: nat, b: nat) -> nat {
    if a * b > usize::MAX {
        usize::MAX as nat
    } else {
        a * b
    }
}

/// The larger of two numbers.
pub open spec fn larger(a: nat, b: nat) -> nat {
    if a < b {
        b
    } else {
        a
    }
}

/// The swarm size: the size asked for, else eight creatures per CPU (at
/// least 32) in fast mode and four per CPU (at least 16) otherwise.
pub open spec fn swarm_size(swarm: Option<usize>, fast: bool, cpus: nat) -> nat {
    match swarm {
        Some(n) => n as nat,
        None => if fast {
            larger(saturating_product(cpus, 8), 32)
        } else {
            larger(saturating_product(cpus, 4), 16)
        },
    }
}

fn saturating_times(a: usize, b: usize) -> (r: usize)
    ensures
        r == saturating_product(a as nat, b as nat),
{
    match a.checked_mul(b) {
        Some(p) => p,
        None => usize::MAX,
    }
}

/// The swarm size for a machine with `cpus` CPUs.
pub fn swarm_count_for(swarm: Option<usize>, fast: bool, cpus: usize) -> (r: usize)
    ensures
        r == swarm_size(swarm, fast, cpus as nat),
{
    match swarm {
        Some(n) => n,
        None => {
            let (per, floor) = if fast {
                (8usize, 32usize)
            } else {
                (4usize, 16usize)
            };
            let m = saturating_times(cpus, per);
            if m < floor {
                floor
            } else {
                m
            }
        },
    }
}

/// The swarm size on this machine; the CPU count is asked for only when no
/// size is given.
pub fn resolve_swarm_count(swarm: Option<usize>, fast: bool) -> (r: usize)
    ensures
        exists|cpus: nat| cpus >= 1 && r == swarm_size(swarm, fast, cpus),
        swarm matches Some(n) ==> r == n,
{
    match swarm {
        Some(n) => {
            assert(n == swarm_size(swarm, fast, 1));
            n
        },
        None => {
            let cpus = available_cpus();
            swarm_count_for(swarm, fast, cpus)
        },
    }
}

/// Worker threads: the number asked for, else one per CPU, and never
/// fewer than one.
pub open spec fn pool_size(threads: Option<usize>, cpus: nat) -> nat {
    larger(
        match threads {
            Some(n) => n as nat,
            None => cpus,
        },
        1,
    )
}

/// Worker threads for a machine with `cpus` CPUs.
pub fn pool_threads_for(threads: Option<usize>, cpus: usize) -> (r: usize)
    ensures
        r == pool_size(threads, cpus as nat),
{
    let n = match threads {
        Some(n) => n,
        None => cpus,
    };
    if n < 1 {
        1
    } else {
        n
    }
}

/// Worker threads on this machine; the CPU count is asked for only when no
/// number is given.
pub fn resolve_pool_threads(threads: Option<usize>) -> (r: usize)
    ensures
        exists|cpus: nat| cpus >= 1 && r == pool_size(threads, cpus),
        r >= 1,
        threads matches Some(n) ==> r == larger(n as nat, 1),
{
    match threads {
        Some(n) => {
            let r = pool_threads_for(threads, 1);
            assert(r == pool_size(threads, 1));
            r
        },
        None => {
            let cpus = available_cpus();
            pool_threads_for(threads, cpus)
        },
    }
}

/// What a swarm does after tick `t` besides ticking.
pub struct SwarmBeat {
    /// Every creature is saved.
    pub save: bool,
    /// The creature at this position is shown in the log.
    pub sample: Option<usize>,
}

/// The schedule of a swarm after tick `t`: it saves every `save_every`
/// ticks and, when `sample_log` is not 0, shows every `sample_log` ticks
/// the creature at position `t` modulo the number of creatures.
pub fn swarm_beat(t: u64, save_every: u64, sample_log: usize, count: usize) -> (r: SwarmBeat)
    requires
        save_every > 0,
        sample_log > 0 && t % (sample_log as u64) == 0 ==> count > 0,
    ensures
        r.save == (t % save_every == 0),
        sample_log == 0 || t % (sample_log as u64) != 0 ==> r.sample is None,
        sample_log > 0 && t % (sample_log as u64) == 0 ==> r.sample == Some((t as usize) % count),
{
    let save = t % save_every == 0;
    let sample = if sample_log > 0 && t % (sample_log as u64) == 0 {
        Some((t as usize) % count)
    } else {
        None
    };
    SwarmBeat { save, sample }
}

} // verus!
