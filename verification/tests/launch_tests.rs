use moxnode::launch::{
    pool_threads_for, resolve_pool_threads, resolve_swarm_count, swarm_beat, swarm_count_for,
};

#[test]
fn swarm_size_asked_for_wins() {
    assert_eq!(swarm_count_for(Some(5), true, 4), 5);
    assert_eq!(swarm_count_for(Some(1000), false, 4), 1000);
}

#[test]
fn fast_swarm_is_eight_per_cpu_at_least_32() {
    assert_eq!(swarm_count_for(None, true, 2), 32);
    assert_eq!(swarm_count_for(None, true, 8), 64);
    assert_eq!(swarm_count_for(None, true, usize::MAX), usize::MAX);
}

#[test]
fn plain_swarm_is_four_per_cpu_at_least_16() {
    assert_eq!(swarm_count_for(None, false, 2), 16);
    assert_eq!(swarm_count_for(None, false, 8), 32);
}

#[test]
fn pool_threads_never_below_one() {
    assert_eq!(pool_threads_for(Some(0), 8), 1);
    assert_eq!(pool_threads_for(Some(3), 8), 3);
    assert_eq!(pool_threads_for(None, 6), 6);
}

#[test]
fn resolved_counts_on_this_machine() {
    assert_eq!(resolve_swarm_count(Some(3), false), 3);
    assert!(resolve_swarm_count(None, false) >= 16);
    assert!(resolve_swarm_count(None, true) >= 32);
    assert_eq!(resolve_pool_threads(Some(5)), 5);
    assert_eq!(resolve_pool_threads(Some(0)), 1);
    assert!(resolve_pool_threads(None) >= 1);
}

#[test]
fn a_swarm_saves_and_samples_on_its_beat() {
    let b = swarm_beat(20, 10, 7, 3);
    assert!(b.save);
    assert_eq!(b.sample, None);
    let b = swarm_beat(21, 10, 7, 4);
    assert!(!b.save);
    assert_eq!(b.sample, Some(1));
    let b = swarm_beat(14, 5, 0, 0);
    assert!(!b.save);
    assert_eq!(b.sample, None);
}
