//! Tests of the pool supervisor's panic-survival accounting.

use kvs::thread_pool::PoolSupervisor;

#[test]
fn panic_exit_respawns_and_keeps_size() {
    let mut pool = PoolSupervisor::start(4);
    assert_eq!(pool.live_count(), 4);
    // a job panics: the dying worker's guard must spawn a replacement
    let respawn = pool.worker_exit(true);
    assert!(respawn);
    assert_eq!(pool.live_count(), 4);
    // four long jobs can now run with full parallelism again
    for _ in 0..4 {
        let again = pool.worker_exit(true);
        assert!(again);
    }
    assert_eq!(pool.live_count(), 4);
}

#[test]
fn shutdown_drains_workers_without_respawn() {
    let mut pool = PoolSupervisor::start(3);
    pool.stop();
    for expected in (0..3).rev() {
        let respawn = pool.worker_exit(false);
        assert!(!respawn);
        assert_eq!(pool.live_count(), expected);
    }
}

#[test]
fn queue_capacity_is_twice_the_size() {
    let pool = PoolSupervisor::start(4);
    assert_eq!(pool.queue_capacity(), 8);
    let one = PoolSupervisor::start(1);
    assert_eq!(one.queue_capacity(), 2);
}
