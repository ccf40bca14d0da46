//! The worker pool contract.
//!
//! A pool of fixed size `n` drains a shared queue of one-shot jobs.
//! The interesting obligation is panic survival: when a job panics,
//! the worker that ran it is replaced, so the pool's steady-state
//! parallelism never decays below `n` until shutdown.  The threads
//! themselves live outside this crate; [`PoolSupervisor`] is the
//! verified accounting of that discipline, and the callers that spawn
//! real threads follow its decisions.

use vstd::prelude::*;

use crate::error::KvsError;

verus! {

/// Trait for a thread pool: construct with a fixed number of threads,
/// then submit one-shot jobs that each run exactly once.
pub trait ThreadPool: Sized {
    /// Creates a pool with the given number of worker threads.
    fn new(threads: u32) -> Result<Self, KvsError>;

    /// Submits a job; blocks when the queue is full.
    fn spawn<F: FnOnce() + Send + 'static>(&self, job: F);
}

/// The verified accounting of a shared-queue pool: its configured
/// size, how many workers are live, and whether shutdown has begun.
pub struct PoolSupervisor {
    threads: u32,
    live: u32,
    terminated: bool,
}

impl PoolSupervisor {
    /// The configured number of workers.
    pub closed spec fn size(&self) -> u32 {
        self.threads
    }

    /// The number of live workers.
    pub closed spec fn live_workers(&self) -> u32 {
        self.live
    }

    /// True once shutdown has been requested.
    pub closed spec fn is_terminated(&self) -> bool {
        self.terminated
    }

    /// Panic survival: as long as the pool is not shutting down, it
    /// has exactly as many live workers as it was configured with.
    pub closed spec fn ok(&self) -> bool {
        !self.terminated ==> self.live == self.threads
    }

    /// Starts a pool: all workers are live, shutdown has not begun.
    pub fn start(threads: u32) -> (r: PoolSupervisor)
        ensures
            r.ok(),
            r.size() == threads,
            r.live_workers() == threads,
            !r.is_terminated(),
    {
        PoolSupervisor { threads, live: threads, terminated: false }
    }

    /// The capacity of the shared job queue: twice the pool size, so
    /// submitters see backpressure only when every worker is busy and
    /// a full round of jobs is already waiting.
    pub fn queue_capacity(&self) -> (r: usize)
        requires
            self.size() <= 0x7fffffff,
        ensures
            r == 2 * self.size(),
    {
        (self.threads as usize) * 2
    }

    /// The number of live workers, for callers that track the pool.
    pub fn live_count(&self) -> (r: u32)
        ensures
            r == self.live_workers(),
    {
        self.live
    }

    /// A worker's receive guard is being dropped; `panicking` says
    /// whether a job's panic is unwinding the worker.  Returns whether
    /// a replacement worker must be spawned: exactly on a panic, so
    /// the pool keeps its configured parallelism, and never on a
    /// normal exit, which must not grow the pool.
    pub fn worker_exit(&mut self, panicking: bool) -> (respawn: bool)
        requires
            old(self).ok(),
            old(self).live_workers() >= 1,
            // a worker exits without panicking only after shutdown
            !panicking ==> old(self).is_terminated(),
        ensures
            final(self).ok(),
            final(self).size() == old(self).size(),
            final(self).is_terminated() == old(self).is_terminated(),
            respawn == panicking,
            panicking ==> final(self).live_workers() == old(self).live_workers(),
            !panicking ==> final(self).live_workers() == old(self).live_workers() - 1,
    {
        if panicking {
            // the guard respawns a worker on the same queue while the
            // unwind continues, replacing the one that is dying
            true
        } else {
            self.live = self.live - 1;
            false
        }
    }

    /// Requests shutdown; workers observe the flag after their current
    /// job and retire.
    pub fn stop(&mut self)
        ensures
            final(self).ok(),
            final(self).is_terminated(),
            final(self).size() == old(self).size(),
            final(self).live_workers() == old(self).live_workers(),
    {
        self.terminated = true;
    }
}

/// Panic survival, as a law over the supervisor: a panic exit leaves
/// the pool with exactly its configured number of live workers, as
/// long as shutdown has not begun.
pub proof fn lemma_panic_survival(p: PoolSupervisor)
    requires
        p.ok(),
        !p.is_terminated(),
    ensures
        p.live_workers() == p.size(),
{
}

} // verus!
