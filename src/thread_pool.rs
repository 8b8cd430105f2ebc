//! Pools of worker threads that run jobs.
use vstd::prelude::*;

use crate::error::Result;

verus! {

/// A pool that runs jobs on worker threads.
pub trait ThreadPool {
    /// Starts a pool of `count` workers.
    fn new(count: u32) -> Result<Self> where Self: Sized;

    /// Hands `job` to the pool; `ChannelSendError` where the pool can no
    /// longer take jobs.
    fn spawn<F: FnOnce() + Send + 'static>(&self, job: F) -> Result<()>;
}

/// A pool that accepts jobs and does not run them.
pub struct RayonThreadPool {}

impl ThreadPool for RayonThreadPool {
    fn new(_count: u32) -> (r: Result<RayonThreadPool>)
        ensures
            r is Ok,
    {
        Ok(RayonThreadPool {})
    }

    fn spawn<F: FnOnce() + Send + 'static>(&self, _job: F) -> (r: Result<()>)
        ensures
            r is Ok,
    {
        Ok(())
    }
}

} // verus!
