//! A bounded worker pool's shared job queue.
//!
//! The pool owns one first-in-first-out queue that a fixed number of
//! workers drain.  Dispatching never blocks; it fails only once every
//! worker has terminated.  The threads themselves live with the caller:
//! a worker repeatedly takes the front job, and reports its own death.

use vstd::prelude::*;

verus! {

/// Why a dispatch was refused.
#[derive(Clone, Copy, PartialEq, Eq, Structural, Debug)]
pub enum PoolError {
    /// Every worker of the pool has terminated.
    PoolClosed,
}

/// A first-in-first-out job queue shared by a fixed set of workers.
pub struct Pool<D> {
    queue: Vec<D>,
    alive: usize,
}

impl<D> Pool<D> {
    /// The jobs waiting to be taken, front first.
    pub closed spec fn jobs(self) -> Seq<D> {
        self.queue@
    }

    /// How many workers are still alive.
    pub closed spec fn workers(self) -> nat {
        self.alive as nat
    }

    /// A pool for `size` workers, with an empty queue.
    pub fn new(size: usize) -> (p: Pool<D>)
        ensures
            p.jobs() == Seq::<D>::empty(),
            p.workers() == size as nat,
    {
        Pool { queue: Vec::new(), alive: size }
    }

    /// Enqueues a job.  Succeeds exactly when a worker is still alive;
    /// a closed pool leaves the queue unchanged.
    pub fn dispatch(&mut self, data: D) -> (r: Result<(), PoolError>)
        ensures
            final(self).workers() == old(self).workers(),
            old(self).workers() > 0 ==> r == Result::<(), PoolError>::Ok(()) && final(self).jobs()
                == old(self).jobs().push(data),
            old(self).workers() == 0 ==> r == Result::<(), PoolError>::Err(PoolError::PoolClosed)
                && final(self).jobs() == old(self).jobs(),
    {
        if self.alive == 0 {
            Err(PoolError::PoolClosed)
        } else {
            self.queue.push(data);
            Ok(())
        }
    }

    /// Removes and returns the front job, if any.
    pub fn take(&mut self) -> (r: Option<D>)
        ensures
            final(self).workers() == old(self).workers(),
            match r {
                Some(d) => old(self).jobs().len() > 0 && d == old(self).jobs()[0]
                    && final(self).jobs() == old(self).jobs().drop_first(),
                None => old(self).jobs().len() == 0 && final(self).jobs() == old(self).jobs(),
            },
    {
        if self.queue.len() == 0 {
            None
        } else {
            let d = self.queue.remove(0);
            proof {
                assert(final(self).jobs() =~= old(self).jobs().drop_first());
            }
            Some(d)
        }
    }

    /// How many jobs are waiting.
    pub fn len(&self) -> (n: usize)
        ensures
            n == self.jobs().len(),
    {
        self.queue.len()
    }

    /// How many workers are still alive.
    pub fn workers_alive(&self) -> (n: usize)
        ensures
            n == self.workers(),
    {
        self.alive
    }

    /// Records that one worker terminated, for example because the
    /// generation function panicked on its thread.
    pub fn worker_exit(&mut self)
        ensures
            final(self).jobs() == old(self).jobs(),
            old(self).workers() > 0 ==> final(self).workers() == (old(self).workers() - 1) as nat,
            old(self).workers() == 0 ==> final(self).workers() == 0,
    {
        if self.alive > 0 {
            self.alive = self.alive - 1;
        }
    }
}

} // verus!
