//! How the threads of a run wait for one another.
//!
//! A step takes tens of microseconds, so parking a thread would cost more than the step. A thread
//! that waits for a shared counter reads it in a loop. Between the reads it spins, and after a
//! while it gives way to other threads, so that a busy machine makes progress.
use vstd::prelude::*;

verus! {

/// The step number that tells the workers to stop.
pub const QUIT: usize = usize::MAX;

/// How often a waiting thread spins before it gives way.
pub const SPIN_LIMIT: u32 = 4096;

/// What a waiting thread does next.
#[derive(Clone, Copy, Debug, PartialEq, Eq, Structural)]
pub enum Poll {
    /// The wait is over.
    Ready,
    /// Spin, then read the counter again.
    Spin,
    /// Give way to other threads, then read the counter again.
    Yield,
}

/// A thread that waits for a counter.
#[derive(Clone, Copy, Debug, PartialEq, Eq, Structural)]
pub struct Wait {
    /// How often it has spun.
    pub spins: u32,
}

impl Wait {
    /// What to do after reading the counter, where `over` says that the wait is over.
    pub open spec fn decision(self, over: bool) -> Poll {
        if over {
            Poll::Ready
        } else if self.spins < SPIN_LIMIT {
            Poll::Spin
        } else {
            Poll::Yield
        }
    }

    /// The thread after reading the counter.
    pub open spec fn after(self, over: bool) -> Wait {
        if self.decision(over) == Poll::Spin {
            Wait { spins: (self.spins + 1) as u32 }
        } else {
            self
        }
    }

    /// The thread after reading the counter `n` times in vain.
    pub open spec fn after_reads(self, n: int) -> Wait
        decreases n,
    {
        if n <= 0 {
            self
        } else {
            self.after_reads(n - 1).after(false)
        }
    }

    /// A thread that begins to wait.
    pub fn new() -> (r: Self)
        ensures
            r.spins == 0,
    {
        Wait { spins: 0 }
    }

    /// What to do after reading `value`, where the wait is over as soon as the counter differs
    /// from `seen`.
    pub fn until_changed(&mut self, value: usize, seen: usize) -> (r: Poll)
        ensures
            r == old(self).decision(value != seen),
            *final(self) == old(self).after(value != seen),
    {
        self.poll(value != seen)
    }

    /// What to do after reading `value`, where the wait is over as soon as the counter is
    /// `target`.
    pub fn until_equal(&mut self, value: usize, target: usize) -> (r: Poll)
        ensures
            r == old(self).decision(value == target),
            *final(self) == old(self).after(value == target),
    {
        self.poll(value == target)
    }

    /// What to do after reading the counter.
    fn poll(&mut self, over: bool) -> (r: Poll)
        ensures
            r == old(self).decision(over),
            *final(self) == old(self).after(over),
    {
        if over {
            Poll::Ready
        } else if self.spins < SPIN_LIMIT {
            self.spins = self.spins + 1;
            Poll::Spin
        } else {
            Poll::Yield
        }
    }
}

/// A thread that waits in vain spins a limited number of times and gives way ever after.
pub proof fn law_waiting_gives_way(n: int)
    requires
        0 <= n,
    ensures
        (Wait { spins: 0 }).after_reads(n).spins == (if n <= SPIN_LIMIT {
            n
        } else {
            SPIN_LIMIT as int
        }),
        (Wait { spins: 0 }).after_reads(n).decision(false) == (if n < SPIN_LIMIT {
            Poll::Spin
        } else {
            Poll::Yield
        }),
    decreases n,
{
    if n > 0 {
        law_waiting_gives_way(n - 1);
    }
}

/// What a worker is told by a step number that differs from the last one that it saw.
#[derive(Clone, Copy, Debug, PartialEq, Eq, Structural)]
pub enum Order {
    /// Stop.
    Quit,
    /// Take documents of this step; steps are counted from one.
    Step(usize),
}

/// What a worker is told by a step number.
pub fn order(epoch: usize) -> (r: Order)
    ensures
        r == (if epoch == QUIT {
            Order::Quit
        } else {
            Order::Step(epoch)
        }),
{
    if epoch == QUIT {
        Order::Quit
    } else {
        Order::Step(epoch)
    }
}

} // verus!
