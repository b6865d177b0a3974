use vstd::prelude::*;

use crate::task::Task;

verus! {

/// Model of the worker's counting concurrency limiter: a fixed pool of
/// `capacity` units, one held per task in flight. Dispatch is gated on
/// acquiring a unit, so at most `capacity` tasks execute at once.
pub struct Limiter {
    capacity: usize,
    in_use: usize,
}

impl Limiter {
    /// Size of the pool, fixed at construction.
    pub closed spec fn spec_capacity(&self) -> int {
        self.capacity as int
    }

    /// Units currently held by in-flight tasks.
    pub closed spec fn spec_in_use(&self) -> int {
        self.in_use as int
    }

    /// The limiter never hands out more units than its capacity.
    pub open spec fn wf(&self) -> bool {
        0 <= self.spec_in_use() <= self.spec_capacity()
    }

    /// A fresh limiter with every unit free.
    pub fn new(capacity: usize) -> (r: Limiter)
        ensures
            r.wf(),
            r.spec_capacity() == capacity,
            r.spec_in_use() == 0,
    {
        Limiter { capacity, in_use: 0 }
    }

    /// Number of units currently free.
    pub fn available(&self) -> (r: usize)
        requires
            self.wf(),
        ensures
            r == self.spec_capacity() - self.spec_in_use(),
    {
        self.capacity - self.in_use
    }

    /// Takes one unit when one is free; reports whether it did.
    pub fn try_acquire(&mut self) -> (r: bool)
        requires
            old(self).wf(),
        ensures
            final(self).wf(),
            final(self).spec_capacity() == old(self).spec_capacity(),
            r <==> old(self).spec_in_use() < old(self).spec_capacity(),
            r ==> final(self).spec_in_use() == old(self).spec_in_use() + 1,
            !r ==> final(self).spec_in_use() == old(self).spec_in_use(),
    {
        if self.in_use < self.capacity {
            self.in_use = self.in_use + 1;
            true
        } else {
            false
        }
    }

    /// Gives one unit back once a dispatched task's execution has returned,
    /// whatever its outcome.
    pub fn release(&mut self)
        requires
            old(self).wf(),
            old(self).spec_in_use() >= 1,
        ensures
            final(self).wf(),
            final(self).spec_capacity() == old(self).spec_capacity(),
            final(self).spec_in_use() == old(self).spec_in_use() - 1,
    {
        self.in_use = self.in_use - 1;
    }
}

/// What the worker loop does with one poll's outcome.
#[derive(Clone, Copy, Debug, PartialEq, Eq, Structural)]
pub enum PollAction {
    /// No task was eligible: suspend for the polling interval, then poll
    /// again.
    Backoff,
    /// A task was claimed: dispatch its execution (after acquiring a limiter
    /// unit).
    Execute(Task),
}

/// The worker loop's decision for one poll: execute the claimed task, or back
/// off when none was eligible.
pub fn poll_action(claimed: Option<Task>) -> (r: PollAction)
    ensures
        match claimed {
            Some(t) => r == PollAction::Execute(t),
            None => r == PollAction::Backoff,
        },
{
    match claimed {
        Some(t) => PollAction::Execute(t),
        None => PollAction::Backoff,
    }
}

} // verus!
