//! A unit of asynchronous work that can be polled for completion and
//! discarded (abandoned) before completion without side effects.

use vstd::prelude::*;

verus! {

/// What one poll of a task reports.
#[derive(Clone, Copy, Debug, PartialEq, Eq, Structural)]
pub enum TaskPoll {
    /// The task completed and produced this value.
    Ready(u64),
    /// The task has not completed yet.
    Pending,
}

/// A cancellable unit of work, modelled deterministically: the task
/// reports `Pending` for `countdown` further polls and then completes
/// with `value` (or reports `Pending` forever when `never` is set).
///
/// Once a task has reported `Ready` it must never be polled again;
/// holders (a slot or a pool) enforce this by discarding the task the
/// moment it completes. Dropping a task that is still pending is the
/// cancellation mechanism: the task simply stops being polled.
#[derive(Clone, Copy, Debug, PartialEq, Eq, Structural)]
pub struct CancellableTask {
    /// Number of further polls before the task completes.
    /// Meaningful only when `never` is false.
    pub countdown: u64,
    /// The value produced on completion.
    pub value: u64,
    /// A task that never completes: every poll reports `Pending`.
    pub never: bool,
    /// Set once the task has reported `Ready`; such a task is no
    /// longer live and must not be polled.
    pub done: bool,
}

impl CancellableTask {
    /// A task that will eventually complete if polled often enough.
    pub open spec fn is_finite(self) -> bool {
        !self.never
    }

    /// A task that has not yet reported `Ready`, so it may be polled.
    pub open spec fn live(self) -> bool {
        !self.done
    }

    /// The very next poll will report `Ready`.
    pub open spec fn ready_now(self) -> bool {
        &&& !self.never
        &&& !self.done
        &&& self.countdown == 0
    }

    /// What the next poll of a live task reports.
    pub open spec fn poll_outcome(self) -> TaskPoll {
        if self.never || self.countdown > 0 {
            TaskPoll::Pending
        } else {
            TaskPoll::Ready(self.value)
        }
    }

    /// The task's state after one poll of a live task.
    pub open spec fn stepped(self) -> Self {
        if self.never {
            self
        } else if self.countdown > 0 {
            CancellableTask { countdown: (self.countdown - 1) as u64, ..self }
        } else {
            CancellableTask { done: true, ..self }
        }
    }

    /// Upper bound on the polls a finite task still absorbs before it
    /// has completed; drives termination of scheduler runs.
    pub open spec fn fuel(self) -> nat {
        self.countdown as nat + 1
    }

    /// A task that reports `Pending` `delay` times and then completes
    /// with `value`.
    pub fn ready_after(delay: u64, value: u64) -> (t: Self)
        ensures
            t == (CancellableTask { countdown: delay, value, never: false, done: false }),
    {
        CancellableTask { countdown: delay, value, never: false, done: false }
    }

    /// A task that never completes, whatever happens; abandoning it is
    /// the only way to get rid of it.
    pub fn never_completing() -> (t: Self)
        ensures
            t.never,
            t.live(),
    {
        CancellableTask { countdown: 0, value: 0, never: true, done: false }
    }

    /// Polls the task once. Must not be called again once it has
    /// reported `Ready`.
    pub fn poll(&mut self) -> (r: TaskPoll)
        requires
            old(self).live(),
        ensures
            r == old(self).poll_outcome(),
            *final(self) == old(self).stepped(),
    {
        if self.never {
            TaskPoll::Pending
        } else if self.countdown > 0 {
            self.countdown = self.countdown - 1;
            TaskPoll::Pending
        } else {
            self.done = true;
            TaskPoll::Ready(self.value)
        }
    }
}

} // verus!
