//! A single-occupancy holder for at most one in-flight task, with a
//! fuse-terminated guard against re-polling an empty holder.

use vstd::prelude::*;
use crate::task::CancellableTask;
use crate::task::TaskPoll;

verus! {

/// What one poll of a slot reports.
#[derive(Clone, Copy, Debug, PartialEq, Eq, Structural)]
pub enum SlotPoll {
    /// The occupant completed with this value; the slot is empty now.
    Ready(u64),
    /// The occupant has not completed yet.
    Pending,
    /// The slot is empty: never select this branch until it is armed.
    Terminated,
}

/// A holder for at most one in-flight task. An empty slot is
/// *terminated*: polling it reports `Terminated`, never a value, so a
/// finished or never-started holder cannot be polled for work by
/// mistake. Arming replaces the occupant unconditionally; an in-flight
/// occupant is abandoned silently (intentional cancellation, not an
/// error).
#[derive(Clone, Copy, Debug, PartialEq, Eq, Structural)]
pub struct TaskSlot {
    /// The in-flight task, if any.
    pub occupant: Option<CancellableTask>,
}

impl TaskSlot {
    /// The occupant, if any, has not completed: it may be polled.
    pub open spec fn wf(self) -> bool {
        self.occupant matches Some(t) ==> t.live()
    }

    /// The occupant, if any, completes after finitely many polls.
    pub open spec fn finite(self) -> bool {
        self.occupant matches Some(t) ==> t.is_finite()
    }

    /// The slot is empty, so polling reports `Terminated`.
    pub open spec fn terminal(self) -> bool {
        self.occupant is None
    }

    /// The very next poll will report a value.
    pub open spec fn ready(self) -> bool {
        self.occupant matches Some(t) && t.ready_now()
    }

    /// The value the next poll reports when the slot is ready.
    pub open spec fn ready_value(self) -> u64 {
        self.occupant->0.value
    }

    /// What the next poll reports.
    pub open spec fn poll_outcome(self) -> SlotPoll {
        match self.occupant {
            Option::None => SlotPoll::Terminated,
            Option::Some(t) => match t.poll_outcome() {
                TaskPoll::Ready(v) => SlotPoll::Ready(v),
                TaskPoll::Pending => SlotPoll::Pending,
            },
        }
    }

    /// The slot's state after one poll: a completed occupant is
    /// removed, a pending one advances, an empty slot stays empty.
    pub open spec fn stepped(self) -> Self {
        match self.occupant {
            Option::None => self,
            Option::Some(t) => if t.poll_outcome() is Ready {
                TaskSlot { occupant: Option::None }
            } else {
                TaskSlot { occupant: Option::Some(t.stepped()) }
            },
        }
    }

    /// Upper bound on the polls the slot still absorbs before it is
    /// terminal; drives termination of scheduler runs.
    pub open spec fn fuel(self) -> nat {
        match self.occupant {
            Option::None => 0,
            Option::Some(t) => t.fuel(),
        }
    }

    /// An empty slot: terminated until a task is armed.
    pub fn terminated() -> (s: Self)
        ensures
            s == (TaskSlot { occupant: Option::<CancellableTask>::None }),
    {
        TaskSlot { occupant: Option::None }
    }

    /// Puts `t` in the slot, unconditionally replacing any occupant.
    /// A replaced in-flight occupant is abandoned silently: it simply
    /// stops being polled; no error is raised.
    pub fn arm(&mut self, t: CancellableTask)
        requires
            t.live(),
        ensures
            *final(self) == (TaskSlot { occupant: Option::Some(t) }),
    {
        self.occupant = Option::Some(t);
    }

    /// Polls the slot once. An empty slot reports `Terminated`; a
    /// completed occupant's value is reported exactly once, after
    /// which the slot is empty.
    pub fn poll(&mut self) -> (r: SlotPoll)
        requires
            old(self).wf(),
        ensures
            r == old(self).poll_outcome(),
            *final(self) == old(self).stepped(),
            final(self).wf(),
    {
        match &mut self.occupant {
            Option::None => SlotPoll::Terminated,
            Option::Some(t) => {
                let p = t.poll();
                match p {
                    TaskPoll::Ready(v) => {
                        self.occupant = Option::None;
                        SlotPoll::Ready(v)
                    },
                    TaskPoll::Pending => SlotPoll::Pending,
                }
            },
        }
    }

    /// Whether the slot is empty, without side effects; callers use
    /// this to decide whether a new task needs to be armed.
    pub fn is_terminated(&self) -> (b: bool)
        ensures
            b == self.terminal(),
    {
        self.occupant.is_none()
    }
}

/// The fuse-terminated guard, stated once and for all: arming an
/// immediately-ready task makes exactly one poll report its value;
/// the slot is then empty, and an empty slot reports `Terminated` on
/// every further poll, forever, until it is explicitly re-armed.
pub proof fn lemma_slot_ready_exactly_once(t: CancellableTask)
    requires
        t.ready_now(),
    ensures
        ({
            let armed = TaskSlot { occupant: Option::Some(t) };
            &&& armed.poll_outcome() == SlotPoll::Ready(t.value)
            &&& armed.stepped().terminal()
            &&& armed.stepped().poll_outcome() == SlotPoll::Terminated
            &&& armed.stepped().stepped() == armed.stepped()
        }),
{
}

/// One poll can only spend fuel, and spends at least one unit
/// whenever the slot is not yet terminal.
pub proof fn lemma_slot_step_fuel(s: TaskSlot)
    requires
        s.wf(),
        s.finite(),
    ensures
        s.stepped().fuel() <= s.fuel(),
        !s.terminal() ==> s.stepped().fuel() < s.fuel(),
{
}

} // verus!
