//! A producer of discrete "tick" events, such as an interval timer.

use vstd::prelude::*;

verus! {

/// What one poll of a triggerable reports.
#[derive(Clone, Copy, Debug, PartialEq, Eq, Structural)]
pub enum TriggerPoll {
    /// A tick is available now.
    Ready,
    /// No tick yet; more will come.
    Pending,
    /// The source will never produce a tick again. Sticky.
    Exhausted,
}

/// A recurring tick source, modelled deterministically: it produces
/// `ticks_left` more ticks, with `gap` pending polls between
/// consecutive ticks, and is exhausted afterwards. Exhaustion is
/// terminal and sticky: once exhausted, the source never again
/// reports a tick, and exhaustion is not an error, merely a
/// permanently not-ready state.
#[derive(Clone, Copy, Debug, PartialEq, Eq, Structural)]
pub struct Triggerable {
    /// Ticks the source will still produce.
    pub ticks_left: u64,
    /// Pending polls between consecutive ticks.
    pub gap: u64,
    /// Pending polls before the next tick.
    pub countdown: u64,
    /// Set once the source has reported `Exhausted`.
    pub exhausted: bool,
}

impl Triggerable {
    /// The source has nothing more to give: every further poll
    /// reports `Exhausted`.
    pub open spec fn terminal(self) -> bool {
        self.exhausted || self.ticks_left == 0
    }

    /// The very next poll will report a tick.
    pub open spec fn ready(self) -> bool {
        !self.terminal() && self.countdown == 0
    }

    /// What the next poll reports.
    pub open spec fn poll_outcome(self) -> TriggerPoll {
        if self.terminal() {
            TriggerPoll::Exhausted
        } else if self.countdown > 0 {
            TriggerPoll::Pending
        } else {
            TriggerPoll::Ready
        }
    }

    /// The source's state after one poll.
    pub open spec fn stepped(self) -> Self {
        if self.exhausted {
            self
        } else if self.ticks_left == 0 {
            Triggerable { exhausted: true, ..self }
        } else if self.countdown > 0 {
            Triggerable { countdown: (self.countdown - 1) as u64, ..self }
        } else {
            Triggerable {
                ticks_left: (self.ticks_left - 1) as u64,
                countdown: self.gap,
                ..self
            }
        }
    }

    /// Upper bound on the polls the source still absorbs before it is
    /// terminal; drives termination of scheduler runs.
    pub open spec fn fuel(self) -> nat {
        if self.terminal() {
            0
        } else {
            ((self.ticks_left - 1) * (self.gap + 1) + self.countdown + 1) as nat
        }
    }

    /// A source that will produce `ticks` ticks, the first one on the
    /// very first poll, with `gap` pending polls between ticks.
    pub fn new(ticks: u64, gap: u64) -> (t: Self)
        ensures
            t == (Triggerable { ticks_left: ticks, gap, countdown: 0, exhausted: false }),
    {
        Triggerable { ticks_left: ticks, gap, countdown: 0, exhausted: false }
    }

    /// Polls the source once. Exhaustion is sticky: once the source
    /// has reported `Exhausted` its state never changes again.
    pub fn poll(&mut self) -> (r: TriggerPoll)
        ensures
            r == old(self).poll_outcome(),
            *final(self) == old(self).stepped(),
    {
        if self.exhausted {
            TriggerPoll::Exhausted
        } else if self.ticks_left == 0 {
            self.exhausted = true;
            TriggerPoll::Exhausted
        } else if self.countdown > 0 {
            self.countdown = self.countdown - 1;
            TriggerPoll::Pending
        } else {
            self.ticks_left = self.ticks_left - 1;
            self.countdown = self.gap;
            TriggerPoll::Ready
        }
    }
}

/// One poll can only spend fuel, and spends at least one unit
/// whenever the source is not yet terminal.
pub proof fn lemma_trigger_step_fuel(t: Triggerable)
    ensures
        t.stepped().fuel() <= t.fuel(),
        !t.terminal() ==> t.stepped().fuel() < t.fuel(),
{
    if t.terminal() {
        assert(t.stepped().terminal());
    } else if t.countdown > 0 {
        assert(t.stepped().fuel() < t.fuel());
    } else {
        let s = t.stepped();
        if s.terminal() {
            assert(t.fuel() > 0);
        } else {
            assert(s.fuel() < t.fuel()) by (nonlinear_arith)
                requires
                    s == (Triggerable {
                        ticks_left: (t.ticks_left - 1) as u64,
                        countdown: t.gap,
                        ..t
                    }),
                    t.ticks_left >= 2,
                    t.countdown == 0,
                    !t.exhausted,
                    !s.terminal(),
                    s.fuel() == ((s.ticks_left - 1) * (s.gap + 1) + s.countdown + 1) as nat,
                    t.fuel() == ((t.ticks_left - 1) * (t.gap + 1) + t.countdown + 1) as nat,
            {
            }
        }
    }
}

} // verus!
