//! The core scheduler: waits on multiple ready-sources at once and
//! dispatches to whichever becomes ready first, with a documented,
//! deterministic tie-break and an explicit "all sources exhausted"
//! terminal transition.

use vstd::prelude::*;
use vstd::multiset::Multiset;
use vstd::seq_lib::group_to_multiset_ensures;
use crate::task::CancellableTask;
use crate::trigger::Triggerable;
use crate::trigger::TriggerPoll;
use crate::trigger::lemma_trigger_step_fuel;
use crate::slot::TaskSlot;
use crate::slot::SlotPoll;
use crate::slot::lemma_slot_step_fuel;
use crate::pool::TaskPool;
use crate::pool::PoolPoll;
use crate::pool::step_pending;
use crate::pool::ready_after_poll;
use crate::pool::next_queue;
use crate::pool::task_values;
use crate::pool::lemma_poll_spends_fuel;
use crate::pool::lemma_poll_keeps_contents;

verus! {

/// A registered ready-source: a tick producer, a single-occupancy
/// task holder, or a pool of many tasks.
#[derive(Clone, Debug, PartialEq, Eq)]
pub enum Source {
    Trigger(Triggerable),
    Slot(TaskSlot),
    Pool(TaskPool),
}

/// A source together with the design's expectation of it: a source
/// registered as `expect_infinite` is contractually assumed never to
/// run out; if it does, the run halts with a design-violation fault.
#[derive(Clone, Debug, PartialEq, Eq)]
pub struct SourceEntry {
    pub source: Source,
    pub expect_infinite: bool,
}

/// What a dispatched source handed over.
#[derive(Clone, Copy, Debug, PartialEq, Eq, Structural)]
pub enum Event {
    /// A tick from a triggerable.
    Tick,
    /// A completed task's value from a slot or a pool.
    Value(u64),
}

/// The outcome of one activation: exactly one of a branch dispatch,
/// the all-complete transition, the optional default branch, a
/// cooperative "suspend until readiness changes", or the fatal
/// unexpected-exhaustion transition.
#[derive(Clone, Copy, Debug, PartialEq, Eq, Structural)]
pub enum Dispatch {
    /// Exactly one source was ready; its index and event.
    Branch { source: usize, event: Event },
    /// Every source reported terminal: the run is over.
    Complete,
    /// No source was ready, at least one was pending, and a default
    /// branch is registered: it fires instead of suspending.
    DefaultFired,
    /// No source was ready, at least one was pending, and no default
    /// branch is registered: suspend until readiness changes.
    WouldBlock,
    /// A source registered as never-exhausting reported terminal:
    /// a design-violation fault, not a recoverable error.
    UnexpectedExhaustion { source: usize },
}

/// How a full run ended.
#[derive(Clone, Copy, Debug, PartialEq, Eq, Structural)]
pub enum RunOutcome {
    /// All sources reported terminal; the complete transition fired.
    Completed,
    /// A source assumed infinite exhausted; the run halted at once.
    UnexpectedExhaustion,
}

/// One entry of a run's dispatch log.
#[derive(Clone, Copy, Debug, PartialEq, Eq, Structural)]
pub enum RunEvent {
    /// A source's event was dispatched to its branch.
    Dispatched { source: usize, event: Event },
    /// The default branch fired (only when one is registered).
    DefaultFired,
}

/// What a full run returned: the outcome and the dispatch log.
#[derive(Clone, Debug, PartialEq, Eq)]
pub struct RunReport {
    pub outcome: RunOutcome,
    pub events: Vec<RunEvent>,
}

/// The source's occupants may all still be polled.
pub open spec fn source_wf(s: Source) -> bool {
    match s {
        Source::Trigger(_) => true,
        Source::Slot(sl) => sl.wf(),
        Source::Pool(p) => p.wf(),
    }
}

/// The source's occupants all complete after finitely many polls.
pub open spec fn source_finite(s: Source) -> bool {
    match s {
        Source::Trigger(_) => true,
        Source::Slot(sl) => sl.finite(),
        Source::Pool(p) => p.finite(),
    }
}

/// The source is not pending and not retriggerable: exhausted,
/// terminated or empty, with no possibility of further values.
pub open spec fn source_terminal(s: Source) -> bool {
    match s {
        Source::Trigger(t) => t.terminal(),
        Source::Slot(sl) => sl.terminal(),
        Source::Pool(p) => p.terminal(),
    }
}

/// The very next poll of the source will report a value or a tick.
pub open spec fn source_ready(s: Source) -> bool {
    match s {
        Source::Trigger(t) => t.ready(),
        Source::Slot(sl) => sl.ready(),
        Source::Pool(p) => p.ready_now(),
    }
}

/// The event the source hands over when it is ready.
pub open spec fn source_event(s: Source) -> Event {
    match s {
        Source::Trigger(_) => Event::Tick,
        Source::Slot(sl) => Event::Value(sl.ready_value()),
        Source::Pool(p) => Event::Value(next_queue(p.pending@, p.ready@)[0]),
    }
}

/// Upper bound on the polls the source still absorbs.
pub open spec fn source_fuel(s: Source) -> nat {
    match s {
        Source::Trigger(t) => t.fuel(),
        Source::Slot(sl) => sl.fuel(),
        Source::Pool(p) => p.fuel(),
    }
}

/// `post` is `pre` after exactly one poll of its source.
pub open spec fn entry_stepped(pre: SourceEntry, post: SourceEntry) -> bool {
    &&& post.expect_infinite == pre.expect_infinite
    &&& match (pre.source, post.source) {
        (Source::Trigger(a), Source::Trigger(b)) => b == a.stepped(),
        (Source::Slot(a), Source::Slot(b)) => b == a.stepped(),
        (Source::Pool(a), Source::Pool(b)) => {
            &&& b.pending@ == step_pending(a.pending@)
            &&& b.ready@ == ready_after_poll(a.pending@, a.ready@)
        },
        _ => false,
    }
}

/// Polling this entry dispatches its branch.
pub open spec fn entry_picks(e: SourceEntry) -> bool {
    source_ready(e.source)
}

/// Polling this entry raises the design-violation fault: a source
/// assumed infinite reports terminal.
pub open spec fn entry_faults(e: SourceEntry) -> bool {
    e.expect_infinite && source_terminal(e.source)
}

/// Polling this entry ends the activation's scan.
pub open spec fn entry_halts(e: SourceEntry) -> bool {
    entry_picks(e) || entry_faults(e)
}

/// The first index at or after `i` whose entry ends the scan, or the
/// length when none does.
pub open spec fn halt_index_from(ss: Seq<SourceEntry>, i: int) -> int
    decreases ss.len() - i,
{
    if i < 0 || i >= ss.len() {
        ss.len() as int
    } else if entry_halts(ss[i]) {
        i
    } else {
        halt_index_from(ss, i + 1)
    }
}

/// The registration index at which an activation's scan stops: the
/// first ready or faulting source, in registration order. This is
/// the documented, deterministic tie-break: when several sources are
/// ready in the same activation, the lowest registration index wins.
pub open spec fn halt_index(ss: Seq<SourceEntry>) -> int {
    halt_index_from(ss, 0)
}

/// Upper bound on the polls all sources together still absorb.
pub open spec fn entries_fuel(ss: Seq<SourceEntry>) -> nat
    decreases ss.len(),
{
    if ss.len() == 0 {
        0
    } else {
        entries_fuel(ss.drop_last()) + source_fuel(ss.last().source)
    }
}

/// The completed-task values a source still owes its caller: none
/// for a tick producer, the occupant's value for a slot, the owed
/// contents for a pool.
pub open spec fn source_owes(s: Source) -> Multiset<u64> {
    match s {
        Source::Trigger(_) => Multiset::<u64>::empty(),
        Source::Slot(sl) => match sl.occupant {
            Option::Some(t) => Multiset::<u64>::empty().insert(t.value),
            Option::None => Multiset::<u64>::empty(),
        },
        Source::Pool(p) => p.contents(),
    }
}

/// The values all registered sources together still owe.
pub open spec fn entries_owe(ss: Seq<SourceEntry>) -> Multiset<u64>
    decreases ss.len(),
{
    if ss.len() == 0 {
        Multiset::<u64>::empty()
    } else {
        entries_owe(ss.drop_last()).add(source_owes(ss.last().source))
    }
}

/// The values a run's log reports as dispatched; ticks and default
/// firings carry none.
pub open spec fn events_values(es: Seq<RunEvent>) -> Multiset<u64>
    decreases es.len(),
{
    if es.len() == 0 {
        Multiset::<u64>::empty()
    } else {
        let rest = events_values(es.drop_last());
        match es.last() {
            RunEvent::Dispatched { source: _, event: Event::Value(v) } => rest.insert(v),
            _ => rest,
        }
    }
}

/// One poll conserves owed values: a poll that does not dispatch
/// leaves them untouched; one that dispatches hands over exactly the
/// dispatched value, and a tick hands over none.
pub proof fn lemma_entry_step_owes(pre: SourceEntry, post: SourceEntry)
    requires
        entry_stepped(pre, post),
        source_wf(pre.source),
    ensures
        !entry_picks(pre) ==> source_owes(post.source) == source_owes(pre.source),
        entry_picks(pre) && source_event(pre.source) is Tick ==> source_owes(post.source)
            == source_owes(pre.source),
        entry_picks(pre) ==> (source_event(pre.source) matches Event::Value(v) ==> source_owes(
            pre.source,
        ) == source_owes(post.source).insert(v)),
{
    match pre.source {
        Source::Trigger(_) => {
        },
        Source::Slot(_) => {
        },
        Source::Pool(p) => {
            lemma_poll_keeps_contents(p.pending@, p.ready@);
        },
    }
}

/// Sums of owed values respect pointwise equality.
proof fn lemma_entries_owe_eq(a: Seq<SourceEntry>, b: Seq<SourceEntry>)
    requires
        a.len() == b.len(),
        forall|j: int|
            0 <= j < a.len() ==> source_owes(#[trigger] b[j].source) == source_owes(a[j].source),
    ensures
        entries_owe(b) == entries_owe(a),
    decreases a.len(),
{
    if a.len() > 0 {
        lemma_entries_owe_eq(a.drop_last(), b.drop_last());
    }
}

/// Taking exactly one owed value out of one entry takes exactly it
/// out of the sum.
proof fn lemma_entries_owe_extract(a: Seq<SourceEntry>, b: Seq<SourceEntry>, w: int, v: u64)
    requires
        a.len() == b.len(),
        0 <= w < a.len(),
        forall|j: int|
            0 <= j < a.len() && j != w ==> source_owes(#[trigger] b[j].source) == source_owes(
                a[j].source,
            ),
        source_owes(a[w].source) == source_owes(b[w].source).insert(v),
    ensures
        entries_owe(a) == entries_owe(b).insert(v),
    decreases a.len(),
{
    broadcast use vstd::multiset::group_multiset_axioms;

    if w == a.len() - 1 {
        lemma_entries_owe_eq(a.drop_last(), b.drop_last());
        assert(entries_owe(a) =~= entries_owe(b).insert(v));
    } else {
        lemma_entries_owe_extract(a.drop_last(), b.drop_last(), w, v);
        assert(entries_owe(a) =~= entries_owe(b).insert(v));
    }
}

/// Terminal sources owe nothing.
proof fn lemma_entries_owe_terminal(ss: Seq<SourceEntry>)
    requires
        forall|j: int| 0 <= j < ss.len() ==> source_terminal((#[trigger] ss[j]).source),
    ensures
        entries_owe(ss) == Multiset::<u64>::empty(),
    decreases ss.len(),
{
    broadcast use vstd::multiset::group_multiset_axioms;
    broadcast use group_to_multiset_ensures;

    if ss.len() > 0 {
        lemma_entries_owe_terminal(ss.drop_last());
        assert(source_owes(ss.last().source) =~= Multiset::<u64>::empty()) by {
            match ss.last().source {
                Source::Trigger(_) => {
                },
                Source::Slot(_) => {
                },
                Source::Pool(p) => {
                    assert(task_values(p.pending@) =~= Seq::<u64>::empty());
                },
            }
        }
        assert(entries_owe(ss) =~= Multiset::<u64>::empty());
    }
}

/// Pins `halt_index` to the stopping point a scan found: no entry
/// before `i` halts, and `i` itself halts or is the end.
proof fn lemma_halt_index_at(ss: Seq<SourceEntry>, m: int, i: int)
    requires
        0 <= m <= i <= ss.len(),
        forall|j: int| m <= j < i ==> !entry_halts(#[trigger] ss[j]),
        i < ss.len() ==> entry_halts(ss[i]),
    ensures
        halt_index_from(ss, m) == i,
    decreases i - m,
{
    if m < i {
        lemma_halt_index_at(ss, m + 1, i);
    }
}

/// The halt index is in range, and points at a halting entry when it
/// is not the end.
pub proof fn lemma_halt_found(ss: Seq<SourceEntry>, m: int)
    requires
        0 <= m <= ss.len(),
    ensures
        m <= halt_index_from(ss, m) <= ss.len(),
        halt_index_from(ss, m) < ss.len() ==> entry_halts(ss[halt_index_from(ss, m)]),
    decreases ss.len() - m,
{
    if m < ss.len() && !entry_halts(ss[m]) {
        lemma_halt_found(ss, m + 1);
    }
}

/// One poll can only spend a source's fuel, and spends at least one
/// unit whenever the source is not yet terminal.
pub proof fn lemma_entry_step_fuel(pre: SourceEntry, post: SourceEntry)
    requires
        entry_stepped(pre, post),
        source_wf(pre.source),
        source_finite(pre.source),
    ensures
        source_fuel(post.source) <= source_fuel(pre.source),
        !source_terminal(pre.source) ==> source_fuel(post.source) < source_fuel(pre.source),
{
    match pre.source {
        Source::Trigger(t) => {
            lemma_trigger_step_fuel(t);
        },
        Source::Slot(sl) => {
            lemma_slot_step_fuel(sl);
        },
        Source::Pool(p) => {
            lemma_poll_spends_fuel(p.pending@, p.ready@);
        },
    }
}

/// A terminal source stays terminal when polled again.
pub proof fn lemma_step_keeps_terminal(pre: SourceEntry, post: SourceEntry)
    requires
        entry_stepped(pre, post),
        source_terminal(pre.source),
    ensures
        source_terminal(post.source),
{
}

/// Sums of per-entry fuel respect pointwise bounds.
proof fn lemma_entries_fuel_le(a: Seq<SourceEntry>, b: Seq<SourceEntry>)
    requires
        a.len() == b.len(),
        forall|j: int|
            0 <= j < a.len() ==> source_fuel(#[trigger] b[j].source) <= source_fuel(a[j].source),
    ensures
        entries_fuel(b) <= entries_fuel(a),
    decreases a.len(),
{
    if a.len() > 0 {
        lemma_entries_fuel_le(a.drop_last(), b.drop_last());
    }
}

/// A strict pointwise drop anywhere makes the sum strictly smaller.
proof fn lemma_entries_fuel_lt(a: Seq<SourceEntry>, b: Seq<SourceEntry>, w: int)
    requires
        a.len() == b.len(),
        forall|j: int|
            0 <= j < a.len() ==> source_fuel(#[trigger] b[j].source) <= source_fuel(a[j].source),
        0 <= w < a.len(),
        source_fuel(b[w].source) < source_fuel(a[w].source),
    ensures
        entries_fuel(b) < entries_fuel(a),
    decreases a.len(),
{
    if w == a.len() - 1 {
        lemma_entries_fuel_le(a.drop_last(), b.drop_last());
    } else {
        lemma_entries_fuel_lt(a.drop_last(), b.drop_last(), w);
    }
}

/// The core scheduler. It owns the registered sources for the
/// duration of a run (single-writer: nothing mutates them outside the
/// activation loop), polls each source at most once per activation in
/// registration order, and dispatches the first source found ready.
pub struct Selector {
    /// The registered sources, in registration order.
    pub sources: Vec<SourceEntry>,
    /// Whether a default branch is registered: it fires whenever no
    /// source is ready in an activation, checked before suspending.
    pub has_default: bool,
}

impl Selector {
    /// Every registered source may be polled.
    pub open spec fn wf(self) -> bool {
        forall|i: int|
            0 <= i < self.sources@.len() ==> source_wf(#[trigger] self.sources@[i].source)
    }

    /// Every registered task completes after finitely many polls.
    pub open spec fn finite(self) -> bool {
        forall|i: int|
            0 <= i < self.sources@.len() ==> source_finite(#[trigger] self.sources@[i].source)
    }

    /// A selector with no sources, no default branch.
    pub fn new() -> (s: Self)
        ensures
            s.sources@ == Seq::<SourceEntry>::empty(),
            !s.has_default,
    {
        Selector { sources: Vec::new(), has_default: false }
    }

    /// Registers a source; its branch index is its registration
    /// order. A source registered with `expect_infinite` makes the
    /// run halt with `UnexpectedExhaustion` should it ever report
    /// terminal.
    pub fn register(&mut self, source: Source, expect_infinite: bool) -> (idx: usize)
        requires
            source_wf(source),
        ensures
            final(self).sources@ == old(self).sources@.push(
                SourceEntry { source, expect_infinite },
            ),
            final(self).has_default == old(self).has_default,
            idx == old(self).sources@.len(),
    {
        let idx = self.sources.len();
        self.sources.push(SourceEntry { source, expect_infinite });
        idx
    }

    /// Registers the default branch: from now on, an activation in
    /// which no source is ready fires it instead of suspending.
    pub fn enable_default(&mut self)
        ensures
            final(self).sources@ == old(self).sources@,
            final(self).has_default,
    {
        self.has_default = true;
    }

    /// Puts `t` into the slot registered at `idx`, unconditionally
    /// replacing (and thereby cancelling) any occupant.
    pub fn arm_slot(&mut self, idx: usize, t: CancellableTask)
        requires
            idx < old(self).sources@.len(),
            old(self).sources@[idx as int].source is Slot,
            t.live(),
        ensures
            final(self).sources@ == old(self).sources@.update(
                idx as int,
                SourceEntry {
                    source: Source::Slot(TaskSlot { occupant: Option::Some(t) }),
                    expect_infinite: old(self).sources@[idx as int].expect_infinite,
                },
            ),
            final(self).has_default == old(self).has_default,
    {
        let ghost ss = self.sources@;
        let mut entry = self.sources.remove(idx);
        match &mut entry.source {
            Source::Slot(sl) => {
                sl.arm(t);
            },
            _ => {
            },
        }
        self.sources.insert(idx, entry);
        proof {
            assert(self.sources@ =~= ss.update(
                idx as int,
                SourceEntry {
                    source: Source::Slot(TaskSlot { occupant: Option::Some(t) }),
                    expect_infinite: ss[idx as int].expect_infinite,
                },
            ));
        }
    }

    /// Pushes `t` into the pool registered at `idx`.
    pub fn push_task(&mut self, idx: usize, t: CancellableTask)
        requires
            idx < old(self).sources@.len(),
            old(self).sources@[idx as int].source is Pool,
            t.live(),
        ensures
            final(self).sources@.len() == old(self).sources@.len(),
            forall|j: int|
                0 <= j < old(self).sources@.len() && j != idx ==> final(self).sources@[j] == old(
                    self,
                ).sources@[j],
            ({
                let pre = old(self).sources@[idx as int];
                let post = final(self).sources@[idx as int];
                &&& post.expect_infinite == pre.expect_infinite
                &&& post.source matches Source::Pool(np)
                &&& pre.source matches Source::Pool(op) ==> post.source matches Source::Pool(np)
                    && np.pending@ == op.pending@.push(t) && np.ready@ == op.ready@
            }),
            final(self).has_default == old(self).has_default,
    {
        let ghost ss = self.sources@;
        let mut entry = self.sources.remove(idx);
        match &mut entry.source {
            Source::Pool(p) => {
                p.push(t);
            },
            _ => {
            },
        }
        self.sources.insert(idx, entry);
        proof {
            assert(self.sources@ =~= ss.update(idx as int, self.sources@[idx as int]));
        }
    }

    /// The restart-on-trigger handler's decision, as the tick branch
    /// of a replacement loop takes it: start `t` in the slot at `idx`
    /// exactly when no occupant is in flight there, so that a pending
    /// refresh is never cancelled by a mere tick.
    pub fn rearm_if_terminated(&mut self, idx: usize, t: CancellableTask) -> (armed: bool)
        requires
            idx < old(self).sources@.len(),
            old(self).sources@[idx as int].source is Slot,
            t.live(),
        ensures
            armed == source_terminal(old(self).sources@[idx as int].source),
            armed ==> final(self).sources@ == old(self).sources@.update(
                idx as int,
                SourceEntry {
                    source: Source::Slot(TaskSlot { occupant: Option::Some(t) }),
                    expect_infinite: old(self).sources@[idx as int].expect_infinite,
                },
            ),
            !armed ==> final(self).sources@ == old(self).sources@,
            final(self).has_default == old(self).has_default,
    {
        if self.slot_is_terminated(idx) {
            self.arm_slot(idx, t);
            true
        } else {
            false
        }
    }

    /// Whether the slot registered at `idx` is terminated; used by
    /// handlers to decide whether to arm new work this iteration.
    pub fn slot_is_terminated(&self, idx: usize) -> (b: bool)
        requires
            idx < self.sources@.len(),
            self.sources@[idx as int].source is Slot,
        ensures
            b == source_terminal(self.sources@[idx as int].source),
    {
        match &self.sources[idx].source {
            Source::Slot(sl) => sl.is_terminated(),
            _ => false,
        }
    }

    /// One activation: polls the registered sources at most once
    /// each, in registration order, and stops at the first that is
    /// ready (its branch dispatches) or that violates an
    /// `expect_infinite` registration (the run faults). When no
    /// source halts the scan: all-terminal takes the `Complete`
    /// transition; otherwise the default branch fires if registered,
    /// else the activation reports `WouldBlock` (cooperative
    /// suspension, never a busy spin). No source is ever polled twice
    /// in one activation, so a single ready value can never be
    /// consumed twice.
    pub fn activate(&mut self) -> (d: Dispatch)
        requires
            old(self).wf(),
        ensures
            final(self).wf(),
            old(self).finite() ==> final(self).finite(),
            final(self).has_default == old(self).has_default,
            final(self).sources@.len() == old(self).sources@.len(),
            ({
                let ss = old(self).sources@;
                let ts = final(self).sources@;
                let k = halt_index(ss);
                &&& forall|j: int| 0 <= j <= k && j < ss.len() ==> entry_stepped(
                    ss[j],
                    #[trigger] ts[j],
                )
                &&& forall|j: int| k < j < ss.len() ==> #[trigger] ts[j] == ss[j]
                &&& k < ss.len() && entry_picks(ss[k]) ==> d == (Dispatch::Branch {
                    source: k as usize,
                    event: source_event(ss[k].source),
                })
                &&& k < ss.len() && !entry_picks(ss[k]) ==> d == (Dispatch::UnexpectedExhaustion {
                    source: k as usize,
                })
                &&& k == ss.len() && (exists|j: int|
                    0 <= j < ss.len() && !source_terminal(#[trigger] ss[j].source)) ==> d == (
                if old(self).has_default {
                    Dispatch::DefaultFired
                } else {
                    Dispatch::WouldBlock
                })
                &&& k == ss.len() && (forall|j: int|
                    0 <= j < ss.len() ==> source_terminal(#[trigger] ss[j].source)) ==> d
                    == Dispatch::Complete
            }),
    {
        let ghost ss = self.sources@;
        let n = self.sources.len();
        let mut i: usize = 0;
        let mut pending_seen: bool = false;
        while i < n
            invariant
                i <= n,
                n == self.sources@.len(),
                n == ss.len(),
                ss == old(self).sources@,
                self.has_default == old(self).has_default,
                forall|j: int| 0 <= j < i ==> entry_stepped(ss[j], #[trigger] self.sources@[j]),
                forall|j: int| i <= j < n ==> #[trigger] self.sources@[j] == ss[j],
                forall|j: int| 0 <= j < i ==> !entry_halts(#[trigger] ss[j]),
                forall|j: int| 0 <= j < n ==> source_wf(#[trigger] ss[j].source),
                forall|j: int| 0 <= j < n ==> source_wf(#[trigger] self.sources@[j].source),
                forall|j: int|
                    0 <= j < n ==> (source_finite(#[trigger] ss[j].source) ==> source_finite(
                        self.sources@[j].source,
                    )),
                pending_seen == exists|j: int|
                    0 <= j < i && !source_terminal(#[trigger] ss[j].source),
            decreases n - i,
        {
            let ghost prev = self.sources@;
            let mut entry = self.sources.remove(i);
            let expect_infinite = entry.expect_infinite;
            let mut ready_event: Option<Event> = Option::None;
            let mut is_terminal: bool = false;
            match &mut entry.source {
                Source::Trigger(t) => {
                    let r = t.poll();
                    match r {
                        TriggerPoll::Ready => {
                            ready_event = Option::Some(Event::Tick);
                        },
                        TriggerPoll::Pending => {
                        },
                        TriggerPoll::Exhausted => {
                            is_terminal = true;
                        },
                    }
                },
                Source::Slot(sl) => {
                    let r = sl.poll();
                    match r {
                        SlotPoll::Ready(v) => {
                            ready_event = Option::Some(Event::Value(v));
                        },
                        SlotPoll::Pending => {
                        },
                        SlotPoll::Terminated => {
                            is_terminal = true;
                        },
                    }
                },
                Source::Pool(p) => {
                    let r = p.poll_any();
                    match r {
                        PoolPoll::Ready(v) => {
                            ready_event = Option::Some(Event::Value(v));
                        },
                        PoolPoll::Pending => {
                        },
                        PoolPoll::Empty => {
                            is_terminal = true;
                        },
                    }
                },
            }
            proof {
                assert(entry_stepped(ss[i as int], entry));
            }
            let ghost stepped_entry = entry;
            self.sources.insert(i, entry);
            proof {
                assert(self.sources@ =~= prev.update(i as int, stepped_entry));
            }
            match ready_event {
                Option::Some(event) => {
                    proof {
                        lemma_halt_index_at(ss, 0, i as int);
                    }
                    return Dispatch::Branch { source: i, event };
                },
                Option::None => {
                },
            }
            if is_terminal {
                if expect_infinite {
                    proof {
                        lemma_halt_index_at(ss, 0, i as int);
                    }
                    return Dispatch::UnexpectedExhaustion { source: i };
                }
            } else {
                pending_seen = true;
            }
            i = i + 1;
        }
        proof {
            lemma_halt_index_at(ss, 0, n as int);
        }
        if pending_seen {
            if self.has_default {
                Dispatch::DefaultFired
            } else {
                Dispatch::WouldBlock
            }
        } else {
            Dispatch::Complete
        }
    }

    /// Drives activations until the run ends: a dispatched event is
    /// appended to the log and the loop continues; `WouldBlock` waits
    /// for readiness to change (which, here, the next poll itself
    /// advances); `Complete` ends the run normally — it fires exactly
    /// once, and only once every source has individually reported
    /// terminal; `UnexpectedExhaustion` halts the run at once and is
    /// propagated to the caller, never retried internally. The run
    /// always terminates when every registered task is finite.
    pub fn run(&mut self) -> (report: RunReport)
        requires
            old(self).wf(),
            old(self).finite(),
        ensures
            final(self).wf(),
            (forall|i: int|
                0 <= i < old(self).sources@.len() ==> !(#[trigger] old(
                    self,
                ).sources@[i]).expect_infinite) ==> report.outcome == RunOutcome::Completed,
            (exists|i: int|
                0 <= i < old(self).sources@.len() && (#[trigger] old(
                    self,
                ).sources@[i]).expect_infinite) ==> report.outcome
                == RunOutcome::UnexpectedExhaustion,
            report.outcome == RunOutcome::Completed ==> forall|i: int|
                0 <= i < final(self).sources@.len() ==> source_terminal(
                    (#[trigger] final(self).sources@[i]).source,
                ),
            !old(self).has_default ==> forall|i: int|
                0 <= i < report.events@.len() ==> (#[trigger] report.events@[i]) is Dispatched,
            final(self).sources@.len() == old(self).sources@.len(),
            final(self).has_default == old(self).has_default,
            forall|i: int|
                0 <= i < old(self).sources@.len() ==> (#[trigger] final(self).sources@[i]).expect_infinite
                    == old(self).sources@[i].expect_infinite,
            events_values(report.events@).add(entries_owe(final(self).sources@)) == entries_owe(
                old(self).sources@,
            ),
            report.outcome == RunOutcome::Completed ==> events_values(report.events@)
                == entries_owe(old(self).sources@),
    {
        let ghost init = *old(self);
        let mut events: Vec<RunEvent> = Vec::new();
        loop
            invariant
                init == *old(self),
                self.wf(),
                self.finite(),
                self.has_default == init.has_default,
                self.sources@.len() == init.sources@.len(),
                forall|j: int|
                    0 <= j < init.sources@.len() ==> (#[trigger] self.sources@[j]).expect_infinite
                        == init.sources@[j].expect_infinite,
                !init.has_default ==> forall|i: int|
                    0 <= i < events@.len() ==> (#[trigger] events@[i]) is Dispatched,
                events_values(events@).add(entries_owe(self.sources@)) == entries_owe(
                    init.sources@,
                ),
            decreases entries_fuel(self.sources@),
        {
            let ghost pre = *self;
            let d = self.activate();
            proof {
                let ss = pre.sources@;
                let ts = self.sources@;
                let k = halt_index(ss);
                lemma_halt_found(ss, 0);
                assert forall|j: int|
                    0 <= j < ss.len() implies source_fuel(#[trigger] ts[j].source) <= source_fuel(
                    ss[j].source,
                ) by {
                    if j <= k {
                        lemma_entry_step_fuel(ss[j], ts[j]);
                    }
                }
                assert forall|j: int|
                    0 <= j < ss.len() implies (#[trigger] ts[j]).expect_infinite
                    == ss[j].expect_infinite by {
                    if j <= k {
                        assert(entry_stepped(ss[j], ts[j]));
                    }
                }
                assert forall|j: int|
                    0 <= j < ss.len() && j != k implies source_owes((#[trigger] ts[j]).source)
                    == source_owes(ss[j].source) by {
                    if j < k {
                        lemma_halt_prefix(ss, 0, j);
                        lemma_entry_step_owes(ss[j], ts[j]);
                    }
                }
            }
            match d {
                Dispatch::Branch { source, event } => {
                    proof {
                        let ss = pre.sources@;
                        let ts = self.sources@;
                        let k = halt_index(ss);
                        lemma_halt_found(ss, 0);
                        lemma_entry_step_fuel(ss[k], ts[k]);
                        lemma_entries_fuel_lt(ss, ts, k);
                    }
                    let ghost pre_events = events@;
                    events.push(RunEvent::Dispatched { source, event });
                    proof {
                        broadcast use vstd::multiset::group_multiset_axioms;

                        let ss = pre.sources@;
                        let ts = self.sources@;
                        let k = halt_index(ss);
                        assert(events@.drop_last() =~= pre_events);
                        assert(events@.last() == (RunEvent::Dispatched { source, event }));
                        lemma_entry_step_owes(ss[k], ts[k]);
                        match source_event(ss[k].source) {
                            Event::Tick => {
                                lemma_entries_owe_eq(ss, ts);
                                assert(events_values(events@) == events_values(pre_events));
                            },
                            Event::Value(v) => {
                                lemma_entries_owe_extract(ss, ts, k, v);
                                assert(events_values(events@) =~= events_values(
                                    pre_events,
                                ).insert(v));
                                assert(events_values(events@).add(entries_owe(ts))
                                    =~= events_values(pre_events).add(entries_owe(ss)));
                            },
                        }
                    }
                },
                Dispatch::DefaultFired => {
                    proof {
                        let ss = pre.sources@;
                        let ts = self.sources@;
                        let w = choose|j: int|
                            0 <= j < ss.len() && !source_terminal(#[trigger] ss[j].source);
                        lemma_entry_step_fuel(ss[w], ts[w]);
                        lemma_entries_fuel_lt(ss, ts, w);
                        lemma_entries_owe_eq(ss, ts);
                    }
                    let ghost pre_events = events@;
                    events.push(RunEvent::DefaultFired);
                    proof {
                        assert(events@.drop_last() =~= pre_events);
                        assert(events@.last() == RunEvent::DefaultFired);
                        assert(events_values(events@) == events_values(pre_events));
                    }
                },
                Dispatch::WouldBlock => {
                    proof {
                        let ss = pre.sources@;
                        let ts = self.sources@;
                        let w = choose|j: int|
                            0 <= j < ss.len() && !source_terminal(#[trigger] ss[j].source);
                        lemma_entry_step_fuel(ss[w], ts[w]);
                        lemma_entries_fuel_lt(ss, ts, w);
                        lemma_entries_owe_eq(ss, ts);
                    }
                },
                Dispatch::Complete => {
                    proof {
                        let ss = pre.sources@;
                        let ts = self.sources@;
                        lemma_halt_found(ss, 0);
                        assert forall|i: int|
                            0 <= i < ts.len() implies source_terminal(
                            (#[trigger] ts[i]).source,
                        ) by {
                            lemma_step_keeps_terminal(ss[i], ts[i]);
                        }
                        if exists|i: int|
                            0 <= i < init.sources@.len() && (#[trigger] init.sources@[i]).expect_infinite {
                            let w = choose|i: int|
                                0 <= i < init.sources@.len() && (#[trigger] init.sources@[i]).expect_infinite;
                            assert(entry_faults(ss[w]));
                            assert(entry_halts(ss[w]));
                            assert(halt_index(ss) <= w) by {
                                lemma_halt_bound(ss, w);
                            }
                            assert(false);
                        }
                        lemma_entries_owe_eq(ss, ts);
                        lemma_entries_owe_terminal(ts);
                        assert(events_values(events@).add(entries_owe(ts)) =~= events_values(
                            events@,
                        )) by {
                            broadcast use vstd::multiset::group_multiset_axioms;

                        }
                    }
                    return RunReport { outcome: RunOutcome::Completed, events };
                },
                Dispatch::UnexpectedExhaustion { source: _ } => {
                    proof {
                        let ss = pre.sources@;
                        let ts = self.sources@;
                        let k = halt_index(ss);
                        lemma_halt_found(ss, 0);
                        assert(entry_faults(ss[k]));
                        lemma_entry_step_owes(ss[k], ts[k]);
                        lemma_entries_owe_eq(ss, ts);
                    }
                    return RunReport { outcome: RunOutcome::UnexpectedExhaustion, events };
                },
            }
        }
    }
}

/// A halting entry bounds the halt index from above.
pub proof fn lemma_halt_bound(ss: Seq<SourceEntry>, w: int)
    requires
        0 <= w < ss.len(),
        entry_halts(ss[w]),
    ensures
        halt_index(ss) <= w,
{
    let k = halt_index(ss);
    if k > w {
        lemma_halt_prefix(ss, 0, w);
    }
}

/// Entries before the halt index do not halt.
pub proof fn lemma_halt_prefix(ss: Seq<SourceEntry>, m: int, j: int)
    requires
        0 <= m <= j < halt_index_from(ss, m),
        j < ss.len(),
    ensures
        !entry_halts(ss[j]),
    decreases j - m,
{
    if m < j {
        lemma_halt_prefix(ss, m + 1, j);
    }
}

} // verus!
