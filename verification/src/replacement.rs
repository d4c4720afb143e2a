//! The full replace-on-trigger loop, composed from the scheduler's
//! parts: each tick starts a refresh task (unless one is in flight),
//! each refreshed number starts a worker in the pool, and every
//! worker's result is collected — with the guarantee that no started
//! number's result is ever duplicated or lost.

use vstd::prelude::*;
use vstd::seq_lib::group_to_multiset_ensures;
use vstd::multiset::Multiset;
use crate::task::CancellableTask;
use crate::trigger::Triggerable;
use crate::slot::TaskSlot;
use crate::pool::TaskPool;
use crate::pool::task_values;
use crate::pool::next_queue;
use crate::pool::pending_fuel;
use crate::pool::lemma_poll_keeps_contents;
use crate::selector::Dispatch;
use crate::selector::Event;
use crate::selector::RunOutcome;
use crate::selector::Selector;
use crate::selector::Source;
use crate::selector::entry_faults;
use crate::selector::entry_halts;
use crate::selector::entry_picks;
use crate::selector::entry_stepped;
use crate::selector::halt_index;
use crate::selector::lemma_entry_step_fuel;
use crate::selector::lemma_halt_found;
use crate::selector::lemma_halt_prefix;
use crate::selector::lemma_step_keeps_terminal;
use crate::selector::source_fuel;
use crate::selector::source_terminal;

verus! {

/// What a replacement run returned.
#[derive(Clone, Debug, PartialEq, Eq)]
pub struct ReplacementReport {
    /// How the run ended.
    pub outcome: RunOutcome,
    /// The workers' results, in the order they were reported.
    pub results: Vec<u64>,
    /// How many refresh tasks were started: the first `started`
    /// entries of the plan, each started by some tick.
    pub started: usize,
}

/// The value a slot still owes: its occupant's, if it has one.
pub open spec fn slot_owes(sl: TaskSlot) -> Multiset<u64> {
    match sl.occupant {
        Option::Some(t) => Multiset::<u64>::empty().insert(t.value),
        Option::None => Multiset::<u64>::empty(),
    }
}

/// Termination budget for the part of the plan not yet started: each
/// unstarted refresh pays for its own polls, its worker's polls, and
/// the bookkeeping of starting both.
pub open spec fn plan_budget(plan: Seq<CancellableTask>, p: int, worker_delay: u64) -> nat
    decreases plan.len() - p,
{
    if p < 0 || p >= plan.len() {
        0
    } else {
        (plan[p].fuel() + worker_delay + 2 + plan_budget(plan, p + 1, worker_delay)) as nat
    }
}

/// Termination budget for a refresh already in flight: its worker is
/// still to be started and polled.
pub open spec fn slot_budget(sl: TaskSlot, worker_delay: u64) -> nat {
    match sl.occupant {
        Option::Some(_) => worker_delay as nat + 1,
        Option::None => 0,
    }
}

/// Runs the replace-on-trigger pattern to the end: a trigger, a
/// refresh slot and a worker pool race each activation. On a tick, the
/// next refresh of `plan` is started — only if no refresh is in
/// flight, so a pending refresh is never cancelled by a mere tick. A
/// refreshed number `n` starts a worker that takes `worker_delay`
/// further polls and reports `n`. The run ends at the all-complete
/// transition, or at once with `UnexpectedExhaustion` when the
/// trigger was registered as infinite and exhausts.
///
/// The report's results are exactly the numbers of the `started`
/// refreshes — each reported once, none duplicated, none lost.
#[verifier::rlimit(100)]
pub fn run_replacement(
    trigger: Triggerable,
    expect_infinite: bool,
    plan: Vec<CancellableTask>,
    worker_delay: u64,
) -> (report: ReplacementReport)
    requires
        forall|i: int| 0 <= i < plan@.len() ==> (#[trigger] plan@[i]).live(),
        forall|i: int| 0 <= i < plan@.len() ==> (#[trigger] plan@[i]).is_finite(),
    ensures
        !expect_infinite ==> report.outcome == RunOutcome::Completed,
        expect_infinite ==> report.outcome == RunOutcome::UnexpectedExhaustion,
        report.started <= plan@.len(),
        report.outcome == RunOutcome::Completed ==> report.results@.to_multiset() == task_values(
            plan@.take(report.started as int),
        ).to_multiset(),
        report.results@.to_multiset().subset_of(
            task_values(plan@.take(report.started as int)).to_multiset(),
        ),
        (!expect_infinite && plan@.len() > 0 && !trigger.exhausted && trigger.ticks_left > 0)
            ==> report.started >= 1,
{
    let mut sel = Selector::new();
    sel.register(Source::Trigger(trigger), expect_infinite);
    sel.register(Source::Slot(TaskSlot::terminated()), false);
    sel.register(Source::Pool(TaskPool::new()), false);
    let mut results: Vec<u64> = Vec::new();
    let mut next: usize = 0;
    proof {
        broadcast use group_to_multiset_ensures;
        broadcast use vstd::multiset::group_multiset_axioms;

        assert(plan@.take(0) =~= Seq::<CancellableTask>::empty());
        assert(results@.to_multiset().add(slot_owes(the_slot(sel))).add(
            the_pool(sel).contents(),
        ) =~= task_values(plan@.take(next as int)).to_multiset());
    }
    loop
        invariant
            sel.wf(),
            sel.finite(),
            !sel.has_default,
            sel.sources@.len() == 3,
            sel.sources@[0].source is Trigger,
            sel.sources@[0].expect_infinite == expect_infinite,
            sel.sources@[1].source is Slot,
            !sel.sources@[1].expect_infinite,
            sel.sources@[2].source is Pool,
            !sel.sources@[2].expect_infinite,
            next <= plan@.len(),
            forall|i: int| 0 <= i < plan@.len() ==> (#[trigger] plan@[i]).live(),
            forall|i: int| 0 <= i < plan@.len() ==> (#[trigger] plan@[i]).is_finite(),
            results@.to_multiset().add(slot_owes(the_slot(sel))).add(the_pool(sel).contents())
                == task_values(plan@.take(next as int)).to_multiset(),
            next == 0 ==> the_slot(sel).occupant is None,
            next == 0 ==> the_pool(sel).pending@.len() == 0 && the_pool(sel).ready@.len() == 0,
            (!trigger.exhausted && trigger.ticks_left > 0 && plan@.len() > 0 && next == 0)
                ==> !source_terminal(sel.sources@[0].source),
        decreases
                source_fuel(sel.sources@[0].source) + source_fuel(sel.sources@[1].source)
                    + source_fuel(sel.sources@[2].source) + slot_budget(
                    the_slot(sel),
                    worker_delay,
                ) + plan_budget(plan@, next as int, worker_delay),
    {
        let ghost pre = sel;
        let d = sel.activate();
        proof {
            broadcast use group_to_multiset_ensures;
            broadcast use vstd::multiset::group_multiset_axioms;

            let ss = pre.sources@;
            let ts = sel.sources@;
            let k = halt_index(ss);
            lemma_halt_found(ss, 0);
            assert forall|j: int| 0 <= j < 3 implies source_fuel(#[trigger] ts[j].source)
                <= source_fuel(ss[j].source) && (j <= k ==> entry_stepped(ss[j], ts[j])) && (j > k
                ==> ts[j] == ss[j]) by {
                if j <= k {
                    lemma_entry_step_fuel(ss[j], ts[j]);
                }
            }
        }
        match d {
            Dispatch::Branch { source, event } => {
                proof {
                    let ss = pre.sources@;
                    let k = halt_index(ss);
                    lemma_entry_step_fuel(ss[k], sel.sources@[k]);
                }
                if source == 0 {
                    // A tick: start the next refresh, unless one is
                    // already in flight.
                    if next < plan.len() {
                        let armed = sel.rearm_if_terminated(1, plan[next]);
                        proof {
                            broadcast use group_to_multiset_ensures;
                            broadcast use vstd::multiset::group_multiset_axioms;

                            if armed {
                                let taken = plan@.take(next + 1);
                                assert(taken.drop_last() =~= plan@.take(next as int));
                                assert(taken.last() == plan@[next as int]);
                                assert(results@.to_multiset().add(
                                    slot_owes(the_slot(sel)),
                                ).add(the_pool(sel).contents()) =~= task_values(
                                    taken,
                                ).to_multiset());
                            }
                        }
                        if armed {
                            next = next + 1;
                        }
                    }
                } else if source == 1 {
                    // A refreshed number: start a worker on it.
                    match event {
                        Event::Value(n) => {
                            let ghost before = sel;
                            sel.push_task(2, CancellableTask::ready_after(worker_delay, n));
                            proof {
                                broadcast use group_to_multiset_ensures;
                                broadcast use vstd::multiset::group_multiset_axioms;

                                let ss = pre.sources@;
                                assert(entry_picks(ss[1]));
                                assert(the_slot(before).occupant is None);
                                assert(slot_owes(the_slot(pre)) == Multiset::<u64>::empty().insert(
                                    n,
                                ));
                                let op = the_pool(before);
                                let np = the_pool(sel);
                                assert(np.pending@.drop_last() =~= op.pending@);
                                assert(task_values(np.pending@) == task_values(op.pending@).push(
                                    n,
                                ));
                                assert(pending_fuel(np.pending@) == pending_fuel(op.pending@)
                                    + worker_delay + 1);
                                assert(np.contents() =~= op.contents().insert(n));
                                assert(results@.to_multiset().add(slot_owes(the_slot(sel))).add(
                                    np.contents(),
                                ) =~= task_values(plan@.take(next as int)).to_multiset());
                            }
                        },
                        Event::Tick => {
                            proof {
                                assert(false);
                            }
                        },
                    }
                } else {
                    // A worker's result.
                    match event {
                        Event::Value(v) => {
                            let ghost pre_results = results@;
                            results.push(v);
                            proof {
                                broadcast use group_to_multiset_ensures;
                                broadcast use vstd::multiset::group_multiset_axioms;

                                let ss = pre.sources@;
                                assert(!entry_halts(ss[1])) by {
                                    lemma_halt_prefix(ss, 0, 1);
                                }
                                assert(slot_owes(the_slot(sel)) == slot_owes(the_slot(pre)));
                                let op = the_pool(pre);
                                let q = next_queue(op.pending@, op.ready@);
                                lemma_poll_keeps_contents(op.pending@, op.ready@);
                                assert(q.len() > 0);
                                assert(v == q[0]);
                                assert(the_pool(sel).contents().insert(v) == op.contents());
                                assert(results@.to_multiset() =~= pre_results.to_multiset().insert(
                                    v,
                                ));
                                assert(results@.to_multiset().add(slot_owes(the_slot(sel))).add(
                                    the_pool(sel).contents(),
                                ) =~= task_values(plan@.take(next as int)).to_multiset());
                            }
                        },
                        Event::Tick => {
                            proof {
                                assert(false);
                            }
                        },
                    }
                }
            },
            Dispatch::WouldBlock => {
                proof {
                    broadcast use group_to_multiset_ensures;
                    broadcast use vstd::multiset::group_multiset_axioms;

                    let ss = pre.sources@;
                    let w = choose|j: int|
                        0 <= j < ss.len() && !source_terminal(#[trigger] ss[j].source);
                    lemma_entry_step_fuel(ss[w], sel.sources@[w]);
                    assert(!entry_halts(ss[1])) by {
                        lemma_halt_prefix(ss, 0, 1);
                    }
                    assert(!entry_halts(ss[2])) by {
                        lemma_halt_prefix(ss, 0, 2);
                    }
                    assert(slot_owes(the_slot(sel)) == slot_owes(the_slot(pre)));
                    let op = the_pool(pre);
                    lemma_poll_keeps_contents(op.pending@, op.ready@);
                    assert(next_queue(op.pending@, op.ready@).len() == 0);
                    assert(the_pool(sel).contents() == op.contents());
                    assert(results@.to_multiset().add(slot_owes(the_slot(sel))).add(
                        the_pool(sel).contents(),
                    ) =~= task_values(plan@.take(next as int)).to_multiset());
                }
            },
            Dispatch::DefaultFired => {
                proof {
                    assert(false);
                }
            },
            Dispatch::Complete => {
                proof {
                    broadcast use group_to_multiset_ensures;
                    broadcast use vstd::multiset::group_multiset_axioms;

                    let ss = pre.sources@;
                    let ts = sel.sources@;
                    lemma_step_keeps_terminal(ss[1], ts[1]);
                    lemma_step_keeps_terminal(ss[2], ts[2]);
                    if expect_infinite {
                        assert(entry_faults(ss[0]));
                        assert(halt_index(ss) == 0);
                        assert(false);
                    }
                    assert(slot_owes(the_slot(sel)) =~= Multiset::<u64>::empty());
                    assert(the_pool(sel).contents() =~= Multiset::<u64>::empty());
                    assert(results@.to_multiset() =~= task_values(
                        plan@.take(next as int),
                    ).to_multiset());
                    if !expect_infinite && plan@.len() > 0 && !trigger.exhausted
                        && trigger.ticks_left > 0 && next == 0 {
                        assert(source_terminal(ss[0].source));
                        assert(false);
                    }
                    assert(results@.to_multiset().subset_of(
                        task_values(plan@.take(next as int)).to_multiset(),
                    ));
                }
                return ReplacementReport {
                    outcome: RunOutcome::Completed,
                    results,
                    started: next,
                };
            },
            Dispatch::UnexpectedExhaustion { source: _ } => {
                proof {
                    broadcast use vstd::multiset::group_multiset_axioms;

                    let ss = pre.sources@;
                    let k = halt_index(ss);
                    assert(entry_faults(ss[k]));
                    assert(k == 0 && expect_infinite);
                    let owed = task_values(plan@.take(next as int)).to_multiset();
                    assert forall|x: u64| results@.to_multiset().count(x) <= owed.count(x) by {
                        assert(results@.to_multiset().add(slot_owes(the_slot(pre))).add(
                            the_pool(pre).contents(),
                        ).count(x) == owed.count(x));
                    }
                    assert(results@.to_multiset().subset_of(owed));
                }
                return ReplacementReport {
                    outcome: RunOutcome::UnexpectedExhaustion,
                    results,
                    started: next,
                };
            },
        }
    }
}

/// The refresh slot a replacement run registered second.
pub open spec fn the_slot(sel: Selector) -> TaskSlot
    recommends
        sel.sources@.len() == 3,
        sel.sources@[1].source is Slot,
{
    match sel.sources@[1].source {
        Source::Slot(sl) => sl,
        _ => arbitrary(),
    }
}

/// The worker pool a replacement run registered third.
pub open spec fn the_pool(sel: Selector) -> TaskPool
    recommends
        sel.sources@.len() == 3,
        sel.sources@[2].source is Pool,
{
    match sel.sources@[2].source {
        Source::Pool(p) => p,
        _ => arbitrary(),
    }
}

} // verus!
