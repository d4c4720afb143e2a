use select_core::task::CancellableTask;
use select_core::slot::TaskSlot;
use select_core::pool::TaskPool;
use select_core::trigger::Triggerable;
use select_core::selector::Dispatch;
use select_core::selector::Event;
use select_core::selector::RunEvent;
use select_core::selector::RunOutcome;
use select_core::selector::Selector;
use select_core::selector::Source;

fn armed_slot(delay: u64, value: u64) -> TaskSlot {
    let mut s = TaskSlot::terminated();
    s.arm(CancellableTask::ready_after(delay, value));
    s
}

#[test]
fn run_count() {
    let mut sel = Selector::new();
    sel.register(Source::Slot(armed_slot(0, 4)), false);
    sel.register(Source::Slot(armed_slot(0, 6)), false);
    sel.enable_default();
    let report = sel.run();
    assert_eq!(report.outcome, RunOutcome::Completed);
    let mut total: u64 = 0;
    for e in &report.events {
        match e {
            RunEvent::Dispatched { event: Event::Value(v), .. } => total += v,
            RunEvent::Dispatched { .. } => panic!("no tick source was registered"),
            RunEvent::DefaultFired => panic!("default must never fire here"),
        }
    }
    assert_eq!(total, 10);
}

#[test]
fn both_branches_fire_before_complete() {
    let mut sel = Selector::new();
    sel.register(Source::Slot(armed_slot(0, 4)), false);
    sel.register(Source::Slot(armed_slot(0, 6)), false);
    sel.enable_default();
    let report = sel.run();
    assert_eq!(report.outcome, RunOutcome::Completed);
    assert_eq!(
        report.events,
        vec![
            RunEvent::Dispatched { source: 0, event: Event::Value(4) },
            RunEvent::Dispatched { source: 1, event: Event::Value(6) },
        ],
    );
}

#[test]
fn simultaneous_ready_breaks_ties_by_registration_order() {
    let mut sel = Selector::new();
    sel.register(Source::Slot(armed_slot(0, 1)), false);
    sel.register(Source::Slot(armed_slot(0, 2)), false);
    let d = sel.activate();
    assert_eq!(d, Dispatch::Branch { source: 0, event: Event::Value(1) });
}

#[test]
fn no_ready_source_without_default_would_block() {
    let mut sel = Selector::new();
    sel.register(Source::Slot(armed_slot(1, 3)), false);
    let d = sel.activate();
    assert_eq!(d, Dispatch::WouldBlock);
}

#[test]
fn default_fires_instead_of_suspending() {
    let mut sel = Selector::new();
    sel.register(Source::Slot(armed_slot(2, 5)), false);
    sel.enable_default();
    let report = sel.run();
    assert_eq!(report.outcome, RunOutcome::Completed);
    assert_eq!(
        report.events,
        vec![
            RunEvent::DefaultFired,
            RunEvent::DefaultFired,
            RunEvent::Dispatched { source: 0, event: Event::Value(5) },
        ],
    );
}

#[test]
fn complete_fires_only_after_all_sources_are_terminal() {
    let mut sel = Selector::new();
    sel.register(Source::Trigger(Triggerable::new(2, 1)), false);
    sel.register(Source::Slot(armed_slot(3, 5)), false);
    let report = sel.run();
    assert_eq!(report.outcome, RunOutcome::Completed);
    assert_eq!(
        report.events,
        vec![
            RunEvent::Dispatched { source: 0, event: Event::Tick },
            RunEvent::Dispatched { source: 0, event: Event::Tick },
            RunEvent::Dispatched { source: 1, event: Event::Value(5) },
        ],
    );
}

#[test]
fn unexpected_exhaustion_is_a_fault_not_a_silent_complete() {
    let mut sel = Selector::new();
    sel.register(Source::Trigger(Triggerable::new(1, 0)), true);
    sel.register(Source::Slot(armed_slot(3, 9)), false);
    let report = sel.run();
    assert_eq!(report.outcome, RunOutcome::UnexpectedExhaustion);
    assert_eq!(
        report.events,
        vec![RunEvent::Dispatched { source: 0, event: Event::Tick }],
    );
}

#[test]
fn replacement_loop_restarts_work_on_ticks_and_cancels_stale_refreshes() {
    let mut sel = Selector::new();
    let trig_idx = sel.register(Source::Trigger(Triggerable::new(3, 1)), false);
    let refresh_idx = sel.register(Source::Slot(TaskSlot::terminated()), false);
    let pool_idx = sel.register(Source::Pool(TaskPool::new()), false);
    let mut next_num: u64 = 5;
    let mut results: Vec<u64> = Vec::new();
    loop {
        match sel.activate() {
            Dispatch::Branch { source, event } => {
                if source == trig_idx {
                    // A tick arrived: start fetching a new number,
                    // unless a fetch is already in flight.
                    let armed = sel.rearm_if_terminated(
                        refresh_idx,
                        CancellableTask::ready_after(1, next_num),
                    );
                    if armed {
                        next_num += 1;
                    }
                } else if source == refresh_idx {
                    // A new number arrived: start a worker on it.
                    match event {
                        Event::Value(n) => {
                            sel.push_task(pool_idx, CancellableTask::ready_after(1, n * 10));
                        },
                        Event::Tick => panic!("a slot never ticks"),
                    }
                } else {
                    // A worker finished.
                    match event {
                        Event::Value(v) => results.push(v),
                        Event::Tick => panic!("a pool never ticks"),
                    }
                }
            }
            Dispatch::WouldBlock => {}
            Dispatch::Complete => break,
            Dispatch::DefaultFired => panic!("no default branch was registered"),
            Dispatch::UnexpectedExhaustion { .. } => {
                panic!("no source was registered as infinite")
            }
        }
    }
    assert_eq!(results, vec![50, 60]);
    assert_eq!(next_num, 7);
}

#[test]
fn empty_selector_completes_at_once() {
    let mut sel = Selector::new();
    let report = sel.run();
    assert_eq!(report.outcome, RunOutcome::Completed);
    assert!(report.events.is_empty());
}
