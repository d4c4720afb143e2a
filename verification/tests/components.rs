use select_core::task::CancellableTask;
use select_core::task::TaskPoll;
use select_core::slot::SlotPoll;
use select_core::slot::TaskSlot;
use select_core::pool::PoolPoll;
use select_core::pool::TaskPool;
use select_core::trigger::TriggerPoll;
use select_core::trigger::Triggerable;

#[test]
fn task_completes_on_schedule() {
    let mut t = CancellableTask::ready_after(2, 7);
    assert_eq!(t.poll(), TaskPoll::Pending);
    assert_eq!(t.poll(), TaskPoll::Pending);
    assert_eq!(t.poll(), TaskPoll::Ready(7));
}

#[test]
fn task_never_completing_stays_pending() {
    let mut t = CancellableTask::never_completing();
    for _ in 0..100 {
        assert_eq!(t.poll(), TaskPoll::Pending);
    }
}

#[test]
fn slot_reports_value_exactly_once_then_terminated() {
    let mut s = TaskSlot::terminated();
    s.arm(CancellableTask::ready_after(0, 42));
    assert_eq!(s.poll(), SlotPoll::Ready(42));
    assert_eq!(s.poll(), SlotPoll::Terminated);
    assert_eq!(s.poll(), SlotPoll::Terminated);
    assert!(s.is_terminated());
}

#[test]
fn slot_rearm_abandons_first_task_silently() {
    let mut s = TaskSlot::terminated();
    s.arm(CancellableTask::never_completing());
    s.arm(CancellableTask::ready_after(0, 9));
    assert_eq!(s.poll(), SlotPoll::Ready(9));
    assert_eq!(s.poll(), SlotPoll::Terminated);
}

#[test]
fn slot_never_started_is_terminated() {
    let mut s = TaskSlot::terminated();
    assert!(s.is_terminated());
    assert_eq!(s.poll(), SlotPoll::Terminated);
}

#[test]
fn trigger_follows_its_schedule_and_exhaustion_is_sticky() {
    let mut t = Triggerable::new(2, 1);
    assert_eq!(t.poll(), TriggerPoll::Ready);
    assert_eq!(t.poll(), TriggerPoll::Pending);
    assert_eq!(t.poll(), TriggerPoll::Ready);
    assert_eq!(t.poll(), TriggerPoll::Exhausted);
    assert_eq!(t.poll(), TriggerPoll::Exhausted);
    assert_eq!(t.poll(), TriggerPoll::Exhausted);
}

#[test]
fn pool_empty_is_distinct_from_pending() {
    let mut p = TaskPool::new();
    assert_eq!(p.poll_any(), PoolPoll::Empty);
    p.push(CancellableTask::ready_after(3, 1));
    assert_eq!(p.poll_any(), PoolPoll::Pending);
}

#[test]
fn pool_yields_each_value_exactly_once() {
    let mut p = TaskPool::new();
    p.push(CancellableTask::ready_after(0, 10));
    p.push(CancellableTask::ready_after(1, 20));
    p.push(CancellableTask::ready_after(2, 30));
    let vals = p.drain();
    assert_eq!(vals, vec![10, 20, 30]);
    assert_eq!(p.poll_any(), PoolPoll::Empty);
}

#[test]
fn pool_does_not_starve_old_values_under_pushes() {
    let mut p = TaskPool::new();
    p.push(CancellableTask::ready_after(1, 111));
    assert_eq!(p.poll_any(), PoolPoll::Pending);
    // Keep pushing immediately-ready newcomers; the older completion
    // must still be reported first, within a bounded number of polls.
    p.push(CancellableTask::ready_after(0, 222));
    assert_eq!(p.poll_any(), PoolPoll::Ready(111));
    p.push(CancellableTask::ready_after(0, 333));
    assert_eq!(p.poll_any(), PoolPoll::Ready(222));
    assert_eq!(p.poll_any(), PoolPoll::Ready(333));
    assert_eq!(p.poll_any(), PoolPoll::Empty);
}
