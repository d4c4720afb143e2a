use select_core::replacement::run_replacement;
use select_core::selector::RunOutcome;
use select_core::task::CancellableTask;
use select_core::trigger::Triggerable;

#[test]
fn replacement_run_reports_every_started_number_once() {
    let plan = vec![
        CancellableTask::ready_after(1, 5),
        CancellableTask::ready_after(1, 6),
        CancellableTask::ready_after(1, 7),
    ];
    let report = run_replacement(Triggerable::new(3, 1), false, plan, 1);
    assert_eq!(report.outcome, RunOutcome::Completed);
    // Only two refreshes fit into three ticks: the second tick found
    // the first refresh still in flight and started nothing.
    assert_eq!(report.started, 2);
    assert_eq!(report.results, vec![5, 6]);
}

#[test]
fn replacement_run_faults_when_an_infinite_trigger_exhausts() {
    let plan = vec![CancellableTask::ready_after(0, 9)];
    let report = run_replacement(Triggerable::new(1, 0), true, plan, 0);
    assert_eq!(report.outcome, RunOutcome::UnexpectedExhaustion);
    assert_eq!(report.started, 1);
    assert!(report.results.is_empty());
}

#[test]
fn replacement_run_with_nothing_planned_just_drains_the_ticks() {
    let report = run_replacement(Triggerable::new(2, 0), false, Vec::new(), 3);
    assert_eq!(report.outcome, RunOutcome::Completed);
    assert_eq!(report.started, 0);
    assert!(report.results.is_empty());
}
