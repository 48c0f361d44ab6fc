//! Counting work.

use medal::cfg::metrics::{Metric, Metrics};

#[test]
fn kinds_of_work_have_labels() {
    let labels = Metric::all()
        .into_iter()
        .map(|metric| metric.label())
        .collect::<Vec<_>>();
    assert_eq!(labels.len(), Metric::COUNT);
    assert_eq!(
        labels,
        vec![
            "facts-derive",
            "fingerprint",
            "dominators",
            "structure-jumps",
            "inline",
            "structure-conditionals",
            "remove-unnecessary-params",
        ]
    );
}

#[test]
fn only_work_that_was_done_is_told() {
    let mut metrics = Metrics::new();
    assert!(metrics.snapshot().is_empty());

    metrics.record(Metric::Inline, 5);
    metrics.record(Metric::Fingerprint, 2);
    metrics.record(Metric::Inline, 7);

    assert_eq!(
        metrics.snapshot(),
        vec![("fingerprint", 2, 1), ("inline", 12, 2)]
    );
}

#[test]
fn sums_start_over_when_they_no_longer_fit() {
    let mut metrics = Metrics::new();
    metrics.record(Metric::Dominators, u64::MAX);
    metrics.record(Metric::Dominators, 3);
    assert_eq!(metrics.snapshot(), vec![("dominators", 2, 2)]);
}

#[test]
fn rounds_and_runs_are_counted_apart() {
    let mut metrics = Metrics::new();
    metrics.record_round();
    metrics.record_round();
    metrics.record_scheduler_run();
    assert_eq!(metrics.rounds(), 2);
    assert_eq!(metrics.scheduler_runs(), 1);
}
