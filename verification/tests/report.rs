use ockham::blocked::{BlockedBreakdown, BlockedReason};
use ockham::measure::Measure;
use ockham::ordering::OrderingStrategy;
use ockham::report::{
    account_for_every_blocked, record_epoch_blocked, summarise, Coverage, EpochBlocked, Event,
    Rate, Report, Winners,
};

fn m(value: f64) -> Measure {
    Measure {
        bits: value.to_bits(),
    }
}

fn v(measure: Measure) -> f64 {
    f64::from_bits(measure.bits)
}

fn report(events: Vec<Event>) -> Report {
    summarise(vec!["experiments.jsonl".into()], events).expect("the counts fit")
}

fn start(ordering: OrderingStrategy) -> Event {
    Event::Start {
        seed: 7,
        ordering,
        ordering_random_quota: m(0.25),
        hidden: 3,
        synapses: 10,
        opening_score: m(0.50),
    }
}

fn full(accepted: bool, score: f64, cuts: usize, elapsed_ms: u64) -> Event {
    Event::Full {
        individuals: 1,
        bundles: 0,
        groups: 0,
        accepted,
        score: if accepted { Some(m(score)) } else { None },
        delta: if accepted { Some(m(0.000002)) } else { None },
        cuts,
        elapsed_ms,
    }
}

fn stop(
    accepts: u64,
    experiments: u64,
    final_score: f64,
    delta: f64,
    structure: (usize, usize),
    elapsed_ms: u64,
) -> Event {
    Event::Stop {
        reason: "timeout".into(),
        accepts,
        experiments,
        final_score: m(final_score),
        cumulative_delta: m(delta),
        final_hidden: structure.0,
        final_synapses: structure.1,
        elapsed_ms,
    }
}

fn coverage(
    hidden: usize,
    tagged: usize,
    checked: usize,
    blocked: usize,
    cut: usize,
    identity: Option<&str>,
    reasons: BlockedBreakdown,
) -> Event {
    Event::Coverage {
        hidden,
        tagged,
        checked,
        blocked,
        blocked_by_reason: reasons,
        cut,
        corpus_identity: identity.map(|i| i.to_string()),
    }
}

fn cascade(estimated: f64, actual: f64) -> Event {
    Event::Cascade {
        kind: "individual".into(),
        cuts: 1,
        estimated_hidden: 3,
        estimated_synapses: 4,
        actual_hidden: 3,
        actual_synapses: 4,
        estimated_growth_units: m(estimated),
        actual_growth_units: m(actual),
    }
}

fn hourly(rate: Option<Rate>) -> Option<f64> {
    rate.map(|r| r.count as f64 * (3_600_000.0 / r.elapsed_ms as f64))
}

fn sum(list: &[Measure]) -> f64 {
    list.iter().map(|x| v(*x)).sum()
}

#[test]
fn report_compounds_tiny_accepts_rather_than_only_the_final_score() {
    let report = report(vec![
        start(OrderingStrategy::Random),
        full(true, 0.500002, 1, 1_000),
        full(true, 0.500004, 1, 2_000),
        stop(2, 4, 0.500004, 0.000004, (1, 8), 3_600_000),
    ]);
    assert_eq!(report.accepts, 2);
    assert_eq!(report.full_accepts, 2);
    let gain = report.cumulative_delta().unwrap();
    assert!(v(gain.to) - v(gain.from) > 0.0);
    assert_eq!(report.opening_score, Some(m(0.50)));
    assert_eq!(report.final_score, Some(m(0.500004)));
    assert_eq!(report.seed, Some(7));
}

#[test]
fn report_names_the_ordering_and_its_random_quota() {
    let report = report(vec![start(OrderingStrategy::LowVariance)]);
    assert_eq!(report.ordering, Some(OrderingStrategy::LowVariance));
    assert_eq!(report.ordering_random_quota, Some(m(0.25)));
    assert_eq!(report.ordering.unwrap().name(), "low-variance");
}

#[test]
fn report_counts_the_sweeps_a_run_rebuilt() {
    assert_eq!(report(vec![start(OrderingStrategy::Random)]).sweep_restarts, 0);
    let report = report(vec![
        start(OrderingStrategy::Random),
        Event::SweepRestart,
        Event::SweepRestart,
    ]);
    assert_eq!(report.sweep_restarts, 2);
}

#[test]
fn report_measures_discovery_economics_not_just_the_largest_cut() {
    let mut events = vec![start(OrderingStrategy::LowMeanAbs)];
    for batch in 0..2u64 {
        events.push(Event::Batch { candidates: 40 });
        events.push(Event::Screen);
        events.push(full(false, 0.0, 0, 1_000 * (batch + 1)));
    }
    // The third batch finally lands a tiny two-neuron bundle.
    events.push(Event::Batch { candidates: 40 });
    events.push(Event::Screen);
    events.push(full(true, 0.5001, 2, 9_000));
    events.push(full(true, 0.5002, 1, 12_000));
    events.push(stop(2, 3, 0.5002, 0.0002, (0, 5), 1_800_000));

    let report = report(events);
    assert_eq!(report.screen_calls, 3);
    assert_eq!(report.full_calls, 4);
    assert_eq!(report.full_rejects, 2);
    assert_eq!(report.first_win_ms, Some(9_000));
    // 80 candidates screened across the two fruitless batches, then 40 more
    // in the batch that produced the win.
    assert_eq!(report.candidates_before_first_win, Some(120));
    assert_eq!(report.accepted_cut_sizes, vec![2, 1]);
    assert_eq!(report.accepted_cuts, 3);
    assert_eq!(report.elapsed_ms, Some(1_800_000));
    assert_eq!(report.opening_structure, Some((3, 10)));
    assert_eq!(report.final_structure, Some((0, 5)));
    // Half an hour of loop: two accepts become four an hour, three cuts six.
    assert_eq!(hourly(report.accepts_per_hour()), Some(4.0));
    assert_eq!(hourly(report.cuts_per_hour()), Some(6.0));
}

#[test]
fn accepted_cuts_report_the_estimated_cascade_beside_the_actual_saving() {
    let report = report(vec![
        start(OrderingStrategy::CascadeSaving),
        cascade(3.4, 3.4),
        cascade(2.6, 1.4),
    ]);
    assert_eq!(report.cascade_accepts, 2);
    assert_eq!(sum(&report.cascade_estimated), 6.0);
    assert_eq!(sum(&report.cascade_actual), 4.8);
}

#[test]
fn a_journal_with_no_accepted_cuts_reports_no_cascade_comparison() {
    let report = report(vec![start(OrderingStrategy::Random)]);
    assert_eq!(report.cascade_accepts, 0);
    assert!(report.cascade_estimated.is_empty());
    assert!(report.cascade_actual.is_empty());
}

#[test]
fn an_accept_predicted_to_save_nothing_is_counted_without_a_ratio() {
    let report = report(vec![
        start(OrderingStrategy::CascadeSaving),
        cascade(0.0, 1.0),
    ]);
    assert_eq!(report.cascade_accepts, 1);
    assert_eq!(sum(&report.cascade_estimated), 0.0);
    assert_eq!(sum(&report.cascade_actual), 1.0);
}

#[test]
fn screen_coverage_records_are_totalled_without_inflating_scorer_calls() {
    let report = report(vec![
        start(OrderingStrategy::Random),
        Event::Screen,
        Event::Screened { screened: 4 },
        Event::Screened { screened: 2 },
    ]);
    assert_eq!(report.screened, 6);
    assert_eq!(report.screen_calls, 1, "coverage is not a scorer call");
}

#[test]
fn the_last_coverage_record_becomes_the_reported_progress() {
    let report = report(vec![
        start(OrderingStrategy::Random),
        coverage(12, 2, 2, 0, 0, None, BlockedBreakdown::default()),
        // A later run cut two of them and screened more of what was left.
        coverage(10, 2, 3, 0, 2, None, BlockedBreakdown::default()),
    ]);
    let cov = report.coverage.expect("coverage");
    assert_eq!(cov.hidden, 10);
    assert_eq!(cov.checked, 3);
    assert_eq!((cov.checked, cov.checkable), (3, 10));
}

#[test]
fn the_report_carries_the_whole_coverage_block_not_just_the_percentage() {
    let report = report(vec![
        start(OrderingStrategy::Random),
        coverage(5013, 42, 1204, 0, 7, None, BlockedBreakdown::default()),
    ]);
    let cov = report.coverage.expect("coverage");
    assert_eq!(cov.tagged, 42);
    assert_eq!(cov.checkable, 5013, "tagged stay in the denominator");
    assert_eq!(cov.unchecked(), 3809);
    assert_eq!(cov.cut, 7);
}

#[test]
fn the_report_carries_the_blocked_figure_and_reads_a_pre_93_journal() {
    let report = report(vec![
        start(OrderingStrategy::Random),
        coverage(5013, 42, 4200, 3000, 7, None, BlockedBreakdown::default()),
    ]);
    let cov = report.coverage.expect("coverage");
    assert_eq!(cov.blocked, 3000);
    assert_eq!(
        cov.blocked_by_reason.total(),
        3000,
        "a journal that names no reasons still accounts for its blocked total"
    );
    assert_eq!(cov.blocked_by_reason.unrecorded, 3000);
}

#[test]
fn the_report_names_the_blocked_breakdown_and_its_dominant_category() {
    let mut reasons = BlockedBreakdown::default();
    for _ in 0..380 {
        reasons.add(BlockedReason::AggregateSquash);
    }
    for _ in 0..32 {
        reasons.add(BlockedReason::MissingActivation);
    }
    let report = report(vec![
        start(OrderingStrategy::Random),
        coverage(5013, 0, 4200, 412, 0, Some("corp-aaaa1111"), reasons),
    ]);
    let cov = report.coverage.expect("coverage");
    assert_eq!(cov.blocked, 412);
    assert_eq!(
        cov.blocked_by_reason.total(),
        412,
        "the breakdown accounts for every blocked uuid"
    );
    assert_eq!(
        report.dominant_blocked_reason.map(|r| r.code()),
        Some("aggregate-squash")
    );
    assert_eq!(cov.blocked_by_reason.aggregate_squash, 380);
}

#[test]
fn blocked_reasons_are_reported_per_epoch_across_corpus_changes() {
    let breakdown = |reason: BlockedReason, n: usize| {
        let mut out = BlockedBreakdown::default();
        for _ in 0..n {
            out.add(reason);
        }
        out
    };
    let of = |identity: &str, blocked: usize, reasons: BlockedBreakdown| {
        coverage(100, 0, 90, blocked, 0, Some(identity), reasons)
    };
    let report = report(vec![
        start(OrderingStrategy::Random),
        of("corp-old", 40, breakdown(BlockedReason::AggregateSquash, 40)),
        of("corp-old", 30, breakdown(BlockedReason::AggregateSquash, 30)),
        of("corp-new", 5, breakdown(BlockedReason::MissingActivation, 5)),
    ]);
    assert_eq!(
        report.blocked_epochs.len(),
        2,
        "{:?}",
        report.blocked_epochs
    );
    assert_eq!(
        report.blocked_epochs[0].corpus_identity.as_deref(),
        Some("corp-old")
    );
    assert_eq!(
        report.blocked_epochs[0].blocked, 30,
        "the freshest snapshot"
    );
    assert_eq!(
        report.blocked_epochs[0].blocked_by_reason.aggregate_squash,
        30
    );
    assert_eq!(
        report.blocked_epochs[1].corpus_identity.as_deref(),
        Some("corp-new")
    );
    assert_eq!(
        report.blocked_epochs[1]
            .blocked_by_reason
            .missing_activation,
        5,
        "the new epoch is its own row, never folded into the old one"
    );
    // The current-epoch figures stay the latest snapshot, as before.
    assert_eq!(report.coverage.expect("coverage").blocked, 5);
    assert_eq!(report.corpus_identity.as_deref(), Some("corp-new"));
}

#[test]
fn the_report_names_the_epoch_and_whether_that_sweep_finished() {
    let finished = report(vec![
        start(OrderingStrategy::Random),
        coverage(4, 0, 4, 0, 1, Some("corp-aaaa1111"), BlockedBreakdown::default()),
    ]);
    assert_eq!(finished.corpus_identity.as_deref(), Some("corp-aaaa1111"));
    assert!(finished.coverage.expect("coverage").sweep_complete());

    let fresh = report(vec![
        start(OrderingStrategy::Random),
        coverage(4, 0, 4, 0, 1, Some("corp-aaaa1111"), BlockedBreakdown::default()),
        coverage(4, 0, 1, 0, 0, Some("corp-bbbb2222"), BlockedBreakdown::default()),
    ]);
    assert_eq!(fresh.corpus_identity.as_deref(), Some("corp-bbbb2222"));
    assert!(!fresh.coverage.expect("coverage").sweep_complete());

    let old = report(vec![coverage(
        10,
        0,
        10,
        0,
        0,
        None,
        BlockedBreakdown::default(),
    )]);
    assert_eq!(old.corpus_identity, None);
    assert!(old.coverage.expect("coverage").sweep_complete());
}

#[test]
fn a_journal_with_no_coverage_record_names_no_epoch() {
    let report = report(vec![start(OrderingStrategy::Random)]);
    assert_eq!(report.corpus_identity, None);
    assert!(
        report.coverage.is_none(),
        "no coverage state is not an unfinished sweep"
    );
}

#[test]
fn a_journal_with_no_coverage_record_reports_no_block_figures() {
    let report = report(vec![start(OrderingStrategy::Random)]);
    assert!(report.coverage.is_none(), "no coverage state is not zero left");
    assert_eq!(report.dominant_blocked_reason, None);
    assert!(report.blocked_epochs.is_empty());
}

#[test]
fn a_journal_with_no_coverage_record_reports_no_coverage() {
    let report = report(vec![start(OrderingStrategy::Random)]);
    assert!(report.coverage.is_none(), "no coverage state is not 0%");
}

#[test]
fn the_report_carries_the_winner_figures_and_the_budget_trim() {
    let report = report(vec![
        start(OrderingStrategy::Random),
        Event::Budget {
            est_ms_per_creature: m(18_000.0),
            dropped_individuals: 24,
            dropped_bundles: 7,
        },
        Event::Winners(Winners {
            screened: 38,
            confirmed: 22,
            applied: 1,
            carried: 21,
            plans: 9,
            skipped: 3,
            best_cuts: 14,
            best_delta: m(1.2e-4),
            dropped: 31,
            est_ms_per_creature: 18_000,
        }),
    ]);
    let winners = report.winners.expect("winner figures");
    assert_eq!(winners.confirmed, 22);
    assert_eq!(winners.carried, 21);
    assert_eq!(report.est_ms_per_creature, Some(m(18_000.0)));
    assert_eq!(report.budget_dropped, 31);
    assert_eq!(report.budget_trims, 1);
}

#[test]
fn a_journal_with_no_winners_record_reports_none_rather_than_zeroes() {
    let report = report(vec![start(OrderingStrategy::Random)]);
    assert!(report.winners.is_none());
    assert_eq!(report.est_ms_per_creature, None);
    assert_eq!(report.budget_trims, 0);
}

#[test]
fn a_cohort_that_fitted_the_budget_is_not_counted_as_a_trim() {
    let report = report(vec![
        start(OrderingStrategy::Random),
        Event::Budget {
            est_ms_per_creature: m(900.0),
            dropped_individuals: 0,
            dropped_bundles: 0,
        },
    ]);
    assert_eq!(report.budget_trims, 0);
    assert_eq!(report.budget_dropped, 0);
    assert_eq!(report.est_ms_per_creature, Some(m(900.0)));
}

#[test]
fn the_first_start_names_the_run_and_the_last_stop_ends_it() {
    let second = Event::Start {
        seed: 9,
        ordering: OrderingStrategy::LowFanOut,
        ordering_random_quota: m(0.5),
        hidden: 2,
        synapses: 6,
        opening_score: m(0.75),
    };
    let report = report(vec![
        start(OrderingStrategy::Random),
        stop(1, 3, 0.6, 0.1, (2, 6), 1_000),
        second,
        Event::Batch { candidates: 5 },
        stop(4, 2, 0.8, 0.05, (1, 3), 2_000),
    ]);
    assert_eq!(report.seed, Some(7));
    assert_eq!(report.ordering, Some(OrderingStrategy::Random));
    assert_eq!(report.opening_score, Some(m(0.50)));
    assert_eq!(report.opening_structure, Some((3, 10)));
    assert_eq!(report.accepts, 4);
    // Batches are counted, and a stop record only ever raises the count.
    assert_eq!(report.experiments, 4);
    assert_eq!(report.final_structure, Some((1, 3)));
    assert_eq!(report.stop_reason.as_deref(), Some("timeout"));
    assert_eq!(report.journals, vec!["experiments.jsonl".to_string()]);
}

#[test]
fn a_tail_adds_its_batches() {
    let report = report(vec![
        Event::CoverageTail { batches: 3 },
        Event::CoverageTail { batches: 4 },
    ]);
    assert_eq!(report.coverage_tail_batches, 7);
}

#[test]
fn a_count_that_no_longer_fits_gives_no_report() {
    let events = vec![
        Event::CoverageTail { batches: u64::MAX },
        Event::CoverageTail { batches: 1 },
    ];
    assert!(summarise(Vec::new(), events).is_none());
}

#[test]
fn blocked_neurons_without_a_reason_are_unrecorded() {
    let mut reasons = BlockedBreakdown::default();
    reasons.add(BlockedReason::Other);
    let padded = account_for_every_blocked(5, reasons);
    assert_eq!(padded.unrecorded, 4);
    assert_eq!(padded.count(BlockedReason::Other), 1);
    // A breakdown that already says more is left alone.
    assert_eq!(account_for_every_blocked(0, reasons).total(), 1);
}

#[test]
fn the_commonest_reason_leads_and_the_first_of_equals() {
    let mut reasons = BlockedBreakdown::default();
    assert_eq!(reasons.dominant(), None);
    reasons.add(BlockedReason::Other);
    reasons.add(BlockedReason::UnsafeTopology);
    assert_eq!(reasons.dominant(), Some((BlockedReason::UnsafeTopology, 1)));
    reasons.add(BlockedReason::Other);
    assert_eq!(reasons.dominant(), Some((BlockedReason::Other, 2)));
    let codes: Vec<&str> = [
        BlockedReason::AggregateSquash,
        BlockedReason::MissingActivation,
        BlockedReason::UnsafeTopology,
        BlockedReason::ValidationFailed,
    ]
    .iter()
    .map(|r| r.code())
    .collect();
    assert_eq!(
        codes,
        vec![
            "aggregate-squash",
            "missing-activation",
            "unsafe-topology",
            "validation-failed"
        ]
    );
}

#[test]
fn one_row_is_kept_for_each_corpus() {
    let mut epochs: Vec<EpochBlocked> = Vec::new();
    let mut row = |identity: Option<&str>, blocked: usize| {
        let mut reasons = BlockedBreakdown::default();
        reasons.unrecorded = blocked;
        let cov = Coverage {
            hidden: 9,
            tagged: 0,
            checkable: 9,
            checked: 9,
            blocked,
            blocked_by_reason: reasons,
            cut: 0,
        };
        record_epoch_blocked(&mut epochs, &identity.map(|i| i.to_string()), &cov);
    };
    row(None, 1);
    row(Some("a"), 2);
    row(None, 3);
    let seen: Vec<(Option<&str>, usize)> = epochs
        .iter()
        .map(|e| (e.corpus_identity.as_deref(), e.blocked))
        .collect();
    assert_eq!(seen, vec![(None, 3), (Some("a"), 2)]);
    assert_eq!(epochs[0].blocked_by_reason.unrecorded, 3);
}

#[test]
fn nothing_is_left_when_more_was_checked_than_can_be() {
    let cov = Coverage {
        hidden: 3,
        tagged: 0,
        checkable: 3,
        checked: 5,
        blocked: 0,
        blocked_by_reason: BlockedBreakdown::default(),
        cut: 0,
    };
    assert_eq!(cov.unchecked(), 0);
}

#[test]
fn the_gain_spans_every_run_of_the_journals() {
    let second = Event::Start {
        seed: 8,
        ordering: OrderingStrategy::Random,
        ordering_random_quota: m(0.0),
        hidden: 3,
        synapses: 10,
        opening_score: m(0.75),
    };
    let report = report(vec![
        start(OrderingStrategy::Random),
        stop(1, 1, 0.75, 0.25, (2, 8), 1_000),
        second,
        stop(1, 1, 1.0, 0.25, (1, 4), 1_000),
    ]);
    let gain = report.cumulative_delta().expect("both ends are known");
    assert_eq!((v(gain.from), v(gain.to)), (0.5, 1.0));
    assert_eq!(v(gain.to) - v(gain.from), 0.5);
}

#[test]
fn without_both_ends_there_is_no_gain() {
    assert!(report(vec![start(OrderingStrategy::Random)])
        .cumulative_delta()
        .is_none());
    assert!(report(vec![stop(1, 1, 0.75, 0.25, (2, 8), 1_000)])
        .cumulative_delta()
        .is_none());
}

#[test]
fn a_run_that_took_no_time_has_no_rates() {
    let report = report(vec![stop(3, 1, 0.75, 0.25, (2, 8), 0)]);
    assert_eq!(report.accepts_per_hour(), None);
    assert_eq!(report.cuts_per_hour(), None);
}

#[test]
fn a_row_words_its_own_padded_breakdown() {
    let mut reasons = BlockedBreakdown::default();
    reasons.missing_activation = 32;
    let report = report(vec![coverage(500, 0, 500, 412, 0, Some("c"), reasons)]);
    let row = &report.blocked_epochs[0];
    let codes: Vec<(&str, usize)> = row
        .blocked_by_reason
        .ranked()
        .iter()
        .map(|r| (r.reason.code(), r.count))
        .collect();
    assert_eq!(codes, vec![("unrecorded", 380), ("missing-activation", 32)]);
    assert_eq!(
        row.reasons(&vec!["92.2".to_string(), "7.8".to_string()]),
        "unrecorded 380 (92.2%) · missing-activation 32 (7.8%)"
    );
    let none = BlockedBreakdown::default();
    assert_eq!(none.summary(&Vec::new()), "");
}

#[test]
fn groups_that_were_cut_at_once_are_counted_apart() {
    let group = Event::Cascade {
        kind: "group".into(),
        cuts: 2,
        estimated_hidden: 2,
        estimated_synapses: 3,
        actual_hidden: 2,
        actual_synapses: 3,
        estimated_growth_units: m(2.3),
        actual_growth_units: m(2.3),
    };
    let report = report(vec![cascade(1.0, 1.0), group]);
    assert_eq!(report.cascade_accepts, 2);
    assert_eq!(report.group_accepts, 1);
    assert_eq!(report.group_cuts_accepted, 2);
    assert_eq!(report.group_hidden_removed, 2);
    assert_eq!(sum(&report.group_growth_units), 2.3);
}

#[test]
fn the_candidates_before_the_first_win_are_known_once_something_won() {
    let early = report(vec![Event::Batch { candidates: 4 }, full(false, 0.0, 0, 1)]);
    assert_eq!(early.candidates_before_first_win, None);
    let late = report(vec![
        Event::Batch { candidates: 4 },
        full(true, 0.6, 1, 1),
        Event::Batch { candidates: 4 },
        full(true, 0.7, 1, 2),
    ]);
    assert_eq!(late.candidates_before_first_win, Some(4));
}

#[test]
fn winners_are_told_where_anything_was_tried() {
    let mut winners = Winners {
        screened: 0,
        confirmed: 0,
        applied: 0,
        carried: 0,
        plans: 0,
        skipped: 0,
        best_cuts: 0,
        best_delta: m(0.0),
        dropped: 0,
        est_ms_per_creature: 0,
    };
    assert!(!winners.has_any());
    winners.plans = 1;
    assert!(winners.has_any());
}

#[test]
fn a_rejected_cohort_is_counted_whatever_it_names() {
    let report = report(vec![full(true, 0.6, 1, 1), full(false, 0.0, usize::MAX, 2)]);
    assert_eq!(report.full_calls, 2);
    assert_eq!((report.full_accepts, report.full_rejects), (1, 1));
    assert_eq!(report.accepted_cuts, 1);
    let over = vec![full(true, 0.6, 1, 1), full(true, 0.7, usize::MAX, 2)];
    assert!(summarise(Vec::new(), over).is_none());
}
