use std::collections::HashSet;

use ockham::accept::{cut_so_far, StampedAccept};
use ockham::blocked::{BlockedBreakdown, BlockedReason};
use ockham::creature::Structure;
use ockham::filing::{
    cascade_event, full_event, pass_unscreened, replay_sample, screen_coverage,
    skip_reason_tally, skip_try, unchecked_split, visits, ScreenKind, ScreenOutcomeKind,
    WinnerTally,
};
use ockham::judge::{EntryKind, FullCandidate, FullOutcome};
use ockham::measure::Measure;
use ockham::neighbourhood::CascadeEstimate;
use ockham::promote::BundleMember;
use ockham::report::{summarise, Coverage, Event};
use ockham::run::{
    budget_trim_line, cohort_budget, full_scoring_line, reserve_stands, screen_ladder_line,
    source_check, standing_pool, update_pool, CohortBudget, MAX_CONFIRMED_POOL,
};
use ockham::run_loop::{
    choose_replay, open_replay, probe_count, ConfirmedWin, Gate, LoopState, Origin, Phase, ReplayStep, Step,
    StopReason, TailTerms,
};
use ockham::screening::{ProgressiveScreen, StageEnd, StageRecord};
use ockham::sweep::{
    CandidateKind, SampledWinner, ScreenRejection, ScreenedLoser, SweepCandidate, SweepSkip,
    KNOWN_FAILURE_REASON,
};
use ockham::verdict::{cohort_verdicts, Outcome};

fn m(value: f64) -> Measure {
    Measure {
        bits: value.to_bits(),
    }
}

fn v(measure: Measure) -> f64 {
    f64::from_bits(measure.bits)
}

fn ids(list: &[&str]) -> Vec<String> {
    list.iter().map(|t| t.to_string()).collect()
}

#[test]
fn the_full_scoring_line_no_longer_conflates_individuals_with_bundles() {
    assert_eq!(
        full_scoring_line(Some(8), 38, 0),
        "full-scoring 8 of 38 sampled winners individually; bundling all 38"
    );
    assert_eq!(
        full_scoring_line(None, 38, 0),
        "full-scoring 38 sampled winners plus bundles"
    );
    assert_eq!(
        full_scoring_line(None, 38, 21),
        "full-scoring 38 sampled winners individually; bundling all 59 (21 carried)"
    );
    // A cap larger than the winner list caps nothing.
    assert_eq!(
        full_scoring_line(Some(99), 38, 0),
        "full-scoring 38 sampled winners plus bundles"
    );
    for line in [
        full_scoring_line(Some(8), 38, 0),
        full_scoring_line(None, 38, 21),
    ] {
        assert!(!line.contains("keeping top"), "{line}");
    }
}

fn member(uuid: &str, delta: f64) -> BundleMember {
    BundleMember {
        uuid: uuid.into(),
        kind: CandidateKind::Identity,
        delta: m(delta),
    }
}

#[test]
fn a_pool_member_the_incumbent_no_longer_carries_is_dropped() {
    let pool = vec![
        member("h_a", 3e-6),
        member("gone", 9e-6),
        member("h_b", 1e-6),
    ];
    let applied = ids(&["h_a", "h_b"]);
    let standing = standing_pool(&pool, &applied);
    assert_eq!(
        standing.iter().map(|m| m.uuid.as_str()).collect::<Vec<_>>(),
        vec!["h_a", "h_b"],
        "a stale cut leaves rather than voiding every plan it joins"
    );
    assert!(standing_pool(&Vec::new(), &applied).is_empty());
}

fn entry(uuids: &[&str], delta: f64) -> FullCandidate {
    FullCandidate {
        stem: uuids.join("-"),
        kind: if uuids.len() == 1 {
            EntryKind::Individual
        } else {
            EntryKind::Bundle
        },
        uuids: ids(uuids),
        score: m(0.5 + delta),
        error: m(0.5),
        complexity_penalty: m(0.0),
        delta: m(delta),
    }
}

/// An outcome whose individuals carry the given deltas.
fn outcome_with(individuals: &[(&str, f64)], winner: Option<&str>) -> FullOutcome {
    FullOutcome {
        incumbent_score: m(0.5),
        incumbent_error: m(0.5),
        individuals: individuals
            .iter()
            .map(|(uuid, delta)| entry(&[*uuid], *delta))
            .collect(),
        bundles: Vec::new(),
        groups: Vec::new(),
        sample_false_positives: Vec::new(),
        winner: winner.map(|uuid| entry(&[uuid], 0.3)),
        full_ms: 10,
        skipped_bundles: 0,
        dropped_individuals: 0,
        dropped_bundles: 0,
        capped_plans: 0,
    }
}

#[test]
fn the_pool_keeps_confirmed_winners_and_forgets_the_rest() {
    let pool = update_pool(
        Vec::new(),
        &Vec::new(),
        &outcome_with(&[("h_a", 3e-6), ("h_b", 9e-6), ("h_c", -1.0)], Some("h_a")),
        m(1e-6),
    );
    assert_eq!(
        pool.iter().map(|m| m.uuid.as_str()).collect::<Vec<_>>(),
        vec!["h_b"],
        "the applied cut and the loser both leave; the confirmed one stays"
    );

    // A later cohort measures h_b as a loser: the latest verdict wins and the
    // old delta must not resurrect it.
    let pool = update_pool(
        pool,
        &Vec::new(),
        &outcome_with(&[("h_b", -1.0)], None),
        m(1e-6),
    );
    assert!(pool.is_empty(), "{pool:?}");
}

#[test]
fn the_pool_holds_one_entry_per_uuid_and_drops_the_weakest_on_overflow() {
    let many: Vec<(String, f64)> = (0..MAX_CONFIRMED_POOL + 4)
        .map(|i| (format!("h{i:03}"), 1e-3 + i as f64 * 1e-4))
        .collect();
    let refs: Vec<(&str, f64)> = many.iter().map(|(u, d)| (u.as_str(), *d)).collect();
    let pool = update_pool(
        Vec::new(),
        &Vec::new(),
        &outcome_with(&refs, None),
        m(1e-6),
    );
    assert_eq!(pool.len(), MAX_CONFIRMED_POOL);
    assert!(
        pool.iter().all(|m| m.uuid != "h000"),
        "the weakest members are the ones dropped"
    );

    // Re-filing the same uuids must not duplicate them.
    let pool = update_pool(
        pool,
        &Vec::new(),
        &outcome_with(&refs[..4], None),
        m(1e-6),
    );
    let unique: HashSet<&str> = pool.iter().map(|m| m.uuid.as_str()).collect();
    assert_eq!(unique.len(), pool.len());
}

/// How a cohort is sized when a creature takes `ms` and a quarter of the time
/// is kept back.
fn sized(ms: f64, remaining_ms: f64) -> CohortBudget {
    let creatures = (remaining_ms * 0.75 / ms).floor();
    cohort_budget(Some(m(ms)), m(creatures), creatures as usize)
}

#[test]
fn the_cohort_is_sized_to_the_budget_with_a_check_in_reserve() {
    // 100s left, a quarter reserved for applying the win: 75 creatures, one of
    // which is the incumbent baseline.
    assert_eq!(sized(1_000.0, 100_000.0), CohortBudget::Entries(74));
    assert_eq!(
        sized(1_000.0, 1_000.0),
        CohortBudget::TooSmall,
        "a cohort that cannot finish must never be started"
    );
}

#[test]
fn the_cost_estimate_comes_from_observed_full_timings() {
    assert_eq!(cohort_budget(None, m(0.0), 0), CohortBudget::Unmeasured);
    assert_eq!(
        cohort_budget(Some(m(0.0)), m(0.0), 0),
        CohortBudget::Unmeasured
    );
    assert_eq!(
        sized(15_000.0, 600_000.0),
        CohortBudget::Entries(29),
        "a first batch with no full timing still launches a bounded cohort"
    );
}

#[test]
fn the_trim_line_names_what_was_dropped_and_why() {
    let mut full = outcome_with(&[("h_a", 1.0)], None);
    full.dropped_individuals = 24;
    full.dropped_bundles = 7;
    assert_eq!(
        budget_trim_line(240, "18", &full),
        "full: budget 240s, est 18s/creature → 1 of 32 entries; dropped 31 (24 individual, 7 bundle)"
    );
}

#[test]
fn the_reserve_stands_only_when_the_budget_is_down_to_one_batch() {
    let half = |timeout_ms: f64| m(timeout_ms * 0.5);
    assert!(
        !reserve_stands(0, None, half(10_000.0), m(10.0)),
        "an unmeasured reserve must never cost replay a cohort"
    );
    let batch = Some(m(1_000.0));
    assert!(!reserve_stands(0, batch, half(10_000.0), m(4_000.0)));
    assert!(reserve_stands(0, batch, half(10_000.0), m(999.0)));
    assert!(reserve_stands(0, batch, half(10_000.0), m(0.0)));
    assert!(
        !reserve_stands(1, batch, half(10_000.0), m(0.0)),
        "a run that has already screened has nothing left to guarantee"
    );
    // A batch costing more than half the run is the whole plan.
    assert!(!reserve_stands(0, batch, half(1_000.0), m(500.0)));
}

fn skip(uuid: &str, reason: &str, blocked: Option<BlockedReason>) -> SweepSkip {
    SweepSkip {
        uuid: uuid.into(),
        permutation_index: 0,
        reason: reason.into(),
        blocked,
    }
}

#[test]
fn skip_reasons_are_tallied_by_code_not_by_neuron() {
    let aggregate = |uuid: &str| {
        skip(
            uuid,
            &format!("aggregate target `{uuid}-target` (`MEAN`); skipped"),
            Some(BlockedReason::AggregateSquash),
        )
    };
    let skips = vec![
        aggregate("h_a"),
        aggregate("h_b"),
        aggregate("h_c"),
        skip(
            "h_d",
            "typed synapse `h_d`→`h_if` (condition); skipped",
            Some(BlockedReason::UnsafeTopology),
        ),
        skip("h_e", KNOWN_FAILURE_REASON, None),
        skip(
            "h_f",
            "non-finite mean NaN",
            Some(BlockedReason::MissingActivation),
        ),
    ];
    assert_eq!(
        skip_reason_tally(&skips),
        "aggregate-squash: 3, known-failure: 1, missing-activation: 1, unsafe-topology: 1",
        "commonest first, then alphabetical, and no uuid in sight"
    );
    assert_eq!(skip_reason_tally(&Vec::new()), "");
}

#[test]
fn a_known_failure_files_no_blocked_reason() {
    let known = SweepSkip {
        uuid: "h_known".into(),
        permutation_index: 0,
        reason: KNOWN_FAILURE_REASON.into(),
        blocked: None,
    };
    let blocked = SweepSkip {
        uuid: "h_blocked".into(),
        permutation_index: 1,
        reason: "aggregate target `t` (`MEAN`); skipped".into(),
        blocked: Some(BlockedReason::AggregateSquash),
    };
    let known = skip_try(&known);
    assert_eq!(known.kind, ScreenKind::KnownFailure);
    assert_eq!(known.blocked_reason, None);
    let blocked = skip_try(&blocked);
    assert_eq!(blocked.kind, ScreenKind::Skipped);
    assert_eq!(
        blocked.blocked_reason,
        Some(BlockedReason::AggregateSquash),
        "a blocked visit files the code that stopped it"
    );

    // Fail closed: a skip carrying neither the known-failure reason nor a
    // code is blocked for an unknown reason.
    let unexplained = SweepSkip {
        uuid: "h_odd".into(),
        permutation_index: 2,
        reason: "something new".into(),
        blocked: None,
    };
    let unexplained = skip_try(&unexplained);
    assert_eq!(unexplained.kind, ScreenKind::Skipped);
    assert_eq!(unexplained.blocked_reason, Some(BlockedReason::Other));
}

fn winner(uuid: &str, kind: CandidateKind) -> SampledWinner {
    SampledWinner {
        candidate: candidate(uuid, kind),
        score: m(0.6),
        baseline_score: m(0.5),
        delta: m(0.1),
    }
}

fn candidate(uuid: &str, kind: CandidateKind) -> SweepCandidate {
    SweepCandidate {
        uuid: uuid.into(),
        members: vec![uuid.into()],
        permutation_index: 0,
        kind,
        stem: "c000".into(),
    }
}

fn loser(uuid: &str, kind: CandidateKind) -> ScreenedLoser {
    ScreenedLoser {
        uuid: uuid.into(),
        kind,
        delta: m(-0.1),
        stage: 0,
        reason: ScreenRejection::ClearlyWorse,
    }
}

#[test]
fn screens_are_filed_without_groups_and_a_tail_files_no_winner() {
    let skips = vec![
        skip("h_new", KNOWN_FAILURE_REASON, None),
        skip("h_seen", KNOWN_FAILURE_REASON, None),
    ];
    let seen = ids(&["h_seen"]);
    let winners = vec![
        winner("h_a", CandidateKind::Identity),
        winner("h_g", CandidateKind::Group),
    ];
    let losers = vec![
        loser("h_b", CandidateKind::Ablation),
        loser("h_h", CandidateKind::Group),
    ];
    let filed = screen_coverage(visits(&skips, &seen), &winners, &losers, false);
    let uuids: Vec<&str> = filed.iter().map(|t| t.uuid.as_str()).collect();
    assert_eq!(uuids, vec!["h_new", "h_a", "h_b"]);
    assert_eq!(
        filed[1].kind,
        ScreenKind::Scored {
            kind: CandidateKind::Identity,
            outcome: ScreenOutcomeKind::Winner
        }
    );
    assert_eq!(
        filed[2].kind,
        ScreenKind::Scored {
            kind: CandidateKind::Ablation,
            outcome: ScreenOutcomeKind::Loser
        }
    );
    let tail = screen_coverage(visits(&skips, &seen), &winners, &losers, true);
    let uuids: Vec<&str> = tail.iter().map(|t| t.uuid.as_str()).collect();
    assert_eq!(uuids, vec!["h_new", "h_b"]);
}

#[test]
fn without_a_screen_every_candidate_passes() {
    let passed = pass_unscreened(vec![
        candidate("h_a", CandidateKind::Identity),
        candidate("h_b", CandidateKind::Ablation),
    ]);
    let uuids: Vec<&str> = passed.iter().map(|w| w.candidate.uuid.as_str()).collect();
    assert_eq!(uuids, vec!["h_a", "h_b"]);
    assert!(passed.iter().all(|w| v(w.delta) == 1.0
        && v(w.score) == 1.0
        && v(w.baseline_score) == 0.0));
}

#[test]
fn a_known_win_is_replayed_on_its_own() {
    let sample = replay_sample(&"h_a".to_string(), CandidateKind::Ablation);
    assert_eq!(sample.candidate.uuid, "h_a");
    assert_eq!(sample.candidate.members, ids(&["h_a"]));
    assert_eq!(sample.candidate.stem, "r000");
    assert_eq!(v(sample.delta), 1.0);
}

#[test]
fn a_tally_counts_each_confirmed_neuron_once() {
    let mut tally = WinnerTally::new();
    tally.sampled(3);
    let mut first = outcome_with(&[("h_a", 0.2), ("h_b", 0.1), ("h_c", -0.1)], None);
    first.winner = Some(entry(&["h_a", "h_d"], 0.4));
    first.bundles = vec![entry(&["h_a", "h_d"], 0.4)];
    first.skipped_bundles = 2;
    first.dropped_individuals = 1;
    first.dropped_bundles = 3;
    assert!(tally.can_observe(&first));
    tally.observe(&first, m(1e-6));
    let second = outcome_with(&[("h_b", 0.3)], Some("h_b"));
    tally.observe(&second, m(1e-6));
    let winners = tally.finish(5, Some(18_000));
    assert_eq!(winners.screened, 3);
    assert_eq!(winners.confirmed, 3, "h_a, h_b and h_d");
    assert_eq!(winners.applied, 3);
    assert_eq!(winners.carried, 5);
    assert_eq!(winners.plans, 1);
    assert_eq!(winners.skipped, 2);
    assert_eq!(winners.dropped, 4);
    assert_eq!(winners.best_cuts, 2);
    assert_eq!(v(winners.best_delta), 0.4, "the largest cut, not the last");
    assert_eq!(winners.est_ms_per_creature, 18_000);
    assert_eq!(tally.finish(0, None).est_ms_per_creature, 0);
}

#[test]
fn verdicts_accept_exactly_what_the_winner_cut() {
    let sampled = vec![
        winner("h_a", CandidateKind::Identity),
        winner("h_b", CandidateKind::Ablation),
        winner("h_unscored", CandidateKind::Ablation),
    ];
    let mut full = outcome_with(&[("h_a", 0.2), ("h_b", -0.1)], None);
    full.winner = Some(entry(&["h_a", "h_pool"], 0.4));
    let list = cohort_verdicts(&sampled, &full);
    let seen: Vec<(&str, CandidateKind, Outcome, Option<f64>)> = list
        .iter()
        .map(|w| (w.uuid.as_str(), w.kind, w.outcome, w.full_delta.map(v)))
        .collect();
    assert_eq!(
        seen,
        vec![
            ("h_a", CandidateKind::Identity, Outcome::Accepted, Some(0.2)),
            ("h_b", CandidateKind::Ablation, Outcome::Rejected, Some(-0.1)),
            ("h_pool", CandidateKind::Ablation, Outcome::Accepted, None),
        ]
    );
    assert!(list.iter().all(|w| w.group.is_none()));
}

#[test]
fn a_winning_group_is_filed_for_each_member_with_the_whole_membership() {
    let mut sampled = winner("a1", CandidateKind::Group);
    sampled.candidate.members = ids(&["a1", "a2"]);
    let mut won = entry(&["a1", "a2"], 0.4);
    won.kind = EntryKind::Group;
    let mut full = outcome_with(&[("z", -0.1)], None);
    full.groups = vec![won.copy()];
    full.winner = Some(won);
    let filed = cohort_verdicts(&vec![sampled, winner("z", CandidateKind::Ablation)], &full);
    assert_eq!(filed.len(), 3);
    assert_eq!(filed[0].uuid, "z");
    assert_eq!(filed[0].outcome, Outcome::Rejected);
    for (verdict, uuid) in filed[1..].iter().zip(["a1", "a2"]) {
        assert_eq!(verdict.uuid, uuid);
        assert_eq!(verdict.kind, CandidateKind::Group);
        assert_eq!(verdict.outcome, Outcome::Accepted);
        assert_eq!(verdict.full_delta, None);
        assert_eq!(verdict.group, Some(ids(&["a1", "a2"])));
    }
    match full_event(&full, 1) {
        Event::Full { groups, cuts, .. } => assert_eq!((groups, cuts), (1, 2)),
        other => panic!("{other:?}"),
    }
}

#[test]
fn an_accepted_group_is_no_coverage_and_is_reported_apart() {
    let mut sampled = winner("a1", CandidateKind::Group);
    sampled.candidate.members = ids(&["a1", "a2"]);
    assert!(screen_coverage(Vec::new(), &vec![sampled], &Vec::new(), false).is_empty());
    let mut won = entry(&["a1", "a2"], 0.4);
    won.kind = EntryKind::Group;
    let estimate = CascadeEstimate {
        hidden_neurons: 2,
        synapses: 3,
        growth_units: m(2.3),
        blocked: false,
    };
    let opening = Structure {
        hidden: 3,
        synapses: 5,
    };
    let closing = Structure {
        hidden: 1,
        synapses: 2,
    };
    let event = cascade_event(
        won.kind.label(),
        won.uuids.len(),
        &estimate,
        opening,
        closing,
        m(2.3),
    );
    let report = summarise(Vec::new(), vec![event]).expect("the counts fit");
    assert_eq!(report.group_accepts, 1);
    assert_eq!(report.group_cuts_accepted, 2);
    assert_eq!(report.group_hidden_removed, 2);
    assert_eq!(report.group_growth_units, vec![m(2.3)]);
}

#[test]
fn a_group_that_lost_files_nothing_about_its_first_member() {
    let mut sampled = winner("a1", CandidateKind::Group);
    sampled.candidate.members = ids(&["a1", "a2"]);
    let both = vec![sampled, winner("a1", CandidateKind::Ablation)];
    let filed = cohort_verdicts(&both, &outcome_with(&[("a1", -0.1)], None));
    assert_eq!(filed.len(), 1, "the neuron's own entry is its own");
    assert_eq!(filed[0].kind, CandidateKind::Ablation);
    let mut alone = winner("a1", CandidateKind::Group);
    alone.candidate.members = ids(&["a1", "a2"]);
    let filed = cohort_verdicts(&vec![alone], &outcome_with(&[("a1", -0.1)], None));
    assert_eq!(filed.len(), 1, "what was scored on its own is always filed");
    assert_eq!(filed[0].uuid, "a1");
    assert_eq!(filed[0].full_delta, Some(m(-0.1)));
    assert_eq!(filed[0].group, None);
}

#[test]
fn a_carried_neuron_that_a_bundle_cut_leaves_the_pool() {
    let pool = vec![member("h_p", 3e-3), member("h_r", 2e-3)];
    let mut full = outcome_with(&[], None);
    full.winner = Some(entry(&["h_p", "h_q"], 0.4));
    let pool = update_pool(pool, &Vec::new(), &full, m(1e-6));
    let left: Vec<&str> = pool.iter().map(|m| m.uuid.as_str()).collect();
    assert_eq!(left, vec!["h_r"]);
}

#[test]
fn a_carried_neuron_has_the_kind_of_its_first_sampled_winner() {
    let group = || {
        let mut group = winner("h_a", CandidateKind::Group);
        group.candidate.members = ids(&["h_a", "h_b"]);
        group
    };
    let alone = || winner("h_a", CandidateKind::Identity);
    let full = outcome_with(&[("h_a", 0.2)], None);
    for (sampled, kind) in [
        (vec![alone(), group()], CandidateKind::Identity),
        (vec![group(), alone()], CandidateKind::Group),
        (vec![group()], CandidateKind::Group),
        (Vec::new(), CandidateKind::Ablation),
    ] {
        let pool = update_pool(Vec::new(), &sampled, &full, m(1e-6));
        assert_eq!(pool.len(), 1);
        assert_eq!(pool[0].kind, kind);
    }
}

#[test]
fn the_tally_counts_the_category_that_is_filed() {
    let odd = skip("h_odd", "something new", None);
    assert_eq!(skip_try(&odd).blocked_reason, Some(BlockedReason::Other));
    assert_eq!(skip_reason_tally(&vec![odd]), "other: 1");
}

#[test]
fn a_scored_cohort_is_journalled_with_its_winner() {
    let mut full = outcome_with(&[("h_a", 0.2)], None);
    match full_event(&full, 7) {
        Event::Full {
            individuals,
            bundles,
            groups,
            accepted,
            score,
            delta,
            cuts,
            elapsed_ms,
        } => {
            assert_eq!((individuals, bundles, groups), (1, 0, 0));
            assert_eq!((cuts, elapsed_ms), (0, 7));
            assert!(!accepted && score.is_none() && delta.is_none());
        }
        other => panic!("{other:?}"),
    }
    full.winner = Some(entry(&["h_a", "h_b"], 0.25));
    match full_event(&full, 9) {
        Event::Full {
            accepted,
            score,
            delta,
            cuts,
            ..
        } => {
            assert!(accepted);
            assert_eq!(score.map(v), Some(0.75));
            assert_eq!(delta.map(v), Some(0.25));
            assert_eq!(cuts, 2);
        }
        other => panic!("{other:?}"),
    }
}

#[test]
fn a_cut_may_remove_less_than_nothing() {
    let estimate = CascadeEstimate {
        hidden_neurons: 2,
        synapses: 5,
        growth_units: m(2.5),
        blocked: false,
    };
    let opening = Structure {
        hidden: 10,
        synapses: 20,
    };
    let closing = Structure {
        hidden: 9,
        synapses: 21,
    };
    match cascade_event("bundle", 3, &estimate, opening, closing, m(0.9)) {
        Event::Cascade {
            kind,
            cuts,
            estimated_hidden,
            estimated_synapses,
            actual_hidden,
            actual_synapses,
            ..
        } => {
            assert_eq!(kind, "bundle");
            assert_eq!((cuts, estimated_hidden, estimated_synapses), (3, 2, 5));
            assert_eq!((actual_hidden, actual_synapses), (1, -1));
        }
        other => panic!("{other:?}"),
    }
}

#[test]
fn screened_neurons_are_deferred() {
    let left = ids(&["h_a", "h_b", "h_c"]);
    assert_eq!(unchecked_split(&left, &ids(&["h_b", "h_x"])), (2, 1));
    assert_eq!(unchecked_split(&Vec::new(), &left), (0, 0));
}

#[test]
fn a_modified_source_aborts() {
    assert_eq!(source_check(&vec![1, 2], &vec![1, 2], "c.json"), Ok(()));
    for other in [vec![1], vec![1, 3], vec![1, 2, 3]] {
        assert_eq!(
            source_check(&vec![1, 2], &other, "c.json").unwrap_err(),
            "source creature c.json was modified; aborting"
        );
    }
}

#[test]
fn the_ladder_line_tells_every_rung() {
    let stage = |stage: usize, entered: usize, rejected: usize, promoted: usize| StageRecord {
        stage,
        rate: m(0.01),
        phase: 0,
        entered,
        rejected,
        promoted,
        records_scored: 100,
        baseline_score: m(0.9),
        mean_delta: m(0.0),
        ms: 1,
        outcome: StageEnd::Carried,
    };
    let screen = ProgressiveScreen {
        winners: Vec::new(),
        losers: vec![loser("h_a", CandidateKind::Ablation)],
        stages: vec![stage(0, 3, 1, 2), stage(1, 2, 0, 2)],
        baseline_score: Some(m(0.9)),
        screen_ms: 2,
    };
    let line = screen_ladder_line(&screen, &ids(&["1", "5"]), 3);
    assert!(line.contains('3') && line.contains("200"), "{line}");
}

fn gate() -> Gate {
    Gate {
        hidden: 2,
        cancelled: false,
        timed_out: false,
        max_experiments: None,
        reserving: false,
        exhausted: false,
    }
}

fn searching() -> LoopState {
    LoopState {
        replay_done: true,
        ..LoopState::new()
    }
}

#[test]
fn a_run_replays_first_then_screens_batches() {
    let mut state = LoopState::new();
    assert_eq!(state.advance(gate()), Step::Replay);
    let mut skipped = Vec::new();
    let step = open_replay(&Vec::new(), &Vec::new(), 0, &mut skipped);
    assert!(matches!(step, ReplayStep::Finished));
    state.replay_done = true;
    assert_eq!(state.advance(gate()), Step::Batch);
}

#[test]
fn the_reserve_stands_the_replay_down() {
    let mut state = LoopState::new();
    let reserving = Gate {
        reserving: true,
        ..gate()
    };
    assert_eq!(state.advance(reserving), Step::Batch);
    assert!(!state.replay_done);
}

#[test]
fn every_limit_stops_the_run_for_its_own_reason() {
    let cases = [
        (Gate { hidden: 0, ..gate() }, StopReason::NoHidden, "no-hidden"),
        (
            Gate {
                cancelled: true,
                ..gate()
            },
            StopReason::Cancelled,
            "cancelled",
        ),
        (
            Gate {
                timed_out: true,
                ..gate()
            },
            StopReason::Timeout,
            "timeout",
        ),
        (
            Gate {
                max_experiments: Some(0),
                ..gate()
            },
            StopReason::MaxExperiments,
            "max-experiments",
        ),
        (
            Gate {
                exhausted: true,
                ..gate()
            },
            StopReason::NoCandidates,
            "no-candidates",
        ),
    ];
    for (gate, reason, code) in cases {
        let mut state = searching();
        assert_eq!(state.advance(gate), Step::Stop, "{code}");
        assert_eq!(state.stop_reason, reason);
        assert_eq!(reason.code(), code);
    }
}

#[test]
fn an_exhausted_sweep_restarts_once_and_a_barren_pass_stops() {
    let mut state = searching();
    state.batch_filled(2);
    let exhausted = Gate {
        exhausted: true,
        ..gate()
    };
    assert_eq!(state.advance(exhausted), Step::Restart);
    assert_eq!(state.restarts, 1);
    assert_eq!(state.sweep_seed(u64::MAX), 0, "the seed wraps");
    assert_eq!(state.advance(exhausted), Step::Stop);
    assert_eq!(state.stop_reason, StopReason::NoCandidates);
}

fn tail() -> TailTerms {
    TailTerms {
        hidden: 1,
        out_of_time: false,
        has_store: true,
        has_screen: true,
    }
}

#[test]
fn a_replay_accept_opens_a_tail_only_where_it_can_file_screens() {
    let mut state = LoopState::new();
    assert_eq!(state.accept(Phase::Replay, 3), Origin::ReplayBundle);
    assert!(state.end_search(tail()));
    assert!(state.coverage_tail);
    assert_eq!(state.advance(gate()), Step::Batch, "nothing is replayed again");
    assert!(!state.batch_screened(4, 2), "tail winners are left unscored");
    assert_eq!((state.tail_batches, state.tail_screened), (1, 4));
    let timed_out = Gate {
        timed_out: true,
        ..gate()
    };
    assert_eq!(state.advance(timed_out), Step::Stop);
    assert_eq!(state.stop_reason, StopReason::ReplayAccepts);
    assert_eq!(state.tail_ended(), StopReason::Timeout);

    for terms in [
        TailTerms { hidden: 0, ..tail() },
        TailTerms {
            out_of_time: true,
            ..tail()
        },
        TailTerms {
            has_store: false,
            ..tail()
        },
        TailTerms {
            has_screen: false,
            ..tail()
        },
    ] {
        let mut state = LoopState::new();
        assert!(!state.end_search(terms));
        assert!(!state.coverage_tail);
        assert_eq!(state.stop_reason, StopReason::ReplayAccepts);
    }
}

#[test]
fn a_search_accept_keeps_searching() {
    let mut state = searching();
    state.batch_filled(3);
    assert!(state.batch_screened(3, 1));
    assert_eq!(state.accept(Phase::Search, 5), Origin::Search);
    assert_eq!(Origin::Search.label(), "search");
    assert_eq!(Origin::Replay.label(), "replay");
    assert_eq!(Origin::ReplayBundle.label(), "replay-bundle");
    state.restart_after_accept();
    assert_eq!(state.pass_candidates, 0);
    assert_eq!(state.advance(gate()), Step::Batch);
    assert_eq!(state.accepts, 1);
}

#[test]
fn scorer_failures_in_a_row_stop_the_run() {
    let mut state = searching();
    assert!(!state.scorer_failed(2));
    state.scorer_worked();
    assert!(!state.scorer_failed(2));
    assert!(state.scorer_failed(2));
    assert_eq!(state.stop_reason, StopReason::ScorerFailures);
    let mut poor = searching();
    poor.out_of_budget();
    assert_eq!(poor.stop_reason.code(), "budget");
}

#[test]
fn a_missed_replay_shrinks_before_it_probes() {
    let wins = ids(&["h_0", "h_1", "h_2", "h_3", "h_4", "h_5", "gone"]);
    let applied = ids(&["h_0", "h_1", "h_2", "h_3", "h_4", "h_5"]);
    let mut skipped = Vec::new();
    match open_replay(&wins, &applied, 0, &mut skipped) {
        ReplayStep::Plans(plans) => {
            assert_eq!(plans[0].len(), 6, "the combined plan is tried");
            assert!(plans.len() > 1);
        }
        other => panic!("{other:?}"),
    }
    assert_eq!(skipped, ids(&["gone"]));
    assert_eq!(probe_count(false, false, 6), Some(6));
    assert_eq!(probe_count(false, false, 20), Some(8));
    assert_eq!(probe_count(true, false, 6), None);
    assert_eq!(probe_count(false, true, 6), None);
    assert_eq!(probe_count(false, false, 1), None);
    let one = ids(&["h_0"]);
    assert!(matches!(
        open_replay(&one, &one, 0, &mut Vec::new()),
        ReplayStep::Single
    ));
}

#[test]
fn replayed_wins_are_capped_and_told_apart() {
    let win = |uuid: &str, accepted: bool| ConfirmedWin {
        uuid: uuid.into(),
        accepted,
    };
    let ranked = vec![
        win("h_a", true),
        win("h_skip", true),
        win("h_b", false),
        win("h_old", true),
        win("h_late", true),
    ];
    let choice = choose_replay(&ranked, &ids(&["h_old", "h_late"]), &ids(&["h_skip"]), 3);
    assert_eq!(choice.wins, ids(&["h_a", "h_b", "h_old"]));
    assert_eq!(
        (
            choice.accepted_only,
            choice.confirmed_only,
            choice.from_history
        ),
        (1, 1, 1)
    );
}

#[test]
fn a_tag_keeps_the_figures_of_its_accept() {
    let mut state = searching();
    state.begin_replay();
    let origin = state.accept(Phase::Replay, 2);
    let stamp = StampedAccept::of(&state, &entry(&["h_a", "h_b"], 0.25), origin, "abc");
    state.begin_replay();
    let bare = stamp.check_in(m(0.5), None, "corpus-1");
    assert_eq!((bare.accepts, bare.experiments, bare.cuts), (1, 1, 2));
    assert_eq!(bare.origin.label(), "replay-bundle");
    assert_eq!(bare.epoch, None, "there is nothing to qualify");
    let coverage = Coverage {
        hidden: 4,
        tagged: 0,
        checkable: 4,
        checked: 3,
        blocked: 0,
        blocked_by_reason: BlockedBreakdown::default(),
        cut: cut_so_far(6, 4),
    };
    let tagged = stamp.check_in(m(0.5), Some(coverage), "corpus-1");
    assert_eq!(tagged.epoch.as_deref(), Some("corpus-1"));
    assert_eq!(tagged.coverage.map(|c| c.cut), Some(2));
    assert_eq!(cut_so_far(4, 6), 0);
    assert_eq!(stamp.checksum, "abc");
}
