use std::collections::{BTreeMap, HashSet};

use ockham::judge::{
    entry_stem, evaluate_full, find_scores, judge_cohort, pending_entries, BundleWalk,
    CohortCounts, EntryKind, FullCandidate, FullOutcome, PendingEntry,
};
use ockham::measure::Measure;
use ockham::promote::{
    bundle_plans, members_of, plan_cohort, replay_plans, BundleMember, FullConfig,
    DISJOINT_HALVES_MIN, KIND_GROUP_MIN, MAX_BUNDLE_PLANS, MAX_REPLAY_PLANS, REPLAY_PROBE_LIMIT,
};
use ockham::scorer::{ScoreEntry, ScoreResult};
use ockham::sweep::{CandidateKind, SampledWinner, SweepCandidate};

fn m(value: f64) -> Measure {
    Measure {
        bits: value.to_bits(),
    }
}

fn v(measure: Measure) -> f64 {
    f64::from_bits(measure.bits)
}

fn sampled(uuid: &str, score: f64, baseline: f64) -> SampledWinner {
    SampledWinner {
        candidate: SweepCandidate {
            uuid: uuid.into(),
            members: vec![uuid.into()],
            permutation_index: 0,
            kind: CandidateKind::Identity,
            stem: "c000".into(),
        },
        score: m(score),
        baseline_score: m(baseline),
        delta: m(score - baseline),
    }
}

fn config() -> FullConfig {
    FullConfig::new(m(1e-6))
}

fn result(score: f64) -> ScoreResult {
    ScoreResult {
        score: m(score),
        error: m(1.0 - score),
        complexity_penalty: m(0.0),
        record_count: 1,
    }
}

/// Plans a cohort, builds what can be built on the neurons that are present,
/// scores it by stem, and judges it.
fn evaluate(
    present: &[String],
    winners: &Vec<SampledWinner>,
    cfg: &FullConfig,
    scores: &BTreeMap<&str, f64>,
    min_improvement: f64,
) -> FullOutcome {
    let cohort = plan_cohort(winners, cfg);
    let built: Vec<bool> = cohort
        .bundles
        .iter()
        .map(|plan| can_build(present, plan))
        .collect();
    let cut: Vec<bool> = cohort
        .groups
        .iter()
        .map(|group| group.iter().all(|uuid| present.contains(uuid)))
        .collect();
    let (pending, skipped_bundles) = pending_entries(winners, &cohort, &cut, &built);
    let score_of = |stem: &str| scores.get(stem).copied().unwrap_or(0.50);
    let baseline = score_of("baseline");
    let answer: Vec<ScoreEntry> = std::iter::once("baseline")
        .chain(pending.iter().map(|p| p.stem.as_str()))
        .map(|stem| ScoreEntry {
            key: stem.into(),
            result: result(score_of(stem)),
        })
        .collect();
    let differences: Vec<Measure> = answer
        .iter()
        .map(|e| m(v(e.result.score) - baseline))
        .collect();
    evaluate_full(
        &pending,
        &answer,
        &differences,
        m(min_improvement),
        CohortCounts {
            full_ms: 10,
            skipped_bundles,
            dropped_individuals: cohort.dropped_individuals,
            dropped_bundles: cohort.dropped_bundles,
            capped_plans: cohort.capped_plans,
        },
    )
    .unwrap()
}

/// Whether every cut of a plan still finds its neuron.
fn can_build(present: &[String], plan: &Vec<String>) -> bool {
    let mut walk = BundleWalk::new(plan.clone());
    let mut left: Vec<String> = present.to_vec();
    loop {
        match walk.next_required(&left) {
            Ok(Some(at)) => {
                let uuid = walk.uuids[at].clone();
                left.retain(|u| *u != uuid);
                walk.settle(true);
            }
            Ok(None) => return true,
            Err(_) => return false,
        }
    }
}

fn ids(list: &[&str]) -> Vec<String> {
    list.iter().map(|t| t.to_string()).collect()
}

fn three() -> Vec<String> {
    ids(&["h1", "h2", "h3"])
}

#[test]
fn sample_false_positive_is_rejected_by_full_scoring() {
    let one = vec![sampled("h1", 0.90, 0.50)];
    let scores = BTreeMap::from([("baseline", 0.50), ("i000", 0.40)]);
    let out = evaluate(&three(), &one, &config(), &scores, 1e-6);
    assert!(out.winner.is_none());
    assert_eq!(out.sample_false_positives.len(), 1);
    assert_eq!(out.sample_false_positives[0], "h1");
}

#[test]
fn interacting_bundle_is_not_assumed_additive() {
    let winners = vec![sampled("h1", 0.70, 0.50), sampled("h2", 0.60, 0.50)];
    let scores = BTreeMap::from([
        ("baseline", 0.50),
        ("i000", 0.70),
        ("i001", 0.60),
        ("b000", 0.40),
    ]);
    let out = evaluate(&three(), &winners, &config(), &scores, 1e-6);
    assert_eq!(out.bundles.len(), 1);
    assert!(v(out.bundles[0].delta) < 0.0);
    let win = out.winner.expect("an individual should win");
    assert_eq!(win.kind.label(), "individual");
    assert!(v(win.delta) > 0.0);
}

#[test]
fn bundle_can_outperform_every_individual() {
    let winners = vec![sampled("h1", 0.52, 0.50), sampled("h2", 0.51, 0.50)];
    let scores = BTreeMap::from([
        ("baseline", 0.50),
        ("i000", 0.52),
        ("i001", 0.51),
        ("b000", 0.80),
    ]);
    let out = evaluate(&three(), &winners, &config(), &scores, 1e-6);
    let win = out.winner.expect("bundle should win");
    assert_eq!(win.kind.label(), "bundle");
    assert_eq!(v(win.score), 0.80);
}

#[test]
fn tiny_positive_full_delta_is_accepted_as_next_parent() {
    let one = vec![sampled("h1", 0.51, 0.50)];
    let scores = BTreeMap::from([("baseline", 0.50), ("i000", 0.50 + 2e-6)]);
    let out = evaluate(&three(), &one, &config(), &scores, 1e-6);
    let win = out.winner.expect("tiny win");
    assert!(v(win.delta) > 1e-6);
    assert_eq!(win.kind.label(), "individual");
}

#[test]
fn apply_available_skips_unproposable_uuids() {
    let mut present = three();
    let mut walk = BundleWalk::new(ids(&["nope", "h1"]));
    while let Some(at) = walk.next_available(&present) {
        let uuid = walk.uuids[at].clone();
        present.retain(|u| *u != uuid);
        walk.settle(true);
    }
    assert_eq!(walk.applied, ids(&["h1"]));
    assert_eq!(present.len(), 2);
}

#[test]
fn a_required_cut_that_is_gone_names_itself() {
    let mut walk = BundleWalk::new(ids(&["h1", "h2"]));
    walk.settle(true);
    assert_eq!(
        walk.next_required(&ids(&["h3"])),
        Err("bundle: `h2` already gone after a prior step".to_string())
    );
    assert_eq!(walk.next_required(&ids(&["h2"])), Ok(Some(1)));
}

#[test]
fn replay_plans_shrink_from_the_weakest_end() {
    let ids: Vec<String> = (0..10).map(|i| format!("h{i}")).collect();
    let plans = replay_plans(&ids);
    let lengths: Vec<usize> = plans.iter().map(Vec::len).collect();
    assert_eq!(lengths, vec![10, 9, 8, 5, 4]);
    for plan in &plans {
        assert_eq!(plan[0], "h0", "every plan keeps the strongest member");
    }
    assert!(
        plans[1].iter().all(|u| u != "h9"),
        "the first shrink drops the weakest: {:?}",
        plans[1]
    );
    assert!(replay_plans(&ids[..1].to_vec()).is_empty());
}

#[test]
fn a_replay_cohort_is_bounded() {
    let ids: Vec<String> = (0..40).map(|i| format!("h{i:02}")).collect();
    let plans = replay_plans(&ids);
    assert!(plans.len() <= MAX_REPLAY_PLANS, "{}", plans.len());
    assert_eq!(plans[0].len(), 40, "the combined plan is tried first");
    assert!(plans.len() > 1, "a combined miss must have somewhere to go");
}

/// Bundle members with alternating kinds, deltas descending by index.
fn members(n: usize) -> Vec<BundleMember> {
    (0..n)
        .map(|i| BundleMember {
            uuid: format!("h{i:02}"),
            kind: if i % 2 == 0 {
                CandidateKind::Identity
            } else {
                CandidateKind::Ablation
            },
            delta: m(1.0 - i as f64 / 100.0),
        })
        .collect()
}

#[test]
fn thirty_eight_winners_produce_every_power_of_two_prefix_and_the_whole_set() {
    let plans = bundle_plans(&members(38));
    let lengths: HashSet<usize> = plans.plans.iter().map(Vec::len).collect();
    for n in [2usize, 4, 8, 16, 32, 38] {
        assert!(lengths.contains(&n), "missing a {n}-cut plan: {lengths:?}");
    }
    assert_eq!(plans.dropped, 0);
    assert!(plans.plans.len() <= MAX_BUNDLE_PLANS);
}

#[test]
fn thirty_eight_winners_produce_two_complementary_disjoint_plans() {
    let plans = bundle_plans(&members(38));
    // Documented order: all-winners, then the two halves.
    assert_eq!(plans.plans[0].len(), 38);
    let a: HashSet<&String> = plans.plans[1].iter().collect();
    let b: HashSet<&String> = plans.plans[2].iter().collect();
    assert_eq!(a.len(), 19);
    assert_eq!(b.len(), 19);
    assert!(a.is_disjoint(&b), "the halves must not overlap");
    assert_eq!(a.union(&b).count(), 38, "their union must be every winner");
}

#[test]
fn both_kinds_present_emit_an_identity_and_an_ablation_plan() {
    let plans = bundle_plans(&members(38));
    let identity: Vec<String> = members(38)
        .iter()
        .filter(|m| m.kind == CandidateKind::Identity)
        .map(|m| m.uuid.clone())
        .collect();
    assert!(
        plans.plans.iter().any(|p| {
            p.len() == identity.len()
                && p.iter().collect::<HashSet<_>>() == identity.iter().collect::<HashSet<_>>()
        }),
        "no all-identity plan: {:?}",
        plans.plans
    );
}

#[test]
fn one_kind_only_emits_no_duplicate_of_the_all_winners_plan() {
    let single: Vec<BundleMember> = members(10)
        .into_iter()
        .map(|m| BundleMember {
            kind: CandidateKind::Ablation,
            ..m
        })
        .collect();
    let plans = bundle_plans(&single);
    let all = plans.plans.iter().filter(|p| p.len() == 10).count();
    assert_eq!(
        all, 1,
        "the all-winners plan appears once: {:?}",
        plans.plans
    );
}

#[test]
fn two_winners_still_produce_exactly_one_plan() {
    let plans = bundle_plans(&members(2));
    assert_eq!(plans.plans.len(), 1);
    assert_eq!(plans.plans[0].len(), 2);
    assert_eq!(plans.primary, 1);
    assert_eq!(bundle_plans(&members(1)).plans.len(), 0);
    assert_eq!(bundle_plans(&Vec::new()).plans.len(), 0);
}

#[test]
fn the_plan_cap_bounds_the_cohort_and_says_what_it_dropped() {
    let plans = bundle_plans(&members(4096));
    assert_eq!(plans.plans.len(), MAX_BUNDLE_PLANS);
    assert!(plans.dropped > 0, "a dropped count is the audit trail");
}

#[test]
fn plans_are_deduplicated_and_deterministic() {
    let first = bundle_plans(&members(20));
    let mut shuffled = members(20);
    shuffled.reverse();
    let second = bundle_plans(&shuffled);
    assert_eq!(first.plans, second.plans, "ranking, not input order");
    assert_eq!(
        (first.primary, first.dropped),
        (second.primary, second.dropped)
    );
    let keys: HashSet<String> = first.plans.iter().map(|p| p.join("\0")).collect();
    assert_eq!(keys.len(), first.plans.len(), "no duplicate plans");
}

/// Winners whose deltas are known, for cohort-shape assertions.
fn many_winners(n: usize) -> (Vec<String>, Vec<SampledWinner>) {
    let uuids: Vec<String> = (0..n).map(|i| format!("h{i:02}")).collect();
    let winners = uuids
        .iter()
        .enumerate()
        .map(|(i, uuid)| sampled(uuid, 0.60 - i as f64 / 1000.0, 0.50))
        .collect();
    (uuids, winners)
}

#[test]
fn a_cap_on_individual_scoring_never_shrinks_bundle_membership() {
    let (present, winners) = many_winners(38);
    let cfg = FullConfig {
        max_individuals: Some(8),
        ..config()
    };
    let out = evaluate(&present, &winners, &cfg, &BTreeMap::new(), 1e-6);
    assert_eq!(out.individuals.len(), 8, "the cap applies to individuals");
    assert!(
        out.bundles.iter().any(|b| b.uuids.len() == 38),
        "bundles must still see every winner"
    );
    // The kept individuals are the strongest sample deltas.
    let kept: HashSet<&String> = out.individuals.iter().flat_map(|c| &c.uuids).collect();
    for w in winners.iter().take(8) {
        assert!(kept.contains(&w.candidate.uuid), "{kept:?}");
    }
}

#[test]
fn a_cap_on_equal_deltas_is_deterministic() {
    let (present, mut flat) = many_winners(8);
    flat.reverse();
    for w in &mut flat {
        w.delta = m(0.1);
    }
    let kept = || -> Vec<String> {
        let cfg = FullConfig {
            max_individuals: Some(3),
            ..config()
        };
        let out = evaluate(&present, &flat, &cfg, &BTreeMap::new(), 1e-6);
        out.individuals
            .iter()
            .filter_map(|c| c.uuids.first().cloned())
            .collect()
    };
    let mut expected: Vec<String> = flat.iter().map(|w| w.candidate.uuid.clone()).collect();
    expected.sort();
    expected.truncate(3);
    assert_eq!(kept(), expected, "ties break on uuid");
    assert_eq!(kept(), kept(), "and repeat");
}

#[test]
fn no_cap_full_scores_every_winner_individually() {
    let (present, winners) = many_winners(12);
    let out = evaluate(&present, &winners, &config(), &BTreeMap::new(), 1e-6);
    assert_eq!(out.individuals.len(), 12);
    assert_eq!(out.dropped(), 0);
}

#[test]
fn carried_winners_join_bundles_without_being_scored_individually() {
    let (present, mut fresh) = many_winners(12);
    let carried = fresh.split_off(4);
    let cfg = FullConfig {
        pool: members_of(&carried),
        ..config()
    };
    let out = evaluate(&present, &fresh, &cfg, &BTreeMap::new(), 1e-6);
    assert_eq!(out.individuals.len(), 4, "only this batch's winners");
    assert!(
        out.bundles.iter().any(|b| b.uuids.len() == 12),
        "the pool joins bundle membership"
    );
}

#[test]
fn a_tight_budget_keeps_the_distinct_plans_and_drops_nested_prefixes() {
    let (present, winners) = many_winners(12);
    let untrimmed = evaluate(&present, &winners, &config(), &BTreeMap::new(), 1e-6);
    assert!(untrimmed.entries() > 6);

    let cfg = FullConfig {
        max_entries: Some(6),
        ..config()
    };
    let out = evaluate(&present, &winners, &cfg, &BTreeMap::new(), 1e-6);
    assert!(out.entries() <= 6, "{}", out.entries());
    assert_eq!(
        out.entries() + out.dropped(),
        untrimmed.entries(),
        "every dropped entry is counted"
    );
    assert!(out.dropped_individuals > 0);
    assert!(
        out.bundles.iter().any(|b| b.uuids.len() == 12),
        "the all-winners plan survives a trim"
    );
    assert_eq!(
        out.bundles.iter().filter(|b| b.uuids.len() == 6).count(),
        2,
        "so do the disjoint halves"
    );
}

#[test]
fn a_stale_plan_is_counted_rather_than_discarded() {
    let one = vec![sampled("h1", 0.60, 0.50)];
    let cfg = FullConfig {
        extra_plans: vec![ids(&["h1", "not-a-neuron"])],
        ..config()
    };
    let out = evaluate(&three(), &one, &cfg, &BTreeMap::new(), 1e-6);
    assert_eq!(out.skipped_bundles, 1);
    assert!(out.bundles.is_empty());
}

#[test]
fn the_first_of_equal_scores_wins() {
    let winners = vec![sampled("h1", 0.60, 0.50), sampled("h2", 0.55, 0.50)];
    let scores = BTreeMap::from([
        ("baseline", 0.50),
        ("i000", 0.70),
        ("i001", 0.70),
        ("b000", 0.70),
    ]);
    let out = evaluate(&three(), &winners, &config(), &scores, 1e-6);
    assert_eq!(out.winner.expect("a winner").stem, "i000");
}

#[test]
fn an_improvement_of_just_the_minimum_does_not_win() {
    let one = vec![sampled("h1", 0.60, 0.50)];
    let scores = BTreeMap::from([("baseline", 0.50), ("i000", 0.75)]);
    let out = evaluate(&three(), &one, &config(), &scores, 0.25);
    assert!(out.winner.is_none());
}

#[test]
fn a_missing_score_names_the_entry() {
    let none: Vec<ScoreEntry> = Vec::new();
    assert_eq!(
        find_scores(&ids(&["i000"]), &none).unwrap_err(),
        "full: scorer returned no `baseline` entry"
    );
    let only = vec![ScoreEntry {
        key: "baseline".into(),
        result: result(0.5),
    }];
    let err = find_scores(&ids(&["i000"]), &only).unwrap_err();
    assert!(err.contains("i000"), "{err}");
}

#[test]
fn a_cohort_without_its_incumbent_is_no_cohort() {
    let pending = vec![PendingEntry {
        stem: "i000".into(),
        kind: EntryKind::Individual,
        uuids: ids(&["h1"]),
    }];
    let counts = CohortCounts {
        full_ms: 1,
        skipped_bundles: 0,
        dropped_individuals: 0,
        dropped_bundles: 0,
        capped_plans: 0,
    };
    let lone = vec![ScoreEntry {
        key: "i000".into(),
        result: result(0.9),
    }];
    assert_eq!(
        evaluate_full(&pending, &lone, &vec![m(0.4)], m(0.0), counts).unwrap_err(),
        "full: scorer returned no `baseline` entry"
    );
    let entry = FullCandidate::new(
        "i000".into(),
        EntryKind::Individual,
        ids(&["h1"]),
        result(0.9),
        m(0.4),
    );
    let judged = judge_cohort(vec![entry], m(0.0), result(0.5), counts);
    assert_eq!(v(judged.incumbent_score), 0.5);
    assert_eq!(judged.winner.expect("the only entry").uuids, ids(&["h1"]));
}

#[test]
fn stems_are_numbered_without_what_could_not_be_built() {
    let winners = vec![sampled("h1", 0.60, 0.50), sampled("h2", 0.70, 0.50)];
    let cfg = FullConfig {
        extra_plans: vec![ids(&["h1", "gone"]), ids(&["h2", "h1"])],
        ..config()
    };
    let cohort = plan_cohort(&winners, &cfg);
    let built: Vec<bool> = cohort
        .bundles
        .iter()
        .map(|plan| can_build(&three(), plan))
        .collect();
    let (pending, skipped) = pending_entries(&winners, &cohort, &Vec::new(), &built);
    let shown: Vec<(&str, Vec<String>)> = pending
        .iter()
        .map(|p| (p.stem.as_str(), p.uuids.clone()))
        .collect();
    assert_eq!(skipped, 1);
    assert_eq!(
        shown,
        vec![
            ("i000", ids(&["h2"])),
            ("i001", ids(&["h1"])),
            ("b000", ids(&["h2", "h1"])),
            ("b001", ids(&["h2", "h1"])),
        ]
    );
}

#[test]
fn the_limits_of_a_cohort() {
    assert_eq!(MAX_BUNDLE_PLANS, 12);
    assert_eq!(DISJOINT_HALVES_MIN, 8);
    assert_eq!(KIND_GROUP_MIN, 2);
    assert_eq!(MAX_REPLAY_PLANS, 6);
    assert_eq!(REPLAY_PROBE_LIMIT, 8);
    assert_eq!(entry_stem(EntryKind::Individual, 7), "i007");
    assert_eq!(entry_stem(EntryKind::Bundle, 1234), "b1234");
}

fn sampled_group(members: &[&str], delta: f64) -> SampledWinner {
    let mut winner = sampled(members[0], 0.50 + delta, 0.50);
    winner.candidate.kind = CandidateKind::Group;
    winner.candidate.members = ids(members);
    winner.candidate.stem = "g000".into();
    winner
}

#[test]
fn a_group_is_scored_whole_and_apart_from_its_first_member() {
    let winners = vec![
        sampled("h1", 0.60, 0.50),
        sampled_group(&["h1", "h2"], 0.30),
    ];
    let cfg = FullConfig {
        max_individuals: Some(1),
        group_plans: vec![ids(&["h2", "h3"]), ids(&["h2", "gone"])],
        ..config()
    };
    let scores = BTreeMap::from([("baseline", 0.50), ("g000", 0.90), ("i000", 0.55)]);
    let out = evaluate(&three(), &winners, &cfg, &scores, 1e-6);
    let cuts = |list: &[FullCandidate]| -> Vec<Vec<String>> {
        list.iter().map(|e| e.uuids.clone()).collect()
    };
    assert_eq!(cuts(&out.individuals), vec![ids(&["h1"])]);
    assert_eq!(cuts(&out.groups), vec![ids(&["h1", "h2"]), ids(&["h2", "h3"])]);
    assert!(out.bundles.is_empty(), "one single cut makes no combination");
    assert_eq!(out.skipped_bundles, 1, "a group that cannot be built is counted");
    assert_eq!(out.entries(), 3);
    let won = out.winner.expect("the group improves");
    assert_eq!(won.kind, EntryKind::Group);
    assert_eq!(won.kind.label(), "group");
    assert_eq!(won.uuids, ids(&["h1", "h2"]));
    assert_eq!(entry_stem(EntryKind::Group, 2), "g002");
}

#[test]
fn a_cap_changes_neither_the_bundles_nor_what_could_not_be_built() {
    let (present, winners) = many_winners(12);
    let free_cfg = FullConfig {
        extra_plans: vec![ids(&["h000", "gone"])],
        ..config()
    };
    let capped_cfg = FullConfig {
        extra_plans: vec![ids(&["h000", "gone"])],
        max_individuals: Some(3),
        ..config()
    };
    let free = evaluate(&present, &winners, &free_cfg, &BTreeMap::new(), 1e-6);
    let capped = evaluate(&present, &winners, &capped_cfg, &BTreeMap::new(), 1e-6);
    let cuts = |list: &[FullCandidate]| -> Vec<Vec<String>> {
        list.iter().map(|e| e.uuids.clone()).collect()
    };
    assert_eq!(cuts(&capped.individuals), cuts(&free.individuals)[..3].to_vec());
    assert_eq!(cuts(&capped.bundles), cuts(&free.bundles));
    assert_eq!(capped.skipped_bundles, free.skipped_bundles);
    assert_eq!(capped.skipped_bundles, 1);
}
