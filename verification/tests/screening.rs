use ockham::measure::Measure;
use ockham::screening::{
    split_batch, stage_fields, LadderError, LadderParseError, ParsedStage, ProgressiveScreen,
    ScreenLadder, ScreenStage, Screening, StageOutcome, StageRequest,
};
use ockham::sweep::{CandidateKind, ScreenRejection, SweepCandidate};

fn m(value: f64) -> Measure {
    Measure {
        bits: value.to_bits(),
    }
}

fn v(measure: Measure) -> f64 {
    f64::from_bits(measure.bits)
}

fn number(text: &str) -> Result<Measure, String> {
    text.parse::<f64>().map(m).map_err(|e| e.to_string())
}

/// Reads a ladder, numbers as doubles.
fn parse(spec: &str, default_margin: f64) -> Result<ScreenLadder, String> {
    let fields = stage_fields(spec);
    let parsed: Vec<ParsedStage> = fields
        .iter()
        .map(|field| ParsedStage {
            rate: number(&field.rate),
            margin: field.margin.as_ref().map(|text| number(text)),
        })
        .collect();
    ScreenLadder::parse(&fields, &parsed, m(default_margin)).map_err(|error| {
        let (rate, previous) = match &error {
            LadderParseError::Ladder(fault) => written(fault),
            _ => (String::new(), String::new()),
        };
        error.message(&rate, &previous)
    })
}

fn written(fault: &LadderError) -> (String, String) {
    match fault {
        LadderError::Rate { rate, .. } => (v(*rate).to_string(), String::new()),
        LadderError::NotAscending { rate, previous, .. } => {
            (v(*rate).to_string(), v(*previous).to_string())
        }
        _ => (String::new(), String::new()),
    }
}

fn candidate(stem: &str, uuid: &str) -> SweepCandidate {
    SweepCandidate {
        uuid: uuid.to_string(),
        members: vec![uuid.to_string()],
        permutation_index: 0,
        kind: CandidateKind::Ablation,
        stem: stem.to_string(),
    }
}

fn ladder() -> ScreenLadder {
    parse("0.0025:0.01,0.01:0.005,0.05", 0.01).unwrap()
}

/// One call of the scorer: its rate, its phase and the stems it scored.
type Call = (f64, u64, Vec<String>);

/// Runs a screen with fixed scores, a hundred records for each creature.
fn screen(
    ladder: &ScreenLadder,
    scores: &[(&str, f64)],
    candidates: Vec<SweepCandidate>,
    threshold: f64,
    batch: u64,
) -> (ProgressiveScreen, Vec<Call>) {
    let score_of = |stem: &str| {
        scores
            .iter()
            .find(|(s, _)| *s == stem)
            .map_or(0.0, |(_, score)| *score)
    };
    let mut calls = Vec::new();
    let mut screening = Screening::start(candidates);
    while let Some(request) = screening.request(ladder, m(threshold), batch) {
        let baseline = score_of("baseline");
        let entered = std::mem::take(&mut screening.survivors);
        calls.push((
            v(request.rate),
            request.phase,
            entered.iter().map(|c| c.stem.clone()).collect(),
        ));
        screening.survivors = entered;
        let entered = screening.survivors.len();
        let scores: Vec<Measure> = screening
            .survivors
            .iter()
            .map(|c| m(score_of(&c.stem)))
            .collect();
        let deltas: Vec<Measure> = scores.iter().map(|s| m(v(*s) - baseline)).collect();
        let sum: f64 = deltas.iter().map(|d| v(*d)).sum();
        let shown = screening
            .survivors
            .iter()
            .map(|c| candidate(&c.stem, &c.uuid))
            .collect();
        let (winners, losers) = split_batch(shown, &scores, &deltas, m(baseline), &request);
        let outcome = StageOutcome {
            winners,
            losers,
            baseline_score: m(baseline),
            mean_delta: m(sum / entered as f64),
            records_scored: 100 * (entered as u64 + 1),
            screen_ms: 1,
        };
        screening.observe(ladder, batch, outcome);
    }
    (screening.screen, calls)
}

#[test]
fn a_ladder_must_ascend_and_leave_room_for_evidence() {
    assert!(ScreenLadder::new(Vec::new()).is_err());
    assert!(parse("0.05,0.01", 0.01).unwrap_err().contains("ascend"));
    assert!(parse("0,0.05", 0.01).unwrap_err().contains("(0, 1)"));
    assert!(parse("0.01,1.0", 0.01).unwrap_err().contains("(0, 1)"));
    // A zero margin on a non-final stage would reject a candidate merely for
    // being a hair worse at the smallest sample.
    assert!(parse("0.0025:0,0.05", 0.01)
        .unwrap_err()
        .contains("more evidence"));
    assert!(parse("0.0025,,0.05", 0.01).is_err());
    assert!(parse("0.0025,x", 0.01).is_err());
    // The final stage promotes on the threshold, so its margin is free.
    let ok = parse("0.0025:0.02,0.05:0", 0.01).unwrap();
    assert_eq!(v(ok.promotion_rate()), 0.05);
    assert!(ok.is_progressive());
    let control = ScreenLadder::single(m(0.05)).unwrap();
    assert!(!control.is_progressive());
    assert_eq!(v(control.promotion_rate()), 0.05);
    assert!(ScreenLadder::single(m(0.0)).is_err());
}

#[test]
fn a_stage_without_a_margin_takes_the_default() {
    let l = parse("0.0025, 0.01 : 0.5, 0.05", 0.02).unwrap();
    assert_eq!(v(l.stages()[0].reject_margin), 0.02);
    assert_eq!(v(l.stages()[1].reject_margin), 0.5);
    assert_eq!(l.stages().len(), 3);
}

#[test]
fn phases_are_deterministic_and_distinct_per_stage() {
    let l = ladder();
    assert_eq!(l.phase(7, 0), ladder().phase(7, 0));
    let phases: Vec<u64> = (0..3).map(|s| l.phase(7, s)).collect();
    assert_eq!(phases, vec![21, 22, 23]);
    // No batch shares a phase with another batch's stage.
    assert!(!phases.contains(&l.phase(8, 0)));
    // Overflow near u64::MAX must wrap, not panic.
    let _ = l.phase(u64::MAX, 2);
}

#[test]
fn an_obvious_loser_is_rejected_at_the_first_stage_and_never_scored_again() {
    let (out, calls) = screen(
        &ladder(),
        &[("baseline", 0.90), ("c000", 0.50), ("c001", 0.9001)],
        vec![candidate("c000", "h_a"), candidate("c001", "h_b")],
        0.0,
        3,
    );
    assert_eq!(calls.len(), 3, "one call per stage");
    assert!(calls[0].2.contains(&"c000".to_string()));
    for call in calls.iter().skip(1) {
        assert!(
            !call.2.contains(&"c000".to_string()),
            "the obvious loser must not be scored after its rejection"
        );
        assert!(call.2.contains(&"c001".to_string()));
    }
    assert_eq!(
        calls.iter().map(|c| c.0).collect::<Vec<_>>(),
        vec![0.0025, 0.01, 0.05]
    );
    assert_eq!(
        calls.iter().map(|c| c.1).collect::<Vec<_>>(),
        vec![9, 10, 11]
    );

    assert_eq!(out.winners.len(), 1);
    assert_eq!(out.winners[0].candidate.stem, "c001");
    assert_eq!(out.losers.len(), 1);
    assert_eq!(out.losers[0].stage, 0);
    assert_eq!(out.losers[0].reason, ScreenRejection::ClearlyWorse);
    assert!(v(out.losers[0].delta) < 0.0);
    assert_eq!(out.stages.len(), 3);
    assert_eq!(out.stages[0].entered, 2);
    assert_eq!(out.stages[0].rejected, 1);
    assert_eq!(out.stages[1].entered, 1);
    assert_eq!(out.stages[2].outcome.label(), "promoted");
    // 2 candidates + incumbent at stage 0, 1 + incumbent at stages 1 and 2.
    assert_eq!(out.records_scored(), 100 * (3 + 2 + 2));
}

#[test]
fn a_borderline_candidate_collects_more_evidence_instead_of_being_rejected() {
    let (out, calls) = screen(
        &ladder(),
        &[("baseline", 0.90), ("c000", 0.8999)],
        vec![candidate("c000", "h_a")],
        0.0,
        0,
    );
    assert_eq!(calls.len(), 3, "it reached the last stage");
    assert_eq!(out.stages[0].promoted, 1);
    assert_eq!(out.stages[1].promoted, 1);
    assert!(out.winners.is_empty());
    assert_eq!(out.losers.len(), 1);
    assert_eq!(out.losers[0].stage, 2);
    assert_eq!(out.losers[0].reason, ScreenRejection::BelowThreshold);
}

#[test]
fn a_stage_that_rejects_everything_stops_the_ladder() {
    let (out, calls) = screen(
        &ladder(),
        &[("baseline", 0.90), ("c000", 0.10)],
        vec![candidate("c000", "h_a")],
        0.0,
        0,
    );
    assert_eq!(calls.len(), 1, "the larger samples are never paid for");
    assert_eq!(out.stages.len(), 1);
    assert!(out.winners.is_empty());
    assert_eq!(out.losers.len(), 1);
}

#[test]
fn the_single_stage_control_reproduces_the_fixed_rate_screen() {
    let l = ScreenLadder::single(m(0.05)).unwrap();
    let (out, calls) = screen(
        &l,
        &[("baseline", 0.90), ("c000", 0.95), ("c001", 0.80)],
        vec![candidate("c000", "h_a"), candidate("c001", "h_b")],
        0.0,
        4,
    );
    assert_eq!(calls.len(), 1);
    assert_eq!(calls[0].0, 0.05);
    assert_eq!(calls[0].1, 4, "the control keeps the batch index as phase");
    assert_eq!(out.winners.len(), 1);
    assert_eq!(out.winners[0].candidate.stem, "c000");
    assert_eq!(out.losers.len(), 1);
    assert_eq!(out.losers[0].reason, ScreenRejection::BelowThreshold);
    // The control scores in the batch's own directory.
    assert_eq!(l.stage_dir(0), None);
    assert_eq!(ladder().stage_dir(2), Some("s2".to_string()));
}

#[test]
fn rejections_are_tallied_by_reason() {
    let (out, _) = screen(
        &ladder(),
        &[
            ("baseline", 0.90),
            ("c000", 0.10),
            ("c001", 0.8999),
            ("c002", 0.95),
        ],
        vec![
            candidate("c000", "h_a"),
            candidate("c001", "h_b"),
            candidate("c002", "h_c"),
        ],
        0.0,
        0,
    );
    assert_eq!(out.rejection_tally(), (1, 1));
    assert_eq!(out.winners.len(), 1);
    assert_eq!(out.screen_ms, 3);
    assert_eq!(out.baseline_score, Some(m(0.90)));
}

#[test]
fn a_stage_is_faulted_by_its_number() {
    let stage = |rate: f64, margin: f64| ScreenStage {
        rate: m(rate),
        reject_margin: m(margin),
    };
    assert!(matches!(
        ScreenLadder::new(vec![stage(0.1, 0.1), stage(f64::NAN, 0.1)]),
        Err(LadderError::Rate { stage: 1, .. })
    ));
    assert!(matches!(
        ScreenLadder::new(Vec::new()),
        Err(LadderError::Empty)
    ));
    assert!(ScreenLadder::new(vec![stage(0.1, 0.1), stage(0.1, 0.1)]).is_err());
}

#[test]
fn a_candidate_that_just_reaches_the_threshold_does_not_pass() {
    let request = StageRequest {
        stage: 1,
        rate: m(0.05),
        phase: 0,
        threshold: m(0.25),
    };
    let batch = vec![candidate("c000", "h_a"), candidate("c001", "h_b")];
    let (winners, losers) = split_batch(
        batch,
        &vec![m(0.75), m(0.875)],
        &vec![m(0.25), m(0.375)],
        m(0.5),
        &request,
    );
    assert_eq!(winners.len(), 1);
    assert_eq!(winners[0].candidate.uuid, "h_b");
    assert_eq!(winners[0].baseline_score, m(0.5));
    assert_eq!((losers[0].uuid.as_str(), losers[0].stage), ("h_a", 1));
    assert_eq!(losers[0].reason, ScreenRejection::BelowThreshold);
}

#[test]
fn an_early_loser_is_behind_by_at_least_the_margin_of_its_stage() {
    let ladder = ladder();
    let margin = v(ladder.stages()[0].reject_margin);
    let (out, _) = screen(
        &ladder,
        &[
            ("baseline", 0.0),
            ("c000", -margin),
            ("c001", -margin / 2.0),
            ("c002", f64::NAN),
        ],
        vec![
            candidate("c000", "h_a"),
            candidate("c001", "h_b"),
            candidate("c002", "h_c"),
        ],
        0.0,
        0,
    );
    let early: Vec<&str> = out
        .losers
        .iter()
        .filter(|l| l.stage == 0)
        .map(|l| l.uuid.as_str())
        .collect();
    assert_eq!(early, vec!["h_a", "h_c"]);
}

#[test]
fn every_candidate_ends_once_as_a_winner_or_a_loser() {
    let scores = [
        ("baseline", 0.90),
        ("c000", 0.50),
        ("c001", 0.91),
        ("c002", 0.8999),
        ("c003", 0.93),
        ("c004", 0.894),
    ];
    let names = ["h_a", "h_b", "h_c", "h_d", "h_e"];
    let candidates = names
        .iter()
        .enumerate()
        .map(|(i, uuid)| candidate(&format!("c00{i}"), uuid))
        .collect();
    let (out, _) = screen(&ladder(), &scores, candidates, 0.0, 0);
    let winners: Vec<&str> = out.winners.iter().map(|w| w.candidate.uuid.as_str()).collect();
    let losers: Vec<(&str, usize)> = out
        .losers
        .iter()
        .map(|l| (l.uuid.as_str(), l.stage))
        .collect();
    assert_eq!(winners, vec!["h_b", "h_d"]);
    assert_eq!(losers, vec![("h_a", 0), ("h_e", 1), ("h_c", 2)]);
}
