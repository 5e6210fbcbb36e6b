use ockham::measure::Measure;
use ockham::reentry::{
    compare_with_champion, reentry_scores, ReentryDifferences, ReentryOutcome,
};
use ockham::scorer::{ScoreEntry, ScoreResult};

fn m(value: f64) -> Measure {
    Measure {
        bits: value.to_bits(),
    }
}

fn v(measure: Measure) -> f64 {
    f64::from_bits(measure.bits)
}

fn answer(scores: &[(&str, f64)]) -> Vec<ScoreEntry> {
    scores
        .iter()
        .map(|(key, score)| ScoreEntry {
            key: key.to_string(),
            result: ScoreResult {
                score: m(*score),
                error: m(1.0 - score),
                complexity_penalty: m(0.0),
                record_count: 1,
            },
        })
        .collect()
}

fn compare(
    scores: &[(&str, f64)],
    opening: f64,
    min_improvement: f64,
) -> Result<ReentryOutcome, String> {
    let found = reentry_scores(&answer(scores))?;
    let (ockham, champion) = (v(found.ockham), v(found.champion));
    Ok(compare_with_champion(
        m(opening),
        found,
        ReentryDifferences {
            cumulative_gain: m(ockham - opening),
            frontier_movement: m(champion - opening),
            population_headroom: m(ockham - champion),
        },
        "sum-o".into(),
        "sum-c".into(),
        m(min_improvement),
    ))
}

#[test]
fn ockham_ahead_of_champion_is_population_ready() {
    let out = compare(
        &[("baseline", 0.50), ("champion", 0.50), ("ockham", 0.80)],
        0.40,
        1e-6,
    )
    .unwrap();
    assert!(out.population_ready);
    assert!(v(out.population_headroom) > 0.0);
    assert_eq!(out.export("sum-o"), Ok(true));
    assert_eq!(
        out.export("drifted"),
        Err("re-entry: exported Ockham JSON checksum drifted".to_string())
    );
}

#[test]
fn ockham_behind_champion_keeps_local_best_only() {
    let out = compare(&[("baseline", 0.90), ("ockham", 0.60)], 0.50, 1e-6).unwrap();
    assert!(!out.population_ready);
    assert!(v(out.population_headroom) < 0.0);
    assert_eq!(
        out.export("anything"),
        Ok(false),
        "must not emit a stale population candidate"
    );
}

#[test]
fn a_lead_of_just_the_minimum_is_not_enough() {
    let out = compare(&[("baseline", 0.50), ("ockham", 0.75)], 0.50, 0.25).unwrap();
    assert!(!out.population_ready);
}

#[test]
fn the_champion_stands_under_either_key() {
    let found = reentry_scores(&answer(&[("champion", 0.7), ("ockham", 0.6)])).unwrap();
    assert_eq!(v(found.champion), 0.7);
    let found = reentry_scores(&answer(&[
        ("champion", 0.7),
        ("baseline", 0.8),
        ("ockham", 0.6),
    ]))
    .unwrap();
    assert_eq!(v(found.champion), 0.8, "the reserved key comes first");
}

#[test]
fn a_missing_score_is_named() {
    assert_eq!(
        compare(&[("ockham", 0.5)], 0.5, 0.0).unwrap_err(),
        "re-entry: scorer returned no champion/baseline entry"
    );
    assert_eq!(
        compare(&[("baseline", 0.5)], 0.5, 0.0).unwrap_err(),
        "re-entry: scorer returned no `ockham` entry"
    );
}
