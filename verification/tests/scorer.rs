use std::collections::BTreeMap;

use ockham::measure::Measure;
use ockham::scorer::{
    check_finite, find_score, parse_scorer_output, ExternalScorer, ScoreEntry, ScoreResult, ScorerError,
    ScorerMode, STDERR_TAIL_CHARS,
};
use ockham::text::trim_text;

fn m(value: f64) -> Measure {
    Measure {
        bits: value.to_bits(),
    }
}

fn entry(key: &str, score: f64, error: f64, records: u64) -> ScoreEntry {
    ScoreEntry {
        key: key.into(),
        result: ScoreResult {
            score: m(score),
            error: m(error),
            complexity_penalty: m(0.0),
            record_count: records,
        },
    }
}

/// Reads a scorer's output as JSON.
fn read(stdout: &str) -> Result<Vec<ScoreEntry>, String> {
    let parsed: BTreeMap<String, BTreeMap<String, serde_json::Value>> =
        serde_json::from_str(trim_text(stdout)).map_err(|e| e.to_string())?;
    let number = |fields: &BTreeMap<String, serde_json::Value>, name: &str| {
        fields.get(name).and_then(|f| f.as_f64()).unwrap_or(0.0)
    };
    Ok(parsed
        .iter()
        .map(|(key, fields)| {
            entry(
                key,
                number(fields, "score"),
                number(fields, "error"),
                number(fields, "recordCount") as u64,
            )
        })
        .collect())
}

#[test]
fn parses_directory_output() {
    let stdout = r#"{"baseline":{"score":0.9,"error":0.1,"complexityPenalty":1e-8,"recordCount":4,"timeTaken":0.1,"costName":"MSE"},
                "candidate-000":{"score":0.95,"error":0.05}}
"#;
    let parsed = parse_scorer_output(read(stdout)).unwrap();
    let baseline = find_score(&parsed, "baseline").unwrap();
    let candidate = find_score(&parsed, "candidate-000").unwrap();
    assert_eq!(parsed[baseline].result.record_count, 4);
    assert_eq!(parsed[candidate].result.score, m(0.95));
    assert!(ScorerMode::Full.is_authoritative());
    assert!(!ScorerMode::Sample {
        rate: m(0.05),
        phase: 0
    }
    .is_authoritative());
}

#[test]
fn missing_baseline_and_malformed_fail_closed() {
    assert!(matches!(
        parse_scorer_output(read(r#"{"x":{"score":1,"error":0}}"#)),
        Err(ScorerError::MissingBaseline)
    ));
    assert!(matches!(
        parse_scorer_output(read("not json")),
        Err(ScorerError::Malformed(_))
    ));
    assert!(matches!(
        parse_scorer_output(read("{}")),
        Err(ScorerError::MissingBaseline)
    ));
}

#[test]
fn non_finite_is_rejected() {
    assert!(parse_scorer_output(read(r#"{"baseline":{"score":1e999,"error":0}}"#)).is_err());
    assert!(parse_scorer_output(Ok(vec![entry("baseline", f64::INFINITY, 0.0, 0)])).is_err());
    assert!(matches!(
        check_finite(&vec![entry("baseline", f64::NAN, 0.0, 0)]),
        Err(ScorerError::NonFinite(_))
    ));
    let err = parse_scorer_output(Ok(vec![
        entry("baseline", 0.5, 0.5, 0),
        entry("i000", 0.5, f64::NAN, 0),
        entry("i001", f64::NAN, 0.5, 0),
    ]))
    .unwrap_err();
    assert!(matches!(err, ScorerError::NonFinite(key) if key == "i000"));
}

#[test]
fn a_failed_scorer_keeps_the_end_of_what_it_said() {
    let long = "x".repeat(STDERR_TAIL_CHARS) + "the end";
    match ScorerError::failed("exit status: 1".into(), &long) {
        ScorerError::Failed { status, stderr } => {
            assert_eq!(status, "exit status: 1");
            assert!(stderr.ends_with("the end"), "{stderr}");
            assert!(stderr.chars().count() <= STDERR_TAIL_CHARS);
        }
        other => panic!("{other:?}"),
    }
}

#[test]
fn a_full_call_is_not_sampled_and_a_sampled_one_says_so() {
    let scorer = ExternalScorer::new("scorer".into());
    let full = scorer.arguments(ScorerMode::Full, "", "creatures", "training");
    let sample = scorer.arguments(
        ScorerMode::Sample {
            rate: m(0.05),
            phase: 3,
        },
        "0.05",
        "creatures",
        "training",
    );
    assert!(full.contains(&"creatures".to_string()));
    assert!(full.contains(&"training".to_string()));
    assert!(!full.contains(&"0.05".to_string()));
    assert!(sample.contains(&"0.05".to_string()), "{sample:?}");
    assert!(sample.contains(&"3".to_string()), "{sample:?}");
}

#[test]
fn every_error_says_what_went_wrong() {
    assert!(ScorerError::Spawn("no such file".into())
        .message()
        .contains("no such file"));
    assert!(ScorerError::Malformed("line 1".into())
        .message()
        .contains("line 1"));
    assert!(ScorerError::NonFinite("i000".into())
        .message()
        .contains("i000"));
    assert!(ScorerError::MissingBaseline.message().contains("baseline"));
    let failed = ScorerError::failed("exit status: 1".into(), "boom").message();
    assert!(failed.contains("exit status: 1") && failed.contains("boom"));
}

#[test]
fn a_scorer_is_known_by_its_digest_or_its_path() {
    let scorer = ExternalScorer::new("/opt/scorer".into());
    assert_eq!(
        scorer.identity(Some("0123456789abcdef0123456789abcdef")),
        "sha256:0123456789abcdef"
    );
    assert_eq!(scorer.identity(None), "path:/opt/scorer");
}
