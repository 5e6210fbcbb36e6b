use ockham::measure::Measure;
use ockham::model::{
    auc, check_fit, evaluate, keep_apart, Descent, ModelParts, PriorityModel, TrainingConfig,
    TrainingMeta, TrainingRow, PRIORITY_MODEL_FORMAT_VERSION,
};

fn m(value: f64) -> Measure {
    Measure {
        bits: value.to_bits(),
    }
}

fn v(measure: Measure) -> f64 {
    f64::from_bits(measure.bits)
}

fn all(list: &[f64]) -> Vec<Measure> {
    list.iter().map(|x| m(*x)).collect()
}

/// Fifteen columns.
fn names() -> Vec<String> {
    (0..15)
        .map(|i| match i {
            0 => "measured".to_string(),
            1 => "logVariance".to_string(),
            2 => "logMeanAbs".to_string(),
            9 => "cascadeGrowthUnits".to_string(),
            _ => format!("feature{i}"),
        })
        .collect()
}

/// Rows where quietness (`logMeanAbs`, index 2) decides the outcome.
fn separable_rows() -> Vec<TrainingRow> {
    (0..40)
        .map(|i| {
            let quiet = i % 2 == 0;
            let mut features = vec![m(0.0); names().len()];
            features[0] = m(1.0);
            features[2] = m(if quiet { 0.01 } else { 2.0 } + i as f64 * 1e-4);
            features[9] = m(2.0);
            TrainingRow {
                features,
                win: quiet,
            }
        })
        .collect()
}

fn refusal(rows: &Vec<TrainingRow>, config: &TrainingConfig) -> String {
    check_fit(rows, names().len(), config)
        .unwrap_err()
        .message(&names(), rows.len())
}

#[test]
fn one_class_training_data_is_refused_rather_than_fitted() {
    let mut rows = separable_rows();
    for row in &mut rows {
        row.win = true;
    }
    let err = refusal(&rows, &TrainingConfig::default());
    assert!(err.contains("both outcomes"), "{err}");
    assert_eq!(
        err,
        "cannot fit a priority model: 40 win(s) in 40 row(s) — both outcomes are needed to learn a ranking"
    );
    let empty = refusal(&Vec::new(), &TrainingConfig::default());
    assert!(empty.contains("no training rows"), "{empty}");
}

#[test]
fn a_mis_shaped_or_non_finite_row_is_refused() {
    let mut rows = separable_rows();
    rows[0].features.push(m(1.0));
    let err = refusal(&rows, &TrainingConfig::default());
    assert!(err.contains("features"), "{err}");
    assert_eq!(err, "training row 0 has 16 features; the schema has 15");
    let mut nan = separable_rows();
    nan[3].features[2] = m(f64::NAN);
    let err = refusal(&nan, &TrainingConfig::default());
    assert!(err.contains("not finite"), "{err}");
    assert_eq!(err, "training row 3 feature `logMeanAbs` is not finite");
}

#[test]
fn bad_hyper_parameters_name_the_flag() {
    for (config, needle) in [
        (
            TrainingConfig {
                epochs: 0,
                ..Default::default()
            },
            "--epochs",
        ),
        (
            TrainingConfig {
                learning_rate: m(0.0),
                ..Default::default()
            },
            "--learning-rate",
        ),
        (
            TrainingConfig {
                l2: m(-1.0),
                ..Default::default()
            },
            "--l2",
        ),
    ] {
        let err = refusal(&separable_rows(), &config);
        assert!(err.contains(needle), "{err}");
    }
}

#[test]
fn rows_that_can_be_fitted_are_counted() {
    let config = TrainingConfig::default();
    assert_eq!(check_fit(&separable_rows(), names().len(), &config), Ok(20));
    assert_eq!(config.epochs, 2_000);
    assert_eq!(v(config.learning_rate), 0.1);
    assert_eq!(v(config.l2), 1e-3);
}

/// Half the points over the pairs; a half where there are none.
fn chance(wins: &[f64], losses: &[f64]) -> f64 {
    match auc(&all(wins), &all(losses)) {
        Some(ranking) => ranking.points as f64 / 2.0 / ranking.pairs as f64,
        None => 0.5,
    }
}

#[test]
fn auc_is_a_half_when_a_class_is_missing() {
    assert_eq!(chance(&[], &[0.1]), 0.5);
    assert_eq!(chance(&[0.9], &[]), 0.5);
    assert_eq!(chance(&[0.9], &[0.1]), 1.0);
    assert_eq!(chance(&[0.5], &[0.5]), 0.5);
}

#[test]
fn ranking_losses_mirrors_ranking_wins() {
    let (a, b) = ([0.9, 0.5, 0.2], [0.5, 0.1]);
    assert_eq!(chance(&a, &b), 4.5 / 6.0);
    assert_eq!(chance(&a, &b) + chance(&b, &a), 1.0);
}

#[test]
fn an_evaluation_parts_wins_from_losses() {
    let row = |win: bool| TrainingRow {
        features: Vec::new(),
        win,
    };
    let rows = vec![row(true), row(false), row(true), row(false)];
    let counts = evaluate(&rows, &all(&[0.9, 0.6, 0.5, 0.1]));
    assert_eq!(counts.wins, all(&[0.9, 0.5]));
    assert_eq!(counts.losses, all(&[0.6, 0.1]));
    assert_eq!(counts.correct, 2, "a half is no win");
    assert_eq!(v(keep_apart(m(0.0))), 1e-12);
    assert_eq!(v(keep_apart(m(1.0))), 1.0 - 1e-12);
    assert_eq!(v(keep_apart(m(0.25))), 0.25);
}

fn parts() -> ModelParts {
    ModelParts {
        format_version: PRIORITY_MODEL_FORMAT_VERSION,
        features: vec!["a".into(), "b \"c\"".into()],
        mean: all(&[0.0, 1.0]),
        scale: all(&[1.0, 2.0]),
        weights: all(&[0.5, -0.5]),
        bias: m(0.25),
        training: TrainingMeta {
            crate_version: "0".into(),
            rows: 40,
            wins: 20,
            config: TrainingConfig::default(),
        },
    }
}

fn schema() -> Vec<String> {
    vec!["a".into(), "b \"c\"".into()]
}

#[test]
fn a_sound_model_is_readable_by_name() {
    let model = PriorityModel::load(parts(), &schema()).unwrap();
    assert_eq!(model.format_version(), PRIORITY_MODEL_FORMAT_VERSION);
    let read: Vec<(String, f64)> = model
        .coefficients()
        .into_iter()
        .map(|(name, weight)| (name, v(weight)))
        .collect();
    assert_eq!(
        read,
        vec![("a".to_string(), 0.5), ("b \"c\"".to_string(), -0.5)]
    );
    assert_eq!(v(model.bias()), 0.25);
    assert_eq!(model.training().rows, 40);
    assert_eq!(model.mean().len(), 2);
    assert_eq!(model.scale().len(), 2);
    assert_eq!(model.weights().len(), 2);
}

#[test]
fn a_model_fitted_on_another_schema_is_refused_at_load() {
    let err = PriorityModel::load(parts(), &vec!["a".into(), "z".into()]).unwrap_err();
    assert_eq!(
        err,
        "priority model was fitted on features [\"a\", \"b \\\"c\\\"\"]; \
         this build ranks on [\"a\", \"z\"] — refit it with `train-ordering`"
    );
    let newer = ModelParts {
        format_version: PRIORITY_MODEL_FORMAT_VERSION + 1,
        ..parts()
    };
    let err = PriorityModel::load(newer, &schema()).unwrap_err();
    assert_eq!(
        err,
        "priority model format version 2 is not 1; refit it with `train-ordering`"
    );
}

#[test]
fn a_mis_shaped_or_unusable_model_is_refused() {
    let short = ModelParts {
        mean: all(&[0.0]),
        ..parts()
    };
    let err = PriorityModel::load(short, &schema()).unwrap_err();
    assert!(err.contains("mis-shaped"), "{err}");
    for bad in [
        ModelParts {
            bias: m(f64::NAN),
            ..parts()
        },
        ModelParts {
            weights: all(&[0.5, f64::INFINITY]),
            ..parts()
        },
        ModelParts {
            scale: all(&[1.0, 0.0]),
            ..parts()
        },
    ] {
        let err = PriorityModel::load(bad, &schema()).unwrap_err();
        assert_eq!(err, "priority model carries a non-finite coefficient");
    }
}

fn logistic(z: f64) -> f64 {
    1.0 / (1.0 + (-z).exp())
}

/// Descends on the rows from a start at nothing.
fn descend(rows: &[TrainingRow], config: &TrainingConfig) -> Descent {
    let width = names().len();
    let n = rows.len() as f64;
    let (mut mean, mut scale) = (vec![0.0; width], vec![0.0; width]);
    for row in rows {
        for (k, x) in row.features.iter().enumerate() {
            mean[k] += v(*x) / n;
        }
    }
    for row in rows {
        for (k, x) in row.features.iter().enumerate() {
            scale[k] += (v(*x) - mean[k]).powi(2) / n;
        }
    }
    for s in &mut scale {
        *s = if s.sqrt() < 1e-12 { 1.0 } else { s.sqrt() };
    }
    let (mut weights, mut bias) = (vec![0.0; width], 0.0);
    for _ in 0..config.epochs {
        let (mut grad, mut grad_bias) = (vec![0.0; width], 0.0);
        for row in rows {
            let at = |k: usize| (v(row.features[k]) - mean[k]) / scale[k];
            let z: f64 = (0..width).map(|k| weights[k] * at(k)).sum();
            let error = logistic(z + bias) - if row.win { 1.0 } else { 0.0 };
            for (k, g) in grad.iter_mut().enumerate() {
                *g += error * at(k) / n;
            }
            grad_bias += error / n;
        }
        for k in 0..width {
            weights[k] -= v(config.learning_rate) * (grad[k] + v(config.l2) * weights[k]);
        }
        bias -= v(config.learning_rate) * grad_bias;
    }
    Descent {
        mean: all(&mean),
        scale: all(&scale),
        weights: all(&weights),
        bias: m(bias),
    }
}

fn fitted(rows: &Vec<TrainingRow>) -> PriorityModel {
    let config = TrainingConfig::default();
    let descent = descend(rows, &config);
    PriorityModel::fit(rows, config, &names(), "0".into(), descent).unwrap()
}

fn probability_of(model: &PriorityModel, features: &[Measure]) -> f64 {
    let z: f64 = (0..features.len())
        .map(|k| {
            v(model.weights()[k]) * (v(features[k]) - v(model.mean()[k])) / v(model.scale()[k])
        })
        .sum();
    logistic(z + v(model.bias()))
}

fn features_with_mean_abs(mean_abs: f64) -> Vec<Measure> {
    let mut features = vec![m(0.0); names().len()];
    features[0] = m(1.0);
    features[2] = m(mean_abs.ln_1p());
    features[9] = m(2.0);
    features
}

#[test]
fn a_fitted_model_ranks_the_signal_it_was_trained_on() {
    let model = fitted(&separable_rows());
    let quiet = probability_of(&model, &features_with_mean_abs(0.01_f64.exp_m1()));
    let loud = probability_of(&model, &features_with_mean_abs(2.0_f64.exp_m1()));
    assert!(quiet > loud, "quiet {quiet} loud {loud}");
    assert!((0.0..=1.0).contains(&quiet), "{quiet}");
}

#[test]
fn the_same_rows_and_hyper_parameters_reproduce_the_same_model() {
    let a = fitted(&separable_rows());
    let b = fitted(&separable_rows());
    assert_eq!(
        format!("{a:?}"),
        format!("{b:?}"),
        "fitting must be deterministic"
    );
}

#[test]
fn evaluation_reports_ranking_quality() {
    let rows = separable_rows();
    let model = fitted(&rows);
    let kept: Vec<Measure> = rows
        .iter()
        .map(|row| keep_apart(m(probability_of(&model, &row.features))))
        .collect();
    let counts = evaluate(&rows, &kept);
    let log_loss: f64 = rows
        .iter()
        .zip(&kept)
        .map(|(row, p)| if row.win { -v(*p).ln() } else { -(1.0 - v(*p)).ln() })
        .sum::<f64>()
        / rows.len() as f64;
    let accuracy = counts.correct as f64 / rows.len() as f64;
    let ranking = auc(&counts.wins, &counts.losses).unwrap();
    let auc = ranking.points as f64 / 2.0 / ranking.pairs as f64;
    assert_eq!(counts.wins.len() + counts.losses.len(), rows.len());
    assert_eq!(counts.wins.len(), rows.len() / 2);
    assert!(auc > 0.9, "{auc}");
    assert!(accuracy > 0.9, "{accuracy}");
    assert!(log_loss < 0.7, "{log_loss}");
}

fn descent() -> Descent {
    let width = names().len();
    Descent {
        mean: vec![m(0.5); width],
        scale: vec![m(1.0); width],
        weights: vec![m(-0.25); width],
        bias: m(0.125),
    }
}

#[test]
fn a_fit_records_what_it_was_made_from() {
    let config = TrainingConfig {
        epochs: 3,
        corpora: vec!["c1".into()],
        ..Default::default()
    };
    let model =
        PriorityModel::fit(&separable_rows(), config, &names(), "0.1.0".into(), descent()).unwrap();
    assert_eq!(model.format_version(), PRIORITY_MODEL_FORMAT_VERSION);
    assert_eq!(model.training().rows, 40);
    assert_eq!(model.training().wins, 20);
    assert_eq!(model.training().crate_version, "0.1.0");
    assert_eq!(model.training().config.epochs, 3);
    assert_eq!(model.training().config.corpora, vec!["c1".to_string()]);
    assert_eq!(model.coefficients()[2], ("logMeanAbs".to_string(), m(-0.25)));
    assert_eq!(v(model.bias()), 0.125);
}

#[test]
fn a_fit_refuses_its_rows_before_its_coefficients() {
    let bad = Descent {
        bias: m(f64::NAN),
        ..descent()
    };
    let err = PriorityModel::fit(
        &Vec::new(),
        TrainingConfig::default(),
        &names(),
        "0".into(),
        bad,
    )
    .unwrap_err();
    assert_eq!(err, "cannot fit a priority model: no training rows");
    let bad = Descent {
        bias: m(f64::NAN),
        ..descent()
    };
    let err = PriorityModel::fit(
        &separable_rows(),
        TrainingConfig::default(),
        &names(),
        "0".into(),
        bad,
    )
    .unwrap_err();
    assert_eq!(err, "priority model carries a non-finite coefficient");
}

#[test]
fn a_fitted_model_loads_again() {
    let model = PriorityModel::fit(
        &separable_rows(),
        TrainingConfig::default(),
        &names(),
        "0".into(),
        descent(),
    )
    .unwrap();
    let written = |features: Vec<String>, format_version: u32| ModelParts {
        format_version,
        features,
        mean: model.mean().to_vec(),
        scale: model.scale().to_vec(),
        weights: model.weights().to_vec(),
        bias: model.bias(),
        training: TrainingMeta {
            crate_version: "0".into(),
            rows: 40,
            wins: 20,
            config: TrainingConfig::default(),
        },
    };
    let again =
        PriorityModel::load(written(names(), PRIORITY_MODEL_FORMAT_VERSION), &names()).unwrap();
    assert_eq!(again.coefficients(), model.coefficients());
    assert_eq!(again.bias(), model.bias());
    let mut renamed = names();
    renamed[3] = "renamed".into();
    assert!(
        PriorityModel::load(written(renamed, PRIORITY_MODEL_FORMAT_VERSION), &names()).is_err()
    );
    assert!(
        PriorityModel::load(written(names(), PRIORITY_MODEL_FORMAT_VERSION + 1), &names()).is_err()
    );
}

#[test]
fn the_order_of_the_rows_does_not_matter() {
    let fit = |rows: &Vec<TrainingRow>| {
        PriorityModel::fit(
            rows,
            TrainingConfig::default(),
            &names(),
            "0".into(),
            descent(),
        )
        .unwrap()
    };
    let mut rows = separable_rows();
    let first = fit(&rows);
    rows.reverse();
    rows.swap(3, 20);
    let second = fit(&rows);
    assert_eq!(first.coefficients(), second.coefficients());
    assert_eq!(first.bias(), second.bias());
    assert_eq!(first.training().rows, second.training().rows);
    assert_eq!(first.training().wins, second.training().wins);
}
