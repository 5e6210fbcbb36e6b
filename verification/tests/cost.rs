use ockham::cost::{CostModel, CreatureCost};
use ockham::measure::Measure;

fn m(value: f64) -> Measure {
    Measure {
        bits: value.to_bits(),
    }
}

fn v(measure: Measure) -> f64 {
    f64::from_bits(measure.bits)
}

/// What a batch of candidates, with its incumbent, is estimated to cost.
fn batch_ms(cost: &CostModel, candidates: usize) -> Option<f64> {
    cost.screen_batch_ms().map(|c| {
        v(c.per_creature_ms) * v(c.rate) * (candidates as f64 + 1.0) * v(c.multiple)
    })
}

#[test]
fn the_screening_reserve_is_sized_at_one_batch() {
    let mut cost = CostModel::new(Some(m(0.05)), m(1.0));
    assert_eq!(batch_ms(&cost, 99), None, "nothing measured yet");

    // The opening baseline: one creature over the full corpus, 200ms.
    cost.observe_baseline(200, m(200.0));
    assert_eq!(
        batch_ms(&cost, 99),
        Some(200.0 * 0.05 * 100.0),
        "a screen scores the same creatures over 5% of the corpus"
    );
    // A measured screen beats every estimate of one.
    cost.observe_screen(100, m(1_000.0 / 100.0));
    assert_eq!(batch_ms(&cost, 99), Some(10.0 * 100.0));

    let mut off = CostModel::new(None, m(1.0));
    off.observe_baseline(200, m(200.0));
    assert_eq!(
        batch_ms(&off, 9),
        Some(200.0 * 10.0),
        "with screening disabled the check is the full cohort itself"
    );
}

#[test]
fn the_reserve_prices_every_rung_of_a_ladder() {
    let multiple = (0.0025 + 0.01 + 0.05) / 0.05;
    let with = |multiple: f64| {
        let mut c = CostModel::new(Some(m(0.05)), m(multiple));
        c.observe_baseline(200, m(200.0));
        batch_ms(&c, 99).unwrap()
    };
    assert!((with(multiple) - with(1.0) * multiple).abs() < 1e-9);
}

#[test]
fn a_full_score_is_estimated_from_the_best_measurement() {
    let mut cost = CostModel::new(Some(m(0.01)), m(1.0));
    assert_eq!(cost.per_creature_ms(), None);
    cost.observe_screen(10, m(100.0));
    assert_eq!(
        cost.per_creature_ms(),
        Some(CreatureCost::Sampled {
            screen_ms: m(100.0),
            rate: m(0.01)
        })
    );
    // The first real cohort replaces it outright, later ones smooth in.
    cost.observe_full(m(1_000.0), m(0.0));
    assert_eq!(
        cost.per_creature_ms(),
        Some(CreatureCost::Full(m(1_000.0)))
    );
    cost.observe_full(m(10_000.0), m(3_700.0));
    assert_eq!(
        cost.per_creature_ms(),
        Some(CreatureCost::Full(m(3_700.0)))
    );
}

#[test]
fn measurements_of_nothing_tell_nothing() {
    let mut cost = CostModel::new(Some(m(0.0)), m(1.0));
    cost.observe_baseline(0, m(0.0));
    cost.observe_screen(0, m(5.0));
    assert_eq!(cost.per_creature_ms(), None);
    assert_eq!(cost.screen_batch_ms(), None);
    cost.observe_screen(2, m(5.0));
    assert_eq!(
        cost.per_creature_ms(),
        Some(CreatureCost::Guessed {
            screen_ms: m(5.0),
            multiple: m(20.0)
        }),
        "a share of nothing cannot be divided by"
    );
}
