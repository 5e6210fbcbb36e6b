use ockham::creature::{fan_out, touching, Creature, Neuron, Synapse};
use ockham::measure::Measure;
use ockham::ordering::{
    blend, hidden_order, random_order, rank_key, rankable, NeuronSignals, OrderingConfig,
    OrderingStrategy, SplitMix64,
};

fn m(value: f64) -> Measure {
    Measure {
        bits: value.to_bits(),
    }
}

fn v(measure: Measure) -> f64 {
    f64::from_bits(measure.bits)
}

fn creature(neurons: &[(&str, &str)], synapses: &[(&str, &str, f64)]) -> Creature {
    Creature {
        neurons: neurons
            .iter()
            .map(|(kind, uuid)| Neuron {
                uuid: uuid.to_string(),
                neuron_type: kind.to_string(),
            })
            .collect(),
        synapses: synapses
            .iter()
            .map(|(from, to, weight)| Synapse {
                from_uuid: from.to_string(),
                to_uuid: to.to_string(),
                weight: m(*weight),
            })
            .collect(),
    }
}

/// uuid, variance, mean_abs, min, max
type Row = (&'static str, f64, f64, f64, f64);

/// A creature with what was measured of it.
struct Subject {
    creature: Creature,
    rows: Vec<Row>,
    identity: Vec<&'static str>,
    cascade: Vec<(&'static str, f64)>,
    importance: Vec<(&'static str, f64)>,
}

fn growth_units(neurons: usize, synapses: usize) -> f64 {
    neurons as f64 + 0.1 * synapses as f64
}

fn outgoing(creature: &Creature, uuid: &str) -> f64 {
    creature
        .synapses
        .iter()
        .filter(|s| s.from_uuid == uuid)
        .map(|s| v(s.weight).abs())
        .sum()
}

impl Subject {
    fn signals(&self, uuid: &str) -> NeuronSignals {
        let row = self.rows.iter().find(|r| r.0 == uuid);
        let find = |list: &Vec<(&'static str, f64)>| {
            list.iter().find(|e| e.0 == uuid).map(|e| e.1)
        };
        let saving = find(&self.cascade);
        let importance = find(&self.importance);
        let contribution = row.map(|r| r.2 * outgoing(&self.creature, uuid));
        NeuronSignals {
            variance: row.map(|r| m(r.1)),
            mean_abs: row.map(|r| m(r.2)),
            range: row.map(|r| m(r.4 - r.3)),
            contribution: contribution.map(m),
            fan_out: m(fan_out(&self.creature, uuid) as f64),
            growth_saving: m(growth_units(1, touching(&self.creature, uuid))),
            identity: self.identity.contains(&uuid),
            cascade_saving: saving.map(m),
            risk_ratio: m(contribution.unwrap_or(0.0) / saving.unwrap_or(1.0)),
            importance: importance.map(m),
            effect: m(row.map_or(0.0, |r| r.2) * importance.unwrap_or(0.0)),
        }
    }

    fn order(&self, cfg: OrderingConfig, seed: u64) -> Vec<String> {
        let random = random_order(&self.creature, seed);
        let keys: Vec<Measure> = random
            .iter()
            .map(|uuid| rank_key(cfg.strategy, &self.signals(uuid)))
            .collect();
        let due = due(v(cfg.random_quota), random.len());
        hidden_order(random, &keys, cfg, &due)
    }
}

/// How many visits of the first `k + 1` are owed to chance.
fn due(quota: f64, len: usize) -> Vec<usize> {
    (0..len)
        .map(|k| (quota * (k + 1) as f64).ceil() as usize)
        .collect()
}

fn wired() -> Creature {
    creature(
        &[
            ("hidden", "h_flat"),
            ("hidden", "h_loud"),
            ("hidden", "h_hub"),
            ("output", "output-0"),
            ("output", "output-1"),
        ],
        &[
            ("input-0", "h_flat", 1.0),
            ("input-0", "h_loud", 1.0),
            ("input-0", "h_hub", 1.0),
            ("h_flat", "output-0", 0.5),
            ("h_loud", "output-0", 4.0),
            ("h_hub", "output-0", 1.0),
            ("h_hub", "output-1", 1.0),
        ],
    )
}

fn subject() -> Subject {
    Subject {
        creature: wired(),
        rows: vec![
            ("h_flat", 0.001, 0.01, -0.05, 0.05),
            ("h_loud", 4.000, 2.00, -6.00, 6.00),
            ("h_hub", 0.500, 0.40, -1.00, 1.00),
        ],
        identity: vec!["h_flat"],
        cascade: vec![("h_flat", 1.2), ("h_loud", 1.2), ("h_hub", 1.3)],
        importance: vec![("h_flat", 0.5), ("h_loud", 4.0), ("h_hub", 2.0)],
    }
}

fn order(strategy: OrderingStrategy) -> Vec<String> {
    subject().order(OrderingConfig::new(strategy), 11)
}

#[test]
fn every_ordering_is_a_permutation_of_the_hidden_neurons() {
    let expected = {
        let mut u: Vec<String> = vec!["h_flat".into(), "h_loud".into(), "h_hub".into()];
        u.sort();
        u
    };
    for strategy in OrderingStrategy::all() {
        for quota in [0.0, 0.25, 0.5, 0.9] {
            let got = subject().order(
                OrderingConfig {
                    strategy,
                    random_quota: m(quota),
                },
                3,
            );
            let mut sorted = got.clone();
            sorted.sort();
            assert_eq!(sorted, expected, "{} quota={quota}", strategy.name());
        }
    }
}

#[test]
fn a_fixed_seed_and_ordering_reproduce_the_same_visitation_order() {
    for strategy in OrderingStrategy::all() {
        let cfg = OrderingConfig {
            strategy,
            random_quota: m(0.3),
        };
        let a = subject().order(cfg, 99);
        let b = subject().order(cfg, 99);
        assert_eq!(a, b, "{} is not reproducible", strategy.name());
    }
}

#[test]
fn random_control_changes_with_the_seed() {
    let cfg = OrderingConfig::new(OrderingStrategy::default());
    let a = subject().order(cfg, 1);
    let b = subject().order(cfg, 2);
    assert_ne!(a, b);
}

#[test]
fn low_variance_visits_the_flattest_neuron_first() {
    assert_eq!(
        order(OrderingStrategy::LowVariance),
        ["h_flat", "h_hub", "h_loud"]
    );
}

#[test]
fn low_mean_abs_visits_the_quietest_neuron_first() {
    assert_eq!(
        order(OrderingStrategy::LowMeanAbs),
        ["h_flat", "h_hub", "h_loud"]
    );
}

#[test]
fn narrow_range_visits_the_tightest_neuron_first() {
    assert_eq!(
        order(OrderingStrategy::NarrowRange),
        ["h_flat", "h_hub", "h_loud"]
    );
}

#[test]
fn low_outgoing_contribution_multiplies_mean_abs_by_outgoing_weight() {
    // h_flat 0.01*0.5 = 0.005; h_hub 0.40*2.0 = 0.8; h_loud 2.00*4.0 = 8.0.
    assert_eq!(
        order(OrderingStrategy::LowOutgoingContribution),
        ["h_flat", "h_hub", "h_loud"]
    );
}

#[test]
fn low_fan_out_visits_the_smallest_blast_radius_first() {
    let got = order(OrderingStrategy::LowFanOut);
    assert_eq!(got[2], "h_hub", "{got:?}");
}

#[test]
fn high_growth_saving_visits_the_biggest_structural_saving_first() {
    let got = order(OrderingStrategy::HighGrowthSaving);
    assert_eq!(got[0], "h_hub", "{got:?}");
}

/// A quiet chain beside a loud neuron with two targets.
fn cascading() -> Subject {
    let rows = [("f1", 0.02), ("f2", 0.03), ("hub", 0.01), ("loud", 3.0)];
    Subject {
        creature: creature(
            &[
                ("hidden", "f1"),
                ("hidden", "f2"),
                ("hidden", "hub"),
                ("hidden", "loud"),
                ("output", "output-0"),
                ("output", "output-1"),
            ],
            &[
                ("input-0", "f1", 1.0),
                ("f1", "f2", 1.0),
                ("f2", "hub", 1.0),
                ("hub", "output-0", 1.0),
                ("input-0", "loud", 1.0),
                ("loud", "output-0", 4.0),
                ("loud", "output-1", 3.0),
            ],
        ),
        rows: rows.iter().map(|(u, a)| (*u, *a, *a, -*a, *a)).collect(),
        identity: Vec::new(),
        cascade: vec![("f1", 3.4), ("f2", 3.4), ("hub", 3.4), ("loud", 1.3)],
        importance: Vec::new(),
    }
}

fn cascading_order(strategy: OrderingStrategy) -> Vec<String> {
    cascading().order(OrderingConfig::new(strategy), 7)
}

#[test]
fn cascade_saving_visits_the_cuts_that_strand_the_most_structure_first() {
    let got = cascading_order(OrderingStrategy::CascadeSaving);
    assert_eq!(got[3], "loud", "{got:?}");
    let mut chain = got[..3].to_vec();
    chain.sort();
    assert_eq!(chain, ["f1", "f2", "hub"], "{got:?}");
}

#[test]
fn cascade_saving_outranks_the_edge_count_high_growth_saving_reads() {
    let touching = cascading_order(OrderingStrategy::HighGrowthSaving);
    assert_eq!(touching[0], "loud", "{touching:?}");
    let cascade = cascading_order(OrderingStrategy::CascadeSaving);
    assert_eq!(cascade[3], "loud", "{cascade:?}");
}

#[test]
fn cascade_risk_ratio_prefers_quiet_cuts_that_save_the_most_structure() {
    let got = cascading_order(OrderingStrategy::CascadeRiskRatio);
    assert_eq!(got[0], "hub", "{got:?}");
    assert_eq!(got[3], "loud", "{got:?}");
}

#[test]
fn a_cut_the_transform_would_refuse_ranks_behind_one_it_can_build() {
    // A refused cut saves nothing.
    let mut fixture = cascading();
    fixture.cascade = vec![
        ("f1", 0.0),
        ("f2", 0.0),
        ("hub", 0.0),
        ("loud", 1.3),
        ("agg", 0.0),
    ];
    fixture.creature.neurons.insert(
        4,
        Neuron {
            uuid: "agg".into(),
            neuron_type: "hidden".into(),
        },
    );
    for (from, to) in [("hub", "agg"), ("agg", "output-1")] {
        fixture.creature.synapses.push(Synapse {
            from_uuid: from.into(),
            to_uuid: to.into(),
            weight: m(1.0),
        });
    }
    fixture.rows.push(("agg", 0.1, 0.1, -0.1, 0.1));
    for strategy in [
        OrderingStrategy::CascadeSaving,
        OrderingStrategy::CascadeRiskRatio,
    ] {
        let got = fixture.order(OrderingConfig::new(strategy), 7);
        assert_eq!(got[0], "loud", "{}: {got:?}", strategy.name());
        assert!(
            got[1..].contains(&"hub".to_string()),
            "{}: {got:?}",
            strategy.name()
        );
    }
}

#[test]
fn a_neuron_without_statistics_ranks_last_under_the_risk_ratio() {
    let mut fixture = cascading();
    fixture.rows.retain(|n| n.0 != "hub");
    let got = fixture.order(OrderingConfig::new(OrderingStrategy::CascadeRiskRatio), 7);
    assert_eq!(got.len(), 4, "{got:?}");
    assert_eq!(got[3], "hub", "{got:?}");
}

/// A loud neuron the topology mutes, beside two quieter ones that matter.
fn attenuated() -> Subject {
    let rows = [("loud", 3.0), ("tap", 0.2), ("quiet", 0.05), ("mid", 0.5)];
    Subject {
        creature: creature(
            &[
                ("hidden", "loud"),
                ("hidden", "tap"),
                ("hidden", "quiet"),
                ("hidden", "mid"),
                ("output", "output-0"),
            ],
            &[
                ("input-0", "loud", 1.0),
                ("loud", "tap", 5.0),
                ("tap", "output-0", 0.0),
                ("input-0", "quiet", 1.0),
                ("quiet", "output-0", 2.0),
                ("input-0", "mid", 1.0),
                ("mid", "output-0", 0.1),
            ],
        ),
        rows: rows.iter().map(|(u, a)| (*u, *a, *a, -*a, *a)).collect(),
        identity: Vec::new(),
        cascade: Vec::new(),
        importance: vec![("loud", 0.0), ("tap", 0.0), ("quiet", 2.0), ("mid", 0.1)],
    }
}

fn attenuated_order(strategy: OrderingStrategy) -> Vec<String> {
    attenuated().order(OrderingConfig::new(strategy), 7)
}

#[test]
fn low_output_sensitivity_screens_the_neurons_nothing_downstream_depends_on_first() {
    let got = attenuated_order(OrderingStrategy::LowOutputSensitivity);
    let mut muted = got[..2].to_vec();
    muted.sort();
    assert_eq!(muted, ["loud", "tap"], "{got:?}");
    assert_eq!(got[2], "mid", "{got:?}");
    assert_eq!(got[3], "quiet", "{got:?}");
}

#[test]
fn low_estimated_effect_screens_the_loudest_neuron_first_when_nothing_downstream_cares() {
    let effect = attenuated_order(OrderingStrategy::LowEstimatedEffect);
    let mut muted = effect[..2].to_vec();
    muted.sort();
    assert_eq!(muted, ["loud", "tap"], "{effect:?}");
    assert_eq!(effect[2], "mid", "{effect:?}");
    assert_eq!(effect[3], "quiet", "{effect:?}");
    let loudness = attenuated_order(OrderingStrategy::LowMeanAbs);
    assert_eq!(
        loudness[3], "loud",
        "the activation ranking visits the muted neuron last: {loudness:?}"
    );
}

#[test]
fn the_estimated_effect_separates_neurons_the_topology_alone_ties() {
    let fixture = Subject {
        creature: creature(
            &[
                ("hidden", "soft"),
                ("hidden", "hard"),
                ("output", "output-0"),
            ],
            &[
                ("input-0", "soft", 1.0),
                ("soft", "output-0", 0.1),
                ("input-0", "hard", 1.0),
                ("hard", "output-0", 0.1),
            ],
        ),
        rows: vec![("soft", 0.01, 0.01, -0.01, 0.01), ("hard", 2.0, 2.0, -2.0, 2.0)],
        identity: Vec::new(),
        cascade: Vec::new(),
        importance: vec![("soft", 0.1), ("hard", 0.1)],
    };
    let got = fixture.order(OrderingConfig::new(OrderingStrategy::LowEstimatedEffect), 7);
    assert_eq!(got, ["soft", "hard"], "{got:?}");
}

#[test]
fn a_neuron_the_sensitivity_covers_but_the_statistics_do_not_keeps_its_place() {
    let mut partial = attenuated();
    partial.rows.retain(|n| n.0 != "loud");
    let topological = partial.order(
        OrderingConfig::new(OrderingStrategy::LowOutputSensitivity),
        5,
    );
    assert_eq!(topological.len(), 4, "{topological:?}");
    assert!(
        topological[..2].contains(&"loud".to_string()),
        "{topological:?}"
    );
    let combined = partial.order(OrderingConfig::new(OrderingStrategy::LowEstimatedEffect), 5);
    assert_eq!(combined.len(), 4, "{combined:?}");
    assert_eq!(combined[3], "loud", "{combined:?}");
}

#[test]
fn a_recurrent_loop_is_not_screened_ahead_of_a_genuinely_muted_neuron() {
    let fixture = Subject {
        creature: creature(
            &[
                ("hidden", "r1"),
                ("hidden", "r2"),
                ("hidden", "muted"),
                ("output", "output-0"),
            ],
            &[
                ("input-0", "r1", 1.0),
                ("r1", "r2", 2.0),
                ("r2", "r1", 0.5),
                ("r2", "output-0", 7.0),
                ("input-0", "muted", 1.0),
                ("muted", "output-0", 0.0),
            ],
        ),
        rows: vec![
            ("r1", 0.5, 0.5, -0.5, 0.5),
            ("r2", 0.5, 0.5, -0.5, 0.5),
            ("muted", 0.5, 0.5, -0.5, 0.5),
        ],
        identity: Vec::new(),
        cascade: Vec::new(),
        // One hop into the loop is credited with the loop's own exit.
        importance: vec![("r1", 14.0), ("r2", 7.0), ("muted", 0.0)],
    };
    for strategy in [
        OrderingStrategy::LowOutputSensitivity,
        OrderingStrategy::LowEstimatedEffect,
    ] {
        let got = fixture.order(OrderingConfig::new(strategy), 3);
        assert_eq!(got[0], "muted", "{}: {got:?}", strategy.name());
        assert_eq!(got.len(), 3, "{}: {got:?}", strategy.name());
    }
}

#[test]
fn identity_first_visits_identity_neurons_ahead_of_the_rest() {
    let got = order(OrderingStrategy::IdentityFirst);
    assert_eq!(got[0], "h_flat", "{got:?}");
}

#[test]
fn a_random_quota_reserves_exploration_slots_for_the_control() {
    let cfg = OrderingConfig {
        strategy: OrderingStrategy::LowVariance,
        random_quota: m(0.9),
    };
    // A heavy quota must reproduce the control order, not the ranking.
    let blended = subject().order(cfg, 11);
    assert_eq!(blended, random_order(&wired(), 11));
    // No quota must reproduce the pure ranking.
    let ranked = subject().order(OrderingConfig::new(cfg.strategy), 11);
    assert_eq!(ranked[0], "h_flat");
}

#[test]
fn a_neuron_without_statistics_is_visited_last_not_dropped() {
    let mut partial = subject();
    partial.rows.retain(|n| n.0 != "h_flat");
    let got = partial.order(OrderingConfig::new(OrderingStrategy::LowVariance), 5);
    assert_eq!(got.len(), 3, "{got:?}");
    assert_eq!(got[2], "h_flat", "{got:?}");
}

#[test]
fn names_round_trip_and_unknown_names_list_the_valid_set() {
    for strategy in OrderingStrategy::all() {
        assert_eq!(OrderingStrategy::parse(strategy.name()).unwrap(), strategy);
    }
    let err = OrderingStrategy::parse("cleverest").unwrap_err();
    assert!(err.contains("cleverest"), "{err}");
    assert!(err.contains("low-variance"), "{err}");
    assert_eq!(OrderingStrategy::default(), OrderingStrategy::Random);
}

#[test]
fn an_out_of_range_random_quota_names_the_flag() {
    for quota in [1.0, -0.1, f64::NAN, f64::INFINITY] {
        let bad = OrderingConfig {
            strategy: OrderingStrategy::LowVariance,
            random_quota: m(quota),
        };
        assert!(bad
            .validate()
            .unwrap_err()
            .contains("--ordering-random-quota"));
    }
    assert!(OrderingConfig::new(OrderingStrategy::LowVariance)
        .validate()
        .is_ok());
}

#[test]
fn the_generator_gives_the_published_sequence() {
    let mut rng = SplitMix64 { state: 0 };
    assert_eq!(rng.next(), 0xE220_A839_7B1D_CDAF);
    assert_eq!(rng.next(), 0x6E78_9E6A_A1B9_65F4);
    assert_eq!(rng.next(), 0x06C4_5D18_8009_454F);
}

#[test]
fn a_shuffle_is_a_permutation_and_repeats() {
    let mut a: Vec<usize> = (0..20).collect();
    let mut b = a.clone();
    SplitMix64 { state: 7 }.shuffle(&mut a);
    SplitMix64 { state: 7 }.shuffle(&mut b);
    assert_eq!(a, b);
    assert_ne!(a, (0..20).collect::<Vec<usize>>());
    a.sort_unstable();
    assert_eq!(a, (0..20).collect::<Vec<usize>>());
    let mut none: Vec<usize> = Vec::new();
    SplitMix64 { state: 7 }.shuffle(&mut none);
    assert!(none.is_empty());
    // What is shuffled need not be a number.
    let mut names: Vec<String> = (0..20).map(|i| i.to_string()).collect();
    let mut order: Vec<usize> = (0..20).collect();
    SplitMix64 { state: 7 }.shuffle(&mut names);
    let mut rng = SplitMix64 { state: 7 };
    rng.shuffle(&mut order);
    let shown: Vec<String> = order.iter().map(|i| i.to_string()).collect();
    assert_eq!(names, shown);
    let mut other = SplitMix64 { state: 7 };
    for _ in 0..19 {
        other.next();
    }
    assert_eq!(rng.state, other.state, "one draw for each place but the first");
}

fn texts(list: &[&str]) -> Vec<String> {
    list.iter().map(|t| t.to_string()).collect()
}

#[test]
fn a_blend_takes_turns_without_repeating_a_neuron() {
    let ranked = texts(&["a", "b", "c", "d"]);
    let random = texts(&["d", "c", "b", "a"]);
    // Every other visit is owed to chance, and chance comes first.
    assert_eq!(
        blend(ranked.clone(), &random, &due(0.5, 4), m(0.5)),
        texts(&["d", "a", "c", "b"])
    );
    assert_eq!(
        blend(ranked.clone(), &random, &due(0.0, 4), m(0.0)),
        ranked
    );
}

#[test]
fn names_are_listed_in_order() {
    assert!(OrderingStrategy::names().starts_with("random, low-variance, low-mean-abs, "));
    assert!(OrderingStrategy::names().ends_with("low-output-sensitivity, low-estimated-effect"));
    assert_eq!(OrderingStrategy::all().len(), 12);
    assert!(OrderingStrategy::CascadeSaving.needs_cascade());
    assert!(!OrderingStrategy::CascadeSaving.needs_sensitivity());
    assert!(OrderingStrategy::LowEstimatedEffect.needs_sensitivity());
}

#[test]
fn what_does_not_compare_ranks_last() {
    assert_eq!(v(rankable(None)), f64::INFINITY);
    assert_eq!(v(rankable(Some(m(f64::NAN)))), f64::INFINITY);
    assert_eq!(v(rankable(Some(m(0.25)))), 0.25);
}
