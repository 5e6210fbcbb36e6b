use ockham::blocked::BlockedReason;
use ockham::creature::{is_hidden, Creature, Neuron, Synapse};
use ockham::measure::Measure;
use ockham::prune::{
    edge_request, hint, prune_edge, prune_hidden_neuron, reason_for, removed_weights, GroupCut,
    GroupMember, NeuronStats, PruneDetail, PruneError, PruneErrorKind, PruneRefusal, PruneResult,
    PrunedCandidate, Rewrite, RoledEdge, StaticIf, SynapseKey, SynapseRole, TransformClass,
    Uncompensated, UncompensatedReason,
};

fn m(value: f64) -> Measure {
    Measure {
        bits: value.to_bits(),
    }
}

fn v(measure: Measure) -> f64 {
    f64::from_bits(measure.bits)
}

fn ids(list: &[&str]) -> Vec<String> {
    list.iter().map(|t| t.to_string()).collect()
}

fn creature(neurons: &[(&str, &str)], synapses: &[(&str, &str, f64)]) -> Creature {
    Creature {
        neurons: neurons
            .iter()
            .map(|(kind, uuid)| Neuron {
                uuid: uuid.to_string(),
                neuron_type: kind.to_string(),
            })
            .collect(),
        synapses: synapses
            .iter()
            .map(|(from, to, weight)| Synapse {
                from_uuid: from.to_string(),
                to_uuid: to.to_string(),
                weight: m(*weight),
            })
            .collect(),
    }
}

fn chain_plus_keep() -> Creature {
    // input → h_up → h_leaf → output
    // input → h_keep → output
    creature(
        &[
            ("hidden", "h_up"),
            ("hidden", "h_leaf"),
            ("hidden", "h_keep"),
            ("output", "output-0"),
        ],
        &[
            ("input-0", "h_up", 1.0),
            ("h_up", "h_leaf", 1.0),
            ("h_leaf", "output-0", 2.0),
            ("input-0", "h_keep", 1.0),
            ("h_keep", "output-0", 1.0),
        ],
    )
}

fn copy(creature: &Creature) -> Creature {
    Creature {
        neurons: creature
            .neurons
            .iter()
            .map(|n| Neuron {
                uuid: n.uuid.clone(),
                neuron_type: n.neuron_type.clone(),
            })
            .collect(),
        synapses: creature
            .synapses
            .iter()
            .map(|s| Synapse {
                from_uuid: s.from_uuid.clone(),
                to_uuid: s.to_uuid.clone(),
                weight: s.weight,
            })
            .collect(),
    }
}

fn report(removed: Option<&str>) -> PruneResult {
    PruneResult {
        transform: TransformClass::Approximate,
        passes: 1,
        removed_neuron: removed.map(|u| u.to_string()),
        removed_synapses: Vec::new(),
        cascade_neurons: Vec::new(),
        cascade_synapses: Vec::new(),
        folded_neurons: Vec::new(),
        downgraded_if_neurons: Vec::new(),
        static_if_neurons: Vec::new(),
        restored_if_roles: Vec::new(),
        bias_folds: Vec::new(),
        weight_shares: Vec::new(),
        uncompensated: Vec::new(),
    }
}

fn refused(kind: PruneErrorKind, message: &str) -> PruneError {
    PruneError {
        kind,
        message: message.into(),
    }
}

/// An engine that removes a neuron, whatever then feeds nothing, and folds
/// whatever is then fed by nothing.
fn engine(creature: &Creature, uuid: &str, mean: f64) -> Result<(PruneResult, Creature), PruneError> {
    if !mean.is_finite() {
        return Err(refused(
            PruneErrorKind::NonFiniteStatistic,
            "mean is not finite",
        ));
    }
    if !creature.neurons.iter().any(|n| n.uuid == uuid) {
        return Err(refused(PruneErrorKind::UnknownNeuron, "unknown neuron"));
    }
    if !is_hidden(creature, uuid) {
        return Err(refused(PruneErrorKind::Protected, "protected neuron"));
    }
    let mut left = copy(creature);
    let mut result = report(Some(uuid));
    let drop = |left: &mut Creature, uuid: &str| {
        left.neurons.retain(|n| n.uuid != uuid);
        left.synapses
            .retain(|s| s.from_uuid != uuid && s.to_uuid != uuid);
    };
    drop(&mut left, uuid);
    loop {
        let stranded = left.neurons.iter().find(|n| {
            n.neuron_type == "hidden" && !left.synapses.iter().any(|s| s.from_uuid == n.uuid)
        });
        if let Some(neuron) = stranded {
            let gone = neuron.uuid.clone();
            drop(&mut left, &gone);
            result.cascade_neurons.push(gone);
            continue;
        }
        let unfed = left.neurons.iter().position(|n| {
            n.neuron_type == "hidden" && !left.synapses.iter().any(|s| s.to_uuid == n.uuid)
        });
        match unfed {
            Some(at) => {
                left.neurons[at].neuron_type = "constant".into();
                result.folded_neurons.push(left.neurons[at].uuid.clone());
            }
            None => break,
        }
    }
    Ok((result, left))
}

fn prune(incumbent: &Creature, uuid: &str, mean: f64) -> Result<PrunedCandidate, PruneRefusal> {
    let answer = engine(incumbent, uuid, mean).map(|(result, creature)| Rewrite {
        result,
        creature,
        validation: Ok(()),
    });
    prune_hidden_neuron(incumbent, answer)
}

fn group(uuids: &[&str], mean: f64) -> Vec<GroupMember> {
    uuids
        .iter()
        .map(|u| GroupMember {
            uuid: (*u).to_string(),
            mean: m(mean),
        })
        .collect()
}

fn prune_group(
    incumbent: &Creature,
    members: &Vec<GroupMember>,
) -> Result<PrunedCandidate, PruneRefusal> {
    let mut cut = GroupCut::new(members)?;
    let mut working = copy(incumbent);
    while let Some(stats) = cut.next(incumbent, &working) {
        let uuid = cut.members[cut.at].uuid.clone();
        match engine(&working, &uuid, v(stats.mean_activation)) {
            Ok((result, creature)) => {
                cut.settle(result);
                working = creature;
            }
            Err(error) => return Err(PruneRefusal::of(&error)),
        }
    }
    cut.finish(incumbent, working, Ok(()))
}

fn uuids(creature: &Creature) -> Vec<&str> {
    creature.neurons.iter().map(|n| n.uuid.as_str()).collect()
}

#[test]
fn the_cascade_removes_a_newly_unreachable_chain() {
    let result = prune(&chain_plus_keep(), "h_leaf", 1.0).unwrap();
    let left = uuids(&result.creature);
    assert!(!left.contains(&"h_leaf"));
    assert!(
        !left.contains(&"h_up"),
        "h_up lost its only outgoing and must cascade: {left:?}"
    );
    assert!(left.contains(&"h_keep"));
    assert_eq!(result.detail.cascade_neurons, vec!["h_up"]);
    assert_eq!(result.detail.removed_uuids(), vec!["h_leaf", "h_up"]);
}

#[test]
fn a_protected_or_unknown_target_is_refused_with_no_creature() {
    let incumbent = chain_plus_keep();
    let unknown = prune(&incumbent, "nope", 0.0).unwrap_err();
    assert_eq!(unknown.blocked_reason(), BlockedReason::UnsafeTopology);
    let output = prune(&incumbent, "output-0", 0.0).unwrap_err();
    assert_eq!(output.blocked_reason(), BlockedReason::UnsafeTopology);
    assert!(output.message().contains("protected"), "{output:?}");
    let nan = prune(&incumbent, "h_up", f64::NAN).unwrap_err();
    assert_eq!(nan.blocked_reason(), BlockedReason::MissingActivation);
    let infinite = prune(&incumbent, "h_up", f64::INFINITY).unwrap_err();
    assert_eq!(infinite.blocked_reason(), BlockedReason::MissingActivation);
}

#[test]
fn a_measured_variance_is_reported_as_the_residual_it_leaves() {
    let stats = NeuronStats {
        count: 64,
        variance: m(0.25),
    };
    assert_eq!(hint(m(2.0), Some(stats)).variance, Some(m(0.25)));
    assert_eq!(hint(m(2.0), Some(stats)).mean_activation, m(2.0));
    // A single record is no measurement of spread, so nothing is offered.
    let one_record = NeuronStats { count: 1, ..stats };
    assert_eq!(hint(m(2.0), Some(one_record)).variance, None);
    for bad in [f64::NAN, f64::INFINITY, -0.5] {
        let stats = NeuronStats {
            variance: m(bad),
            ..stats
        };
        assert_eq!(hint(m(2.0), Some(stats)).variance, None);
    }
    assert_eq!(hint(m(2.0), None).variance, None);
}

#[test]
fn a_group_cut_removes_every_member_and_its_cascade() {
    let result = prune_group(&chain_plus_keep(), &group(&["h_up", "h_leaf"], 1.0)).unwrap();
    // Removing `h_up` leaves `h_leaf` with nothing to sum: the member is
    // accounted for as a fold, not requested.
    assert_eq!(result.detail.requested_neurons, vec!["h_up"]);
    assert_eq!(result.detail.folded_neurons, vec!["h_leaf"]);
    assert_eq!(result.after.hidden, 1, "only `h_keep` is left");
    assert!(result.after.hidden < result.before.hidden);
}

#[test]
fn a_group_cut_distinguishes_primary_cuts_from_cleanup_cascade() {
    let result = prune_group(&chain_plus_keep(), &group(&["h_leaf", "h_keep"], 0.5)).unwrap();
    assert_eq!(result.detail.requested_neurons, vec!["h_leaf", "h_keep"]);
    assert_eq!(result.detail.cascade_neurons, vec!["h_up"]);
    assert_eq!(result.after.hidden, 0);
}

#[test]
fn a_repeated_member_is_folded_once() {
    let incumbent = chain_plus_keep();
    let once = prune_group(&incumbent, &group(&["h_keep"], 2.0)).unwrap();
    let twice = prune_group(&incumbent, &group(&["h_keep", "h_keep"], 2.0)).unwrap();
    assert_eq!(twice.detail.requested_neurons, vec!["h_keep"]);
    assert_eq!(uuids(&twice.creature), uuids(&once.creature));
}

#[test]
fn a_member_an_earlier_cascade_took_is_not_requested_twice() {
    let result = prune_group(&chain_plus_keep(), &group(&["h_leaf", "h_up"], 1.0)).unwrap();
    assert_eq!(result.detail.requested_neurons, vec!["h_leaf"]);
    assert_eq!(result.detail.cascade_neurons, vec!["h_up"]);
    assert_eq!(uuids(&result.creature), vec!["h_keep", "output-0"]);
}

#[test]
fn an_unbuildable_member_blocks_the_whole_group() {
    let incumbent = chain_plus_keep();
    for members in [
        group(&["h_up", "nope"], 1.0),
        group(&["h_up", "output-0"], 1.0),
        group(&["h_up"], f64::NAN),
    ] {
        let err = prune_group(&incumbent, &members).unwrap_err();
        assert!(
            matches!(
                err.blocked_reason(),
                BlockedReason::UnsafeTopology | BlockedReason::MissingActivation
            ),
            "{err:?}"
        );
    }
    let err = prune_group(&incumbent, &Vec::new()).unwrap_err();
    assert_eq!(err.blocked_reason(), BlockedReason::UnsafeTopology);
    assert_eq!(err.message(), "group cut requested with no members");
}

#[test]
fn a_single_member_group_matches_the_single_neuron_prune() {
    let incumbent = chain_plus_keep();
    let single = prune(&incumbent, "h_leaf", 1.0).unwrap();
    let grouped = prune_group(&incumbent, &group(&["h_leaf"], 1.0)).unwrap();
    assert_eq!(uuids(&grouped.creature), uuids(&single.creature));
    assert_eq!(
        grouped.detail.removed_uuids(),
        single.detail.removed_uuids()
    );
}

fn key(from: &str, to: &str, role: SynapseRole) -> SynapseKey {
    SynapseKey {
        from_uuid: from.into(),
        to_uuid: to.into(),
        role,
    }
}

fn edges() -> Vec<RoledEdge> {
    [
        ("input-0", "h_if", 1.0, SynapseRole::Positive),
        ("input-0", "h_if", -1.0, SynapseRole::Negative),
        ("h_a", "output-0", 3.0, SynapseRole::Standard),
        ("h_cond", "h_if", 1.0, SynapseRole::Condition),
    ]
    .iter()
    .map(|(from, to, weight, role)| RoledEdge {
        key: key(from, to, *role),
        weight: m(*weight),
    })
    .collect()
}

#[test]
fn unknown_endpoints_edges_and_source_values_are_refused() {
    for (from, to) in [("nope", "output-0"), ("h_a", "nope"), ("h_a", "h_b")] {
        let err = edge_request(&edges(), from, to).unwrap_err();
        assert_eq!(err.blocked_reason(), BlockedReason::UnsafeTopology);
        assert_eq!(err.message(), format!("no synapse `{from}`→`{to}`"));
    }
    let answer = Err(refused(
        PruneErrorKind::NonFiniteStatistic,
        "value is not finite",
    ));
    let err = prune_edge(&chain_plus_keep(), answer).unwrap_err();
    assert_eq!(err.blocked_reason(), BlockedReason::MissingActivation);
}

#[test]
fn the_first_edge_between_two_ends_is_requested() {
    let request = edge_request(&edges(), "input-0", "h_if").unwrap();
    assert_eq!(request.role, SynapseRole::Positive);
    assert_eq!(request.from_uuid, "input-0");
    let request = edge_request(&edges(), "h_cond", "h_if").unwrap();
    assert_eq!(request.role, SynapseRole::Condition);
}

#[test]
fn an_invalid_incumbent_yields_no_candidate_at_all() {
    let answer = Err(refused(PruneErrorKind::Cleanup, "cleanup failed"));
    let err = prune_edge(&chain_plus_keep(), answer).unwrap_err();
    assert_eq!(err.blocked_reason(), BlockedReason::ValidationFailed);
}

#[test]
fn a_creature_that_validation_rejects_is_no_candidate() {
    let incumbent = chain_plus_keep();
    let answer = engine(&incumbent, "h_up", 1.0).map(|(result, creature)| Rewrite {
        result,
        creature,
        validation: Err("rule 14".into()),
    });
    let err = prune_hidden_neuron(&incumbent, answer).unwrap_err();
    assert_eq!(err.blocked_reason(), BlockedReason::ValidationFailed);
    assert_eq!(
        err.message(),
        "core prune returned a creature validation rejects: rule 14"
    );
}

#[test]
fn several_reports_read_as_one() {
    let mut detail = PruneDetail::default();
    assert_eq!(detail.transform_class, TransformClass::Exact);
    let mut first = report(Some("h_a"));
    first.transform = TransformClass::Exact;
    first.folded_neurons = ids(&["h_x"]);
    first.removed_synapses = vec![key("h_cond", "h_if", SynapseRole::Condition)];
    detail.absorb(first);
    assert_eq!(detail.transform_class, TransformClass::Exact);
    assert!(detail.fully_compensated());
    let mut second = report(Some("h_b"));
    second.passes = 3;
    second.cascade_neurons = ids(&["h_y", "h_x"]);
    second.static_if_neurons = vec![StaticIf {
        uuid: "h_if".into(),
        branch: SynapseRole::Negative,
    }];
    second.uncompensated = vec![Uncompensated {
        target_uuid: "h_mean".into(),
        role: SynapseRole::Standard,
        weight_sum: m(1.0),
        squash: "MEAN".into(),
        reason: UncompensatedReason::AggregateTarget,
    }];
    detail.absorb(second);
    assert_eq!(detail.transform_class, TransformClass::Approximate);
    assert_eq!(detail.passes, 4);
    assert_eq!(detail.requested_neurons, ids(&["h_a", "h_b"]));
    assert_eq!(detail.removed_synapses[0].role, "condition");
    assert_eq!(detail.static_if_neurons[0].branch, "negative");
    assert_eq!(detail.uncompensated[0].reason, "aggregate-target");
    assert!(!detail.fully_compensated());
    // Folded by one request and stranded by the next, a neuron counts once.
    assert_eq!(detail.cascade_uuids(), ids(&["h_y", "h_x"]));
    assert_eq!(detail.removed_uuids(), ids(&["h_a", "h_b", "h_y", "h_x"]));
}

#[test]
fn the_weight_that_goes_is_read_by_role() {
    let mut detail = PruneDetail::default();
    let mut result = report(None);
    result.removed_synapses = vec![
        key("input-0", "h_if", SynapseRole::Negative),
        key("h_a", "output-0", SynapseRole::Standard),
        key("h_a", "output-0", SynapseRole::Positive),
    ];
    detail.absorb(result);
    let weights: Vec<f64> = removed_weights(&edges(), &detail.removed_synapses)
        .into_iter()
        .map(v)
        .collect();
    assert_eq!(weights, vec![-1.0, 3.0]);
}

#[test]
fn every_refusal_is_counted_under_a_reason() {
    let missing = [
        PruneErrorKind::NonFiniteStatistic,
        PruneErrorKind::NegativeVariance,
        PruneErrorKind::DegenerateProxy,
        PruneErrorKind::InconsistentCovariance,
        PruneErrorKind::UnknownProxy,
        PruneErrorKind::MissingProxyEdge,
    ];
    let unsafe_topology = [
        PruneErrorKind::UnknownNeuron,
        PruneErrorKind::UnknownSynapse,
        PruneErrorKind::Protected,
        PruneErrorKind::UnknownNeuronType,
    ];
    assert!(missing
        .iter()
        .all(|k| reason_for(*k) == BlockedReason::MissingActivation));
    assert!(unsafe_topology
        .iter()
        .all(|k| reason_for(*k) == BlockedReason::UnsafeTopology));
    assert_eq!(
        reason_for(PruneErrorKind::Cleanup),
        BlockedReason::ValidationFailed
    );
}
