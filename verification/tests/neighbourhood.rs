use std::collections::BTreeSet;

use ockham::creature::{names_of, Creature, Neuron, Synapse};
use ockham::measure::Measure;
use ockham::neighbourhood::{
    appraise, drop_subsumed, effect_of, group_key, propose_neighbourhoods, survey, CascadeEstimate,
    Group, GroupBatch, Neighbourhood, NeighbourhoodConfig, NeighbourhoodKind, NeuronEffect,
    DEFAULT_NEIGHBOURHOOD_PROPOSALS, DEFAULT_NEIGHBOURHOOD_SIZE, MAX_NEIGHBOURHOOD_SIZE,
};
use ockham::sweep::CandidateKind;
use ockham::topology::{Topology, MIN_NEIGHBOURHOOD_SIZE};

fn m(value: f64) -> Measure {
    Measure {
        bits: value.to_bits(),
    }
}

fn v(measure: Measure) -> f64 {
    f64::from_bits(measure.bits)
}

fn creature(hidden: &[&str], synapses: &[(&str, &str, f64)]) -> Creature {
    let mut neurons: Vec<Neuron> = hidden
        .iter()
        .map(|uuid| Neuron {
            uuid: uuid.to_string(),
            neuron_type: "hidden".into(),
        })
        .collect();
    neurons.push(Neuron {
        uuid: "output-0".into(),
        neuron_type: "output".into(),
    });
    Creature {
        neurons,
        synapses: synapses
            .iter()
            .map(|(from, to, weight)| Synapse {
                from_uuid: from.to_string(),
                to_uuid: to.to_string(),
                weight: m(*weight),
            })
            .collect(),
    }
}

/// `input-0 → c1 → c2 → c3 → output-0`, plus a lone `keep → output-0`.
fn chain_creature() -> Creature {
    creature(
        &["c1", "c2", "c3", "keep"],
        &[
            ("input-0", "c1", 1.0),
            ("c1", "c2", 1.0),
            ("c2", "c3", 1.0),
            ("c3", "output-0", 0.01),
            ("input-0", "keep", 1.0),
            ("keep", "output-0", 2.0),
        ],
    )
}

/// `b1` and `b2` both feed `b3`, which is the branch's only exit.
fn branch_creature() -> Creature {
    creature(
        &["b1", "b2", "b3", "keep"],
        &[
            ("input-0", "b1", 1.0),
            ("input-0", "b2", 1.0),
            ("b1", "b3", 1.0),
            ("b2", "b3", 1.0),
            ("b3", "output-0", 0.01),
            ("input-0", "keep", 1.0),
            ("keep", "output-0", 2.0),
        ],
    )
}

/// `a` and `b` feed each other's side, but leave through two survivors.
fn web_creature() -> Creature {
    creature(
        &["a", "b", "x", "y"],
        &[
            ("input-0", "a", 1.0),
            ("input-0", "b", 1.0),
            ("input-0", "x", 1.0),
            ("input-0", "y", 1.0),
            ("a", "b", 0.5),
            ("a", "x", 0.01),
            ("b", "y", 0.01),
            ("x", "output-0", 1.0),
            ("y", "output-0", 1.0),
        ],
    )
}

/// The sway of a neuron over the outputs, for creatures without loops.
fn importance(creature: &Creature, uuid: &str) -> f64 {
    if uuid.starts_with("output") {
        return 1.0;
    }
    creature
        .synapses
        .iter()
        .filter(|s| s.from_uuid == uuid)
        .map(|s| v(s.weight).abs() * importance(creature, &s.to_uuid))
        .sum()
}

/// What goes with a cut: whatever is left without an input or without a
/// target.
fn cascade(creature: &Creature, members: &[String]) -> CascadeEstimate {
    let mut gone: BTreeSet<String> = members.iter().cloned().collect();
    loop {
        let next = creature.neurons.iter().find(|n| {
            let kept = |s: &&Synapse| !gone.contains(&s.from_uuid) && !gone.contains(&s.to_uuid);
            n.neuron_type == "hidden"
                && !gone.contains(&n.uuid)
                && (!creature.synapses.iter().filter(kept).any(|s| s.from_uuid == n.uuid)
                    || !creature.synapses.iter().filter(kept).any(|s| s.to_uuid == n.uuid))
        });
        match next {
            Some(neuron) => gone.insert(neuron.uuid.clone()),
            None => break,
        };
    }
    let synapses = creature
        .synapses
        .iter()
        .filter(|s| gone.contains(&s.from_uuid) || gone.contains(&s.to_uuid))
        .count();
    CascadeEstimate {
        hidden_neurons: gone.len(),
        synapses,
        growth_units: m(gone.len() as f64 + 0.1 * synapses as f64),
        blocked: false,
    }
}

/// Everything from the survey of a creature to its ranked proposals.
fn propose(
    creature: &Creature,
    mean_abs: impl Fn(&str) -> Option<f64>,
    cfg: NeighbourhoodConfig,
) -> Vec<Neighbourhood> {
    let topology = Topology::new(creature);
    let effects: Vec<Option<Measure>> = topology
        .uuids
        .iter()
        .map(|uuid| {
            effect_of(mean_abs(uuid).map(|mean| NeuronEffect {
                mean: m(mean),
                effect: m(mean * importance(creature, uuid)),
            }))
        })
        .collect();
    let groups = survey(&topology, cfg, &effects);
    let mut estimates = Vec::new();
    let mut ranks = Vec::new();
    for group in &groups {
        let estimate = cascade(creature, &names_of(&topology.uuids, &group.members));
        ranks.push(m(v(group.effect) / v(estimate.growth_units)));
        estimates.push(estimate);
    }
    let appraised = appraise(&topology.uuids, groups, &estimates, &ranks);
    propose_neighbourhoods(appraised, cfg)
}

fn names(groups: &[Neighbourhood]) -> Vec<Vec<String>> {
    groups.iter().map(|g| g.members.clone()).collect()
}

fn uniform(mean_abs: f64) -> impl Fn(&str) -> Option<f64> {
    move |_| Some(mean_abs)
}

fn quiet_pair(uuid: &str) -> Option<f64> {
    match uuid {
        "a" | "b" => Some(0.005),
        _ => Some(0.4),
    }
}

#[test]
fn a_linear_chain_is_proposed_head_to_tail_as_one_group() {
    let groups = propose(
        &chain_creature(),
        uniform(0.1),
        NeighbourhoodConfig::default(),
    );
    let chain = groups
        .iter()
        .find(|g| g.kind == NeighbourhoodKind::Chain)
        .unwrap_or_else(|| panic!("no chain proposed: {:?}", names(&groups)));
    assert_eq!(chain.members, vec!["c1", "c2", "c3"]);
    assert_eq!(chain.estimate.hidden_neurons, 3);
    assert!(v(chain.estimate.growth_units) > 0.0);
    assert!(
        groups.iter().all(|g| !g.members.contains(&"keep".into())),
        "`keep` has no chain or tributary: {:?}",
        names(&groups)
    );
}

#[test]
fn a_single_output_tributary_is_proposed_as_a_branch() {
    let groups = propose(
        &branch_creature(),
        uniform(0.1),
        NeighbourhoodConfig::default(),
    );
    let branch = groups
        .iter()
        .find(|g| g.members.contains(&"b3".into()))
        .unwrap_or_else(|| panic!("no branch proposed: {:?}", names(&groups)));
    assert_eq!(branch.kind, NeighbourhoodKind::Branch);
    assert_eq!(branch.members, vec!["b2", "b1", "b3"]);
    assert_eq!(branch.estimate.hidden_neurons, 3);
    assert!(
        groups.iter().all(|g| !g.members.contains(&"keep".into())),
        "`keep` feeds the output directly: {:?}",
        names(&groups)
    );
}

#[test]
fn a_group_batch_builds_a_validated_candidate_per_proposal() {
    let cfg = NeighbourhoodConfig::default();
    let proposed = propose(&chain_creature(), uniform(0.1), cfg);
    let mut batch = GroupBatch::new();
    let mut from = 0;
    while let Some(at) = batch.next_group(&proposed, from, cfg, &Vec::new()) {
        let group = Neighbourhood {
            members: proposed[at].members.clone(),
            ..proposed_copy(&proposed[at])
        };
        batch.take_in(group, Vec::new());
        from = at + 1;
    }
    assert!(!batch.candidates.is_empty());
    assert!(batch.blocked.is_empty(), "{:?}", batch.blocked);
    assert_eq!(batch.considered(), batch.candidates.len());
    let first = &batch.candidates[0].candidate;
    assert_eq!(first.kind, CandidateKind::Group);
    assert!(first.is_group());
    assert_eq!(first.uuid, first.members[0]);
    assert_eq!(first.stem, "g000");
    assert!(batch
        .candidates
        .iter()
        .all(|c| c.candidate.stem.starts_with('g')));
}

fn proposed_copy(group: &Neighbourhood) -> Neighbourhood {
    Neighbourhood {
        kind: group.kind,
        members: group.members.clone(),
        effect: group.effect,
        estimate: group.estimate,
        rank: group.rank,
    }
}

#[test]
fn a_batch_without_statistics_proposes_nothing_to_build() {
    let cfg = NeighbourhoodConfig::default();
    let proposed = propose(&chain_creature(), |_| None, cfg);
    let batch = GroupBatch::new();
    assert_eq!(batch.next_group(&proposed, 0, cfg, &Vec::new()), None);
    assert_eq!(batch.considered(), 0);
}

#[test]
fn a_two_exit_cluster_is_proposed_where_no_single_cut_removes_it() {
    let creature = web_creature();
    let groups = propose(&creature, quiet_pair, NeighbourhoodConfig::default());
    let cluster = groups
        .iter()
        .find(|g| g.kind == NeighbourhoodKind::Cluster)
        .unwrap_or_else(|| panic!("no cluster proposed: {:?}", names(&groups)));
    assert_eq!(cluster.members, vec!["a", "b"]);
    assert_eq!(
        groups[0].members,
        vec!["a", "b"],
        "the quiet pair must rank first: {:?}",
        names(&groups)
    );
    let loud = groups
        .iter()
        .position(|g| g.members.iter().any(|m| m == "x" || m == "y"));
    assert!(loud.map_or(true, |i| i > 0), "{:?}", names(&groups));
    for uuid in &cluster.members {
        let single = cascade(&creature, &[uuid.clone()]);
        assert!(
            v(cluster.estimate.growth_units) > v(single.growth_units),
            "the group must remove more than cutting {uuid} alone"
        );
    }
}

#[test]
fn a_proposal_a_larger_one_already_removes_is_not_offered_twice() {
    let groups = propose(
        &chain_creature(),
        uniform(0.1),
        NeighbourhoodConfig::default(),
    );
    assert!(
        groups.iter().any(|g| g.members == ["c1", "c2", "c3"]),
        "the whole chain must survive ranking: {:?}",
        names(&groups)
    );
    assert!(
        groups.iter().all(|g| g.members != ["c1", "c2"]),
        "a sub-cut removing exactly the same structure is not a second proposal: {:?}",
        names(&groups)
    );
}

#[test]
fn a_membership_already_tried_is_passed_over_for_the_next_one() {
    let creature = web_creature();
    let cfg = NeighbourhoodConfig {
        max_size: 2,
        max_proposals: 1,
    };
    let first_list = propose(&creature, quiet_pair, cfg.deeper(0));
    let batch = GroupBatch::new();
    let first = batch
        .next_group(&first_list, 0, cfg, &Vec::new())
        .expect("a first group");
    let key = group_key(&first_list[first].members);
    let tried = vec![key.clone()];
    let second_list = propose(&creature, quiet_pair, cfg.deeper(tried.len()));
    let second = batch.next_group(&second_list, 0, cfg, &tried);
    assert!(
        second.map_or(true, |at| group_key(&second_list[at].members) != key),
        "a membership already screened must not come back this run"
    );
    assert_ne!(
        second.map(|at| second_list[at].members.clone()),
        Some(first_list[first].members.clone()),
        "the search must reach further down the ranked list"
    );
}

fn key(members: &[&str]) -> String {
    group_key(&members.iter().map(|m| m.to_string()).collect())
}

#[test]
fn a_group_key_names_its_membership_in_order() {
    assert_eq!(key(&["h_a", "h_b"]), "h_a,h_b");
    assert_eq!(key(&["h_a"]), "h_a");
    assert_eq!(key(&[]), "");
    // Order is membership order, so two orders of one set are two keys.
    assert_ne!(key(&["h_b", "h_a"]), key(&["h_a", "h_b"]));
}

#[test]
fn every_shape_has_a_kebab_case_name() {
    assert_eq!(NeighbourhoodKind::Chain.name(), "chain");
    assert_eq!(NeighbourhoodKind::Branch.name(), "branch");
    assert_eq!(NeighbourhoodKind::Cluster.name(), "cluster");
}

#[test]
fn generation_is_deterministic_and_bounded() {
    let creature = chain_creature();
    let cfg = NeighbourhoodConfig {
        max_size: 2,
        max_proposals: 1,
    };
    let first = propose(&creature, uniform(0.1), cfg);
    let second = propose(&creature, uniform(0.1), cfg);
    assert_eq!(
        names(&first),
        names(&second),
        "the same inputs must propose the same groups"
    );
    assert_eq!(first.len(), 1, "max_proposals must cap the list");
    assert!(
        first.iter().all(|g| g.members.len() <= 2),
        "max_size must cap each group: {:?}",
        names(&first)
    );
    let none = NeighbourhoodConfig {
        max_proposals: 0,
        ..cfg
    };
    assert!(propose(&creature, uniform(0.1), none).is_empty());
}

#[test]
fn a_size_outside_the_bounds_is_clamped_rather_than_obeyed() {
    assert_eq!(
        NeighbourhoodConfig {
            max_size: 0,
            max_proposals: 4
        }
        .effective_size(),
        MIN_NEIGHBOURHOOD_SIZE
    );
    assert_eq!(
        NeighbourhoodConfig {
            max_size: 4_000,
            max_proposals: 4
        }
        .effective_size(),
        MAX_NEIGHBOURHOOD_SIZE
    );
}

#[test]
fn the_quietest_group_with_the_largest_saving_ranks_first() {
    // Two chains: `q1 → q2` is quiet, `l1 → l2` is loud.
    let creature = creature(
        &["q1", "q2", "l1", "l2", "keep"],
        &[
            ("input-0", "q1", 1.0),
            ("q1", "q2", 1.0),
            ("q2", "output-0", 1.0),
            ("input-0", "l1", 1.0),
            ("l1", "l2", 1.0),
            ("l2", "output-0", 1.0),
            ("input-0", "keep", 1.0),
            ("keep", "output-0", 1.0),
        ],
    );
    let groups = propose(
        &creature,
        |uuid| Some(if uuid.starts_with('l') { 4.0 } else { 0.01 }),
        NeighbourhoodConfig::default(),
    );
    assert_eq!(groups[0].members, vec!["q1", "q2"], "{:?}", names(&groups));
    assert!(v(groups[0].rank) < v(groups[1].rank));
}

#[test]
fn a_creature_with_no_measured_statistics_proposes_nothing() {
    let groups = propose(
        &chain_creature(),
        |_| None,
        NeighbourhoodConfig::default(),
    );
    assert!(
        groups.is_empty(),
        "a group needs one measured mean per member: {:?}",
        names(&groups)
    );
}

#[test]
fn a_creature_with_no_chain_or_tributary_proposes_nothing() {
    let creature = creature(
        &["a", "b"],
        &[
            ("input-0", "a", 1.0),
            ("input-0", "b", 1.0),
            ("a", "output-0", 1.0),
            ("b", "output-0", 1.0),
        ],
    );
    let groups = propose(&creature, uniform(0.1), NeighbourhoodConfig::default());
    assert!(groups.is_empty(), "{:?}", names(&groups));
}

#[test]
fn a_disconnected_hidden_neuron_is_not_grown_into_a_group() {
    let mut creature = chain_creature();
    creature.neurons.insert(
        0,
        Neuron {
            uuid: "orphan".into(),
            neuron_type: "hidden".into(),
        },
    );
    let groups = propose(&creature, uniform(0.1), NeighbourhoodConfig::default());
    assert!(
        groups
            .iter()
            .all(|g| !g.members.contains(&"orphan".into())),
        "{:?}",
        names(&groups)
    );
}

fn group(members: &[&str], rank: f64, hidden: usize, synapses: usize) -> Neighbourhood {
    Neighbourhood {
        kind: NeighbourhoodKind::Cluster,
        members: members.iter().map(|m| m.to_string()).collect(),
        effect: m(0.1),
        estimate: CascadeEstimate {
            hidden_neurons: hidden,
            synapses,
            growth_units: m(hidden as f64 + 0.1 * synapses as f64),
            blocked: false,
        },
        rank: m(rank),
    }
}

#[test]
fn proposals_come_best_first_and_level_ranks_by_members() {
    let groups = vec![
        group(&["z", "y"], 0.5, 2, 4),
        group(&["b", "c"], 0.5, 2, 5),
        group(&["q", "r"], 0.1, 2, 6),
    ];
    let out = propose_neighbourhoods(groups, NeighbourhoodConfig::default());
    assert_eq!(names(&out), vec![vec!["q", "r"], vec!["b", "c"], vec!["z", "y"]]);
}

#[test]
fn a_blocked_or_worthless_group_is_not_proposed() {
    let mut blocked = group(&["a", "b"], 0.1, 2, 4);
    blocked.estimate.blocked = true;
    let mut worthless = group(&["c", "d"], 0.2, 0, 0);
    worthless.estimate.growth_units = m(0.0);
    let kept = group(&["e", "f"], 0.3, 2, 2);
    let out = propose_neighbourhoods(
        vec![blocked, worthless, kept],
        NeighbourhoodConfig::default(),
    );
    assert_eq!(names(&out), vec![vec!["e", "f"]]);
}

#[test]
fn a_narrower_group_with_the_same_saving_goes_and_a_level_one_stays() {
    let kept = drop_subsumed(vec![
        group(&["a", "b"], 0.1, 3, 4),
        group(&["a", "b", "c"], 0.2, 3, 4),
        group(&["a", "d"], 0.3, 3, 4),
        group(&["a", "b"], 0.4, 3, 5),
    ]);
    assert_eq!(
        names(&kept),
        vec![vec!["a", "b", "c"], vec!["a", "d"], vec!["a", "b"]]
    );
}

#[test]
fn a_refused_group_is_recorded_with_its_shape() {
    let mut batch = GroupBatch::new();
    batch.refuse(group(&["a", "b"], 0.1, 2, 2), "aggregate target");
    assert_eq!(batch.considered(), 1);
    assert_eq!(batch.blocked[0].members, vec!["a", "b"]);
    assert_eq!(batch.blocked[0].reason, "aggregate target [cluster]");
}

#[test]
fn defaults_and_a_deeper_search() {
    let cfg = NeighbourhoodConfig::default();
    assert_eq!(cfg.max_size, DEFAULT_NEIGHBOURHOOD_SIZE);
    assert_eq!(cfg.max_proposals, DEFAULT_NEIGHBOURHOOD_PROPOSALS);
    assert_eq!(cfg.deeper(3).max_proposals, cfg.max_proposals + 3);
    let most = NeighbourhoodConfig {
        max_proposals: usize::MAX,
        ..cfg
    };
    assert_eq!(most.deeper(3).max_proposals, usize::MAX);
}

#[test]
fn an_appraised_group_carries_its_names_estimate_and_rank() {
    let uuids: Vec<String> = ["a", "b", "c"].iter().map(|t| t.to_string()).collect();
    let group = |members: Vec<usize>, effect: f64| Group {
        kind: NeighbourhoodKind::Chain,
        members,
        effect: m(effect),
    };
    let estimate = |hidden: usize| CascadeEstimate {
        hidden_neurons: hidden,
        synapses: 1,
        growth_units: m(hidden as f64),
        blocked: false,
    };
    let list = appraise(
        &uuids,
        vec![group(vec![2, 0], 4.0), group(vec![1, 2], 9.0)],
        &vec![estimate(2), estimate(3)],
        &vec![m(2.0), m(3.0)],
    );
    assert_eq!(names(&list), vec![vec!["c", "a"], vec!["b", "c"]]);
    assert_eq!(v(list[1].effect), 9.0);
    assert_eq!(list[1].estimate.hidden_neurons, 3);
    assert_eq!(v(list[1].rank), 3.0);
}
