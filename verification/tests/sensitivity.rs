use std::collections::BTreeMap;

use ockham::components::{strongly_connected_components, Edge};
use ockham::creature::{Creature, Neuron, Structure, Synapse};
use ockham::measure::Measure;
use ockham::sensitivity::{finite, SensitivityIndex, SolveStep, Solver, Wiring};

fn m(value: f64) -> Measure {
    Measure {
        bits: value.to_bits(),
    }
}

fn v(measure: Measure) -> f64 {
    f64::from_bits(measure.bits)
}

fn hidden(uuid: &str) -> Neuron {
    Neuron {
        uuid: uuid.into(),
        neuron_type: "hidden".into(),
    }
}

fn output(uuid: &str) -> Neuron {
    Neuron {
        uuid: uuid.into(),
        neuron_type: "output".into(),
    }
}

fn synapse(from: &str, to: &str, weight: f64) -> Synapse {
    Synapse {
        from_uuid: from.into(),
        to_uuid: to.into(),
        weight: m(weight),
    }
}

fn creature(neurons: Vec<Neuron>, synapses: Vec<Synapse>) -> Creature {
    Creature { neurons, synapses }
}

/// Solves a creature, with sums formed as doubles.
fn index(creature: &Creature) -> SensitivityIndex {
    let wiring = Wiring::of(creature);
    let order = wiring.solve_order();
    let mut solver = Solver::new(&wiring, &order);
    loop {
        match solver.step(&wiring, &order) {
            SolveStep::Done => break,
            SolveStep::Moved => {}
            SolveStep::Sum(request) => {
                let sum: f64 = request
                    .terms
                    .iter()
                    .map(|t| v(t.weight) * v(t.value))
                    .sum();
                let start = request.start.map_or(0.0, v);
                solver.settle(&wiring, &order, m(start + sum));
            }
        }
    }
    solver.finish(wiring)
}

fn importance(index: &SensitivityIndex, uuid: &str) -> Option<f64> {
    index.importance(&uuid.to_string()).map(v)
}

fn by_name(index: &SensitivityIndex) -> BTreeMap<String, u64> {
    index
        .hidden_importance()
        .into_iter()
        .map(|(uuid, value)| (uuid, value.bits))
        .collect()
}

/// `input-0 → a →(2) b →(3) output-0`.
fn chain() -> Creature {
    creature(
        vec![hidden("a"), hidden("b"), output("output-0")],
        vec![
            synapse("input-0", "a", 1.0),
            synapse("a", "b", 2.0),
            synapse("b", "output-0", 3.0),
        ],
    )
}

#[test]
fn a_chain_multiplies_the_weights_between_the_neuron_and_the_output() {
    let index = index(&chain());
    assert_eq!(importance(&index, "output-0"), Some(1.0));
    assert_eq!(importance(&index, "b"), Some(3.0));
    assert_eq!(importance(&index, "a"), Some(6.0), "2 × 3");
}

#[test]
fn a_branch_sums_every_downstream_path() {
    // a → output-0 (0.5), and a → b → output-1 (2 × 1).
    let index = index(&creature(
        vec![
            hidden("a"),
            hidden("b"),
            output("output-0"),
            output("output-1"),
        ],
        vec![
            synapse("input-0", "a", 1.0),
            synapse("a", "output-0", 0.5),
            synapse("a", "b", 2.0),
            synapse("b", "output-1", 1.0),
        ],
    ));
    assert_eq!(importance(&index, "b"), Some(1.0));
    assert_eq!(importance(&index, "a"), Some(2.5), "0.5 + 2 × 1");
}

#[test]
fn a_zero_weight_downstream_path_leaves_the_neuron_invisible_to_the_outputs() {
    let index = index(&creature(
        vec![hidden("muted"), hidden("tail"), output("output-0")],
        vec![
            synapse("input-0", "muted", 1.0),
            synapse("muted", "tail", 0.0),
            synapse("tail", "output-0", 4.0),
        ],
    ));
    assert_eq!(importance(&index, "tail"), Some(4.0));
    assert_eq!(
        importance(&index, "muted"),
        Some(0.0),
        "a zero weight passes nothing downstream, however loud the neuron is"
    );
}

#[test]
fn a_neuron_that_reaches_no_output_has_no_importance() {
    let mut fixture = chain();
    fixture.neurons.push(hidden("dead_end"));
    fixture.synapses.push(synapse("input-0", "dead_end", 5.0));
    assert_eq!(importance(&index(&fixture), "dead_end"), Some(0.0));
}

#[test]
fn a_cycle_keeps_the_exit_it_sends_out_and_credits_one_hop_into_it() {
    let index = index(&creature(
        vec![hidden("r1"), hidden("r2"), output("output-0")],
        vec![
            synapse("input-0", "r1", 1.0),
            synapse("r1", "r2", 2.0),
            synapse("r2", "r1", 0.5),
            synapse("r2", "output-0", 7.0),
        ],
    ));
    assert_eq!(importance(&index, "r2"), Some(10.5), "7 + 0.5 × 7");
    assert_eq!(
        importance(&index, "r1"),
        Some(14.0),
        "2 × 7: a member that amplifies into the exit is not rounded down to it"
    );
}

#[test]
fn a_loop_that_reaches_no_output_is_still_dead_wood() {
    let index = index(&creature(
        vec![
            hidden("r1"),
            hidden("r2"),
            hidden("live"),
            output("output-0"),
        ],
        vec![
            synapse("input-0", "r1", 1.0),
            synapse("r1", "r2", 2.0),
            synapse("r2", "r1", 0.5),
            synapse("input-0", "live", 1.0),
            synapse("live", "output-0", 1.0),
        ],
    ));
    assert_eq!(importance(&index, "r1"), Some(0.0));
    assert_eq!(importance(&index, "r2"), Some(0.0));
    assert_eq!(importance(&index, "live"), Some(1.0));
}

#[test]
fn a_self_loop_is_relaxed_as_a_cycle_rather_than_summed_into_itself() {
    let index = index(&creature(
        vec![hidden("s"), output("output-0")],
        vec![
            synapse("input-0", "s", 1.0),
            synapse("s", "s", 3.0),
            synapse("s", "output-0", 2.0),
        ],
    ));
    // Exit 2, plus one relaxed hop of the self edge: 2 + 3 × 2.
    assert_eq!(importance(&index, "s"), Some(8.0));
}

/// A chain of neurons to the output, every connection weighing a million.
fn overflowing() -> (Vec<Neuron>, Vec<Synapse>) {
    const DEPTH: usize = 400;
    let mut neurons = vec![output("output-0")];
    let mut synapses = vec![synapse("input-0", "n0", 1.0)];
    for step in 0..DEPTH {
        neurons.push(hidden(&format!("n{step}")));
        let target = if step + 1 == DEPTH {
            "output-0".to_string()
        } else {
            format!("n{}", step + 1)
        };
        synapses.push(synapse(&format!("n{step}"), &target, 1e6));
    }
    (neurons, synapses)
}

#[test]
fn a_muted_edge_behind_an_overflowed_path_is_still_dead_wood() {
    let (mut neurons, mut synapses) = overflowing();
    neurons.push(hidden("muted"));
    synapses.push(synapse("input-0", "muted", 1.0));
    synapses.push(synapse("muted", "n0", 0.0));
    let index = index(&creature(neurons, synapses));
    assert_eq!(importance(&index, "n0"), Some(f64::INFINITY));
    assert_eq!(importance(&index, "muted"), Some(0.0));
}

#[test]
fn the_index_is_deterministic_and_independent_of_listing_order() {
    let fixture = chain();
    let first = by_name(&index(&fixture));
    for _ in 0..8 {
        assert_eq!(by_name(&index(&fixture)), first);
    }
    let mut reversed = chain();
    reversed.neurons.reverse();
    reversed.synapses.reverse();
    assert_eq!(by_name(&index(&reversed)), first);
}

#[test]
fn every_hidden_neuron_is_covered_and_unknown_endpoints_are_not() {
    let index = index(&chain());
    let hidden = by_name(&index);
    assert_eq!(hidden.len(), 2, "{hidden:?}");
    assert!(hidden.contains_key("a") && hidden.contains_key("b"));
    assert_eq!(importance(&index, "nonesuch"), None);
    assert_eq!(
        importance(&index, "input-0"),
        Some(6.0),
        "inputs are walked"
    );
}

#[test]
fn a_creature_without_hidden_neurons_has_nothing_to_rank() {
    let bare = creature(
        vec![output("output-0")],
        vec![synapse("input-0", "output-0", 1.0)],
    );
    assert!(index(&bare).hidden_importance().is_empty());
}

#[test]
fn a_chain_thousands_of_neurons_deep_does_not_overflow_the_stack() {
    const DEPTH: usize = 20_000;
    let mut neurons = Vec::with_capacity(DEPTH + 1);
    let mut synapses = Vec::with_capacity(DEPTH + 1);
    for step in 0..DEPTH {
        neurons.push(hidden(&format!("n{step}")));
        let source = if step == 0 {
            "input-0".to_string()
        } else {
            format!("n{}", step - 1)
        };
        synapses.push(synapse(&source, &format!("n{step}"), 1.0));
    }
    neurons.push(output("output-0"));
    synapses.push(synapse(&format!("n{}", DEPTH - 1), "output-0", 1.0));
    let index = index(&creature(neurons, synapses));
    assert_eq!(
        importance(&index, "n0"),
        Some(1.0),
        "unit weights all the way"
    );
}

#[test]
fn an_overflowing_weight_product_ranks_last_rather_than_first() {
    let (neurons, synapses) = overflowing();
    let index = index(&creature(neurons, synapses));
    assert_eq!(
        importance(&index, "n0"),
        Some(f64::INFINITY),
        "an unrepresentable product must never read as dead wood"
    );
}

#[test]
fn an_importance_always_compares() {
    assert_eq!(v(finite(m(2.5))), 2.5);
    assert_eq!(v(finite(m(f64::NAN))), f64::INFINITY);
    assert_eq!(v(finite(m(f64::NEG_INFINITY))), f64::INFINITY);
}

#[test]
fn components_come_after_what_they_lead_to() {
    // 0 ⇄ 1 → 2 ⇄ 3, and 4 alone.
    let to = |list: &[usize]| -> Vec<Edge> {
        list.iter()
            .map(|t| Edge {
                to: *t,
                weight: m(1.0),
            })
            .collect()
    };
    let out = vec![to(&[1]), to(&[0, 2]), to(&[3]), to(&[2]), to(&[])];
    let mut components = strongly_connected_components(&out);
    let at = |components: &Vec<Vec<usize>>, slot: usize| {
        components.iter().position(|c| c.contains(&slot)).unwrap()
    };
    assert_eq!(components.len(), 3);
    assert_eq!(at(&components, 0), at(&components, 1));
    assert_eq!(at(&components, 2), at(&components, 3));
    assert!(at(&components, 2) < at(&components, 0));
    for c in &mut components {
        c.sort_unstable();
    }
    components.sort();
    assert_eq!(components, vec![vec![0, 1], vec![2, 3], vec![4]]);
}

#[test]
fn an_output_passes_nothing_on() {
    let wiring = Wiring::of(&creature(
        vec![hidden("a"), output("output-0")],
        vec![
            synapse("a", "output-0", -2.0),
            synapse("output-0", "a", 3.0),
        ],
    ));
    let a = wiring.uuids.iter().position(|u| u == "a").unwrap();
    let o = wiring.uuids.iter().position(|u| u == "output-0").unwrap();
    assert!(wiring.out[o].is_empty());
    assert_eq!(wiring.out[a].len(), 1);
    assert_eq!(v(wiring.out[a][0].weight), 2.0, "weights count by size");
}

#[test]
fn a_creature_is_measured_by_its_hidden_neurons_and_synapses() {
    assert_eq!(
        Structure::of(&chain()),
        Structure {
            hidden: 2,
            synapses: 3
        }
    );
}

#[test]
fn indexing_never_writes_to_the_creature() {
    let fixture = chain();
    let shown = format!("{fixture:?}");
    index(&fixture);
    assert_eq!(format!("{fixture:?}"), shown);
}

#[test]
fn a_finished_solve_adds_up_over_its_own_importances() {
    let creature = creature(
        vec![hidden("a"), hidden("b"), hidden("c"), output("o"), output("p")],
        vec![
            synapse("a", "b", 2.0),
            synapse("a", "c", -1.0),
            synapse("b", "o", 3.0),
            synapse("c", "p", 0.5),
            synapse("c", "o", 0.25),
            synapse("o", "a", 7.0),
        ],
    );
    let index = index(&creature);
    let of = |uuid: &str| importance(&index, uuid).unwrap();
    assert_eq!((of("o"), of("p")), (1.0, 1.0));
    assert_eq!(of("b"), 3.0 * of("o"));
    assert_eq!(of("c"), 0.5 * of("p") + 0.25 * of("o"));
    assert_eq!(of("a"), 2.0 * of("b") + 1.0 * of("c"));
    assert_eq!(of("a"), 6.75);
}
