//! How much each neuron can sway the outputs: the wiring behind the estimate.
use vstd::prelude::*;

use crate::components::{
    connects, is_decomposition, member_of, reaches, reaches_in, strongly_connected_components,
    well_wired, Edge,
};
use crate::creature::{distinct_texts, find_text, mentions, Creature, Neuron, Slots, Synapse};
use crate::list::{law_true_places_ascend, true_places};
use crate::measure::{Measure, INFINITE_MAGNITUDE, ONE_BITS};
use crate::text::same_text;

verus! {

/// What a slot stands for.
#[derive(Clone, Copy, Debug, PartialEq, Eq, Structural)]
pub enum Kind {
    /// A hidden neuron.
    Hidden,
    /// An output neuron.
    Output,
    /// An input, a constant or a uuid that only synapses name.
    Other,
}

/// The kind that a neuron's type names.
pub open spec fn kind_of(neuron_type: Seq<char>) -> Kind {
    if neuron_type == "hidden"@ {
        Kind::Hidden
    } else if neuron_type == "output"@ {
        Kind::Output
    } else {
        Kind::Other
    }
}

/// The kind of a uuid: that of the last neuron that carries it.
pub open spec fn kind_in(neurons: Seq<Neuron>, uuid: Seq<char>) -> Kind
    decreases neurons.len(),
{
    if neurons.len() == 0 {
        Kind::Other
    } else if neurons.last().uuid@ == uuid {
        kind_of(neurons.last().neuron_type@)
    } else {
        kind_in(neurons.drop_last(), uuid)
    }
}

/// The connections out of `uuid`: what each feeds and its weight's magnitude.
pub open spec fn pulls_of(synapses: Seq<Synapse>, uuid: Seq<char>) -> Seq<(Seq<char>, Measure)>
    decreases synapses.len(),
{
    if synapses.len() == 0 {
        Seq::empty()
    } else if synapses.last().from_uuid@ == uuid {
        pulls_of(synapses.drop_last(), uuid).push(
            (synapses.last().to_uuid@, synapses.last().weight.unsigned()),
        )
    } else {
        pulls_of(synapses.drop_last(), uuid)
    }
}

/// What each connection of a slot feeds, by uuid.
pub open spec fn pulls(uuids: Seq<String>, edges: Seq<Edge>) -> Seq<(Seq<char>, Measure)> {
    Seq::new(edges.len(), |i: int| (uuids[edges[i].to as int]@, edges[i].weight))
}

/// The slots of a creature and the connections among them.
pub struct Wiring {
    /// The uuid of each slot.
    pub uuids: Vec<String>,
    /// The kind of each slot.
    pub kinds: Vec<Kind>,
    /// The connections out of each slot.
    pub out: Vec<Vec<Edge>>,
}

impl Wiring {
    /// The wiring is the creature's: an output feeds nothing, and any other
    /// slot feeds what its synapses feed.
    pub open spec fn wires(self, creature: Creature) -> bool {
        let n = self.uuids@.len();
        &&& distinct_texts(self.uuids@)
        &&& self.kinds@.len() == n
        &&& self.out@.len() == n
        &&& well_wired(self.out@)
        &&& forall|u: Seq<char>|
            #[trigger] mentions(creature, u) <==> exists|s: int|
                0 <= s < n && #[trigger] self.uuids@[s]@ == u
        &&& forall|s: int|
            0 <= s < n ==> #[trigger] self.kinds@[s] == kind_in(
                creature.neurons@,
                self.uuids@[s]@,
            )
        &&& forall|s: int|
            0 <= s < n ==> pulls(self.uuids@, (#[trigger] self.out@[s])@) == if self.kinds@[s]
                == Kind::Output {
                Seq::empty()
            } else {
                pulls_of(creature.synapses@, self.uuids@[s]@)
            }
    }

    /// The wiring of a creature.
    pub fn of(creature: &Creature) -> (wiring: Wiring)
        ensures
            wiring.wires(*creature),
    {
        let slots = Slots::of(creature);
        let n: usize = slots.uuids.len();
        let kinds = kinds_of(creature, &slots);
        let mut out: Vec<Vec<Edge>> = Vec::new();
        let mut i: usize = 0;
        while i < n
            invariant
                n == slots.uuids@.len(),
                i <= n,
                out@.len() == i,
                forall|s: int| 0 <= s < i ==> (#[trigger] out@[s])@.len() == 0,
            decreases n - i,
        {
            out.push(Vec::new());
            i += 1;
        }
        proof {
            assert forall|s: int| 0 <= s < n implies pulls(slots.uuids@, (#[trigger] out@[s])@)
                == drawn(creature.synapses@.take(0), kinds@[s], slots.uuids@[s]@) by {
                assert(pulls(slots.uuids@, out@[s]@) =~= Seq::empty());
            }
        }
        let mut k: usize = 0;
        while k < creature.synapses.len()
            invariant
                n == slots.uuids@.len(),
                slots.stand_for(*creature),
                kinds@.len() == n,
                k <= creature.synapses@.len(),
                out@.len() == n,
                well_wired(out@),
                forall|s: int|
                    0 <= s < n ==> pulls(slots.uuids@, (#[trigger] out@[s])@) == drawn(
                        creature.synapses@.take(k as int),
                        kinds@[s],
                        slots.uuids@[s]@,
                    ),
            decreases creature.synapses.len() - k,
        {
            let from: usize = slots.from[k];
            let to: usize = slots.to[k];
            assert(slots.from@[k as int] < n && slots.to@[k as int] < n);
            let ghost before = out@;
            let ghost head = creature.synapses@.take(k as int);
            let ghost all = creature.synapses@.take(k + 1);
            proof {
                assert(all.drop_last() =~= head);
                assert(all.last() == creature.synapses@[k as int]);
            }
            if kinds[from] != Kind::Output {
                let edge = Edge { to, weight: creature.synapses[k].weight.abs() };
                out[from].push(edge);
                proof {
                    assert(out@[from as int]@ == before[from as int]@.push(edge));
                    assert(pulls(slots.uuids@, out@[from as int]@) =~= pulls(
                        slots.uuids@,
                        before[from as int]@,
                    ).push((slots.uuids@[to as int]@, edge.weight)));
                }
            }
            proof {
                assert forall|s: int| 0 <= s < n implies pulls(
                    slots.uuids@,
                    (#[trigger] out@[s])@,
                ) == drawn(all, kinds@[s], slots.uuids@[s]@) by {
                    assert(pulls(slots.uuids@, before[s]@) == drawn(
                        head,
                        kinds@[s],
                        slots.uuids@[s]@,
                    ));
                    if s != from {
                        assert(out@[s] == before[s]);
                        assert(slots.uuids@[s]@ != slots.uuids@[from as int]@);
                    }
                }
                assert forall|u: int, j: int|
                    0 <= u < out@.len() && 0 <= j < out@[u]@.len() implies (
                #[trigger] out@[u]@[j]).to < out@.len() by {
                    if u != from {
                        assert(out@[u] == before[u]);
                    }
                    if j < before[u]@.len() {
                        assert(before[u]@[j].to < before.len());
                    }
                }
            }
            k += 1;
        }
        proof {
            assert(creature.synapses@.take(k as int) =~= creature.synapses@);
            assert forall|u: Seq<char>| #[trigger] mentions(*creature, u) implies exists|s: int|
                0 <= s < n && #[trigger] slots.uuids@[s]@ == u by {
                if exists|i: int|
                    0 <= i < creature.neurons@.len() && (#[trigger] creature.neurons@[i]).uuid@
                        == u {
                    let i = choose|i: int|
                        0 <= i < creature.neurons@.len() && (
                        #[trigger] creature.neurons@[i]).uuid@ == u;
                    assert(slots.uuids@[slots.neurons@[i] as int]@ == u);
                } else {
                    let i = choose|i: int|
                        0 <= i < creature.synapses@.len() && ((
                        #[trigger] creature.synapses@[i]).from_uuid@ == u
                            || creature.synapses@[i].to_uuid@ == u);
                    assert(slots.uuids@[slots.from@[i] as int]@
                        == creature.synapses@[i].from_uuid@);
                    assert(slots.uuids@[slots.to@[i] as int]@ == creature.synapses@[i].to_uuid@);
                }
            }
        }
        Wiring { uuids: slots.uuids, kinds, out }
    }

    /// In which order the slots are settled, and which of them form loops.
    pub fn solve_order(&self) -> (r: SolveOrder)
        requires
            well_wired(self.out@),
        ensures
            r.settles(self.out@),
    {
        let components = strongly_connected_components(&self.out);
        let n: usize = self.out.len();
        let mut component_of: Vec<usize> = vec![usize::MAX; n];
        let mut cyclic: Vec<bool> = Vec::new();
        let mut c: usize = 0;
        while c < components.len()
            invariant
                n == self.out@.len(),
                c <= components@.len(),
                is_decomposition(self.out@, components@),
                component_of@.len() == n,
                cyclic@.len() == c,
                forall|d: int, k: int|
                    0 <= d < c && 0 <= k < components@[d]@.len() ==> component_of@[(
                    #[trigger] components@[d]@[k]) as int] == d,
                forall|d: int|
                    0 <= d < c ==> (#[trigger] cyclic@[d]) == loops(
                        self.out@,
                        components@[d]@,
                    ),
            decreases components.len() - c,
        {
            let mut k: usize = 0;
            while k < components[c].len()
                invariant
                    n == self.out@.len(),
                    c < components@.len(),
                    k <= components@[c as int]@.len(),
                    is_decomposition(self.out@, components@),
                    component_of@.len() == n,
                    forall|d: int, j: int|
                        0 <= d < c && 0 <= j < components@[d]@.len() ==> component_of@[(
                        #[trigger] components@[d]@[j]) as int] == d,
                    forall|j: int|
                        0 <= j < k ==> component_of@[(
                        #[trigger] components@[c as int]@[j]) as int] == c,
                decreases components@[c as int]@.len() - k,
            {
                let slot: usize = components[c][k];
                assert(components@[c as int]@[k as int] < n);
                component_of[slot] = c;
                k += 1;
            }
            let looped = is_looped(&self.out, &components[c]);
            cyclic.push(looped);
            c += 1;
        }
        proof {
            assert forall|s: int| 0 <= s < n implies member_of(
                components@,
                (#[trigger] component_of@[s]) as int,
                s,
            ) by {
                assert(crate::components::placed(components@, s));
                let d = choose|d: int| 0 <= d < components@.len() && #[trigger] member_of(
                    components@,
                    d,
                    s,
                );
                let k = choose|k: int|
                    0 <= k < components@[d]@.len() && #[trigger] components@[d]@[k] == s;
                assert(component_of@[components@[d]@[k] as int] == d);
            }
        }
        SolveOrder { components, component_of, cyclic }
    }
}

/// What the synapses so far draw from a slot of some kind.
spec fn drawn(synapses: Seq<Synapse>, kind: Kind, uuid: Seq<char>) -> Seq<(Seq<char>, Measure)> {
    if kind == Kind::Output {
        Seq::empty()
    } else {
        pulls_of(synapses, uuid)
    }
}

/// A component with a loop: more than one slot, or one that feeds itself.
pub open spec fn loops(out: Seq<Vec<Edge>>, component: Seq<usize>) -> bool {
    component.len() > 1 || exists|k: int|
        0 <= k < out[component[0] as int]@.len() && (
        #[trigger] out[component[0] as int]@[k]).to == component[0]
}

fn is_looped(out: &Vec<Vec<Edge>>, component: &Vec<usize>) -> (r: bool)
    requires
        component@.len() > 0,
        component@[0] < out@.len(),
    ensures
        r == loops(out@, component@),
{
    if component.len() > 1 {
        return true;
    }
    let slot: usize = component[0];
    let mut k: usize = 0;
    while k < out[slot].len()
        invariant
            component@.len() == 1,
            component@[0] == slot,
            slot < out@.len(),
            k <= out@[slot as int]@.len(),
            forall|j: int| 0 <= j < k ==> (#[trigger] out@[slot as int]@[j]).to != slot,
        decreases out@[slot as int]@.len() - k,
    {
        if out[slot][k].to == slot {
            return true;
        }
        k += 1;
    }
    false
}

fn kinds_of(creature: &Creature, slots: &Slots) -> (kinds: Vec<Kind>)
    requires
        slots.stand_for(*creature),
    ensures
        kinds@.len() == slots.uuids@.len(),
        forall|s: int|
            0 <= s < kinds@.len() ==> #[trigger] kinds@[s] == kind_in(
                creature.neurons@,
                slots.uuids@[s]@,
            ),
{
    let n: usize = slots.uuids.len();
    let mut kinds: Vec<Kind> = vec![Kind::Other; n];
    let mut i: usize = 0;
    while i < creature.neurons.len()
        invariant
            n == slots.uuids@.len(),
            slots.stand_for(*creature),
            i <= creature.neurons@.len(),
            kinds@.len() == n,
            forall|s: int|
                0 <= s < n ==> #[trigger] kinds@[s] == kind_in(
                    creature.neurons@.take(i as int),
                    slots.uuids@[s]@,
                ),
        decreases creature.neurons.len() - i,
    {
        let slot: usize = slots.neurons[i];
        assert(slots.neurons@[i as int] < n);
        let ghost before = kinds@;
        let kind = parse_kind(creature.neurons[i].neuron_type.as_str());
        kinds[slot] = kind;
        proof {
            let head = creature.neurons@.take(i as int);
            let all = creature.neurons@.take(i + 1);
            assert(all.drop_last() =~= head);
            assert forall|s: int| 0 <= s < n implies #[trigger] kinds@[s] == kind_in(
                all,
                slots.uuids@[s]@,
            ) by {
                assert(before[s] == kind_in(head, slots.uuids@[s]@));
                if s != slot {
                    assert(slots.uuids@[s]@ != slots.uuids@[slot as int]@);
                }
            }
        }
        i += 1;
    }
    assert(creature.neurons@.take(i as int) =~= creature.neurons@);
    kinds
}

fn parse_kind(neuron_type: &str) -> (kind: Kind)
    ensures
        kind == kind_of(neuron_type@),
{
    if same_text(neuron_type, "hidden") {
        Kind::Hidden
    } else if same_text(neuron_type, "output") {
        Kind::Output
    } else {
        Kind::Other
    }
}

/// In which order slots are settled.
pub struct SolveOrder {
    /// Groups of slots that sway each other, each after whatever it feeds.
    pub components: Vec<Vec<usize>>,
    /// The group of each slot.
    pub component_of: Vec<usize>,
    /// Whether each group holds a loop.
    pub cyclic: Vec<bool>,
}

impl SolveOrder {
    /// The groups are the strongly connected components of the connections,
    /// each after whatever it leads to.
    pub open spec fn settles(self, out: Seq<Vec<Edge>>) -> bool {
        &&& is_decomposition(out, self.components@)
        &&& self.component_of@.len() == out.len()
        &&& forall|s: int|
            0 <= s < out.len() ==> member_of(
                self.components@,
                (#[trigger] self.component_of@[s]) as int,
                s,
            )
        &&& self.cyclic@.len() == self.components@.len()
        &&& forall|c: int|
            0 <= c < self.components@.len() ==> (#[trigger] self.cyclic@[c]) == loops(
                out,
                self.components@[c]@,
            )
    }
}

/// An importance that ranks: anything that is not finite counts as infinite.
pub open spec fn rankable_sum(value: Measure) -> Measure {
    if value.finite() {
        value
    } else {
        Measure { bits: INFINITE_MAGNITUDE }
    }
}

/// The importance that a sum makes.
pub fn finite(value: Measure) -> (r: Measure)
    ensures
        r == rankable_sum(value),
        !r.nan(),
{
    if value.is_finite() {
        value
    } else {
        Measure::infinity()
    }
}

/// How much each slot of a creature sways the outputs.
pub struct SensitivityIndex {
    /// The uuid of each slot.
    pub uuids: Vec<String>,
    /// The kind of each slot.
    pub kinds: Vec<Kind>,
    /// The importance of each slot.
    pub importance: Vec<Measure>,
}

impl SensitivityIndex {
    /// One kind and one importance for each uuid, and no uuid twice.
    pub open spec fn well_formed(self) -> bool {
        &&& distinct_texts(self.uuids@)
        &&& self.kinds@.len() == self.uuids@.len()
        &&& self.importance@.len() == self.uuids@.len()
    }

    /// The importance of a uuid, if the creature names it.
    pub fn importance(&self, uuid: &String) -> (r: Option<Measure>)
        requires
            self.well_formed(),
        ensures
            match r {
                Some(value) => exists|s: int|
                    0 <= s < self.uuids@.len() && (#[trigger] self.uuids@[s])@ == uuid@
                        && self.importance@[s] == value,
                None => forall|s: int|
                    0 <= s < self.uuids@.len() ==> (#[trigger] self.uuids@[s])@ != uuid@,
            },
    {
        match find_text(&self.uuids, uuid) {
            Some(slot) => Some(self.importance[slot]),
            None => None,
        }
    }

    /// The hidden slots with their importance, in slot order.
    pub fn hidden_importance(&self) -> (r: Vec<(String, Measure)>)
        requires
            self.well_formed(),
        ensures
            Seq::new(r@.len(), |i: int| (r@[i].0@, r@[i].1)) == hidden_pairs(
                self.uuids@,
                self.kinds@,
                self.importance@,
            ),
    {
        let mut out: Vec<(String, Measure)> = Vec::new();
        let mut s: usize = 0;
        while s < self.uuids.len()
            invariant
                self.well_formed(),
                s <= self.uuids@.len(),
                Seq::new(out@.len(), |i: int| (out@[i].0@, out@[i].1)) == hidden_pairs(
                    self.uuids@.take(s as int),
                    self.kinds@.take(s as int),
                    self.importance@.take(s as int),
                ),
            decreases self.uuids.len() - s,
        {
            let ghost before = out@;
            proof {
                assert(self.uuids@.take(s + 1).drop_last() =~= self.uuids@.take(s as int));
                assert(self.kinds@.take(s + 1).drop_last() =~= self.kinds@.take(s as int));
                assert(self.importance@.take(s + 1).drop_last() =~= self.importance@.take(
                    s as int,
                ));
            }
            if self.kinds[s] == Kind::Hidden {
                out.push((self.uuids[s].clone(), self.importance[s]));
                assert(Seq::new(out@.len(), |i: int| (out@[i].0@, out@[i].1)) =~= Seq::new(
                    before.len(),
                    |i: int| (before[i].0@, before[i].1),
                ).push((self.uuids@[s as int]@, self.importance@[s as int])));
            }
            s += 1;
        }
        proof {
            assert(self.uuids@.take(s as int) =~= self.uuids@);
            assert(self.kinds@.take(s as int) =~= self.kinds@);
            assert(self.importance@.take(s as int) =~= self.importance@);
        }
        out
    }
}

/// The uuid and importance of every hidden slot, in slot order.
pub open spec fn hidden_pairs(
    uuids: Seq<String>,
    kinds: Seq<Kind>,
    importance: Seq<Measure>,
) -> Seq<(Seq<char>, Measure)>
    decreases uuids.len(),
{
    if uuids.len() == 0 {
        Seq::empty()
    } else {
        let head = hidden_pairs(uuids.drop_last(), kinds.drop_last(), importance.drop_last());
        if kinds.last() == Kind::Hidden {
            head.push((uuids.last()@, importance.last()))
        } else {
            head
        }
    }
}

/// One product of a sum.
#[derive(Clone, Copy, Debug, PartialEq, Eq, Structural)]
pub struct Term {
    /// The weight of a connection.
    pub weight: Measure,
    /// The value that it passes on.
    pub value: Measure,
}

/// What a connection passes on of a value: nothing if it weighs nothing,
/// however large the value is.
pub open spec fn passes(weight: Measure, value: Measure) -> Term {
    Term {
        weight,
        value: if !weight.nan() && weight.position() == 0 {
            Measure { bits: 0 }
        } else {
            value
        },
    }
}

/// What the connections out of a group pass on.
pub open spec fn exit_terms(
    edges: Seq<Edge>,
    component_of: Seq<usize>,
    group: usize,
    importance: Seq<Measure>,
) -> Seq<Term>
    decreases edges.len(),
{
    if edges.len() == 0 {
        Seq::empty()
    } else {
        let before = exit_terms(edges.drop_last(), component_of, group, importance);
        let edge = edges.last();
        if component_of[edge.to as int] != group {
            before.push(passes(edge.weight, importance[edge.to as int]))
        } else {
            before
        }
    }
}

/// What the connections within a group pass on, each member taken for as
/// important as the largest exit.
pub open spec fn inner_terms(
    edges: Seq<Edge>,
    component_of: Seq<usize>,
    group: usize,
    largest_exit: Measure,
) -> Seq<Term>
    decreases edges.len(),
{
    if edges.len() == 0 {
        Seq::empty()
    } else {
        let before = inner_terms(edges.drop_last(), component_of, group, largest_exit);
        let edge = edges.last();
        if component_of[edge.to as int] == group {
            before.push(passes(edge.weight, largest_exit))
        } else {
            before
        }
    }
}

/// A sum that is wanted for a slot: its start, where there is one, and the
/// products that are added to it.
#[derive(Debug)]
pub struct SumRequest {
    /// The slot.
    pub slot: usize,
    /// What the sum starts from.
    pub start: Option<Measure>,
    /// What is added.
    pub terms: Vec<Term>,
}

/// What a solver does next.
#[derive(Debug)]
pub enum SolveStep {
    /// Every slot is settled.
    Done,
    /// It moved on without a sum.
    Moved,
    /// It wants a sum.
    Sum(SumRequest),
}

/// Settles the importance of every slot, group by group. A group's exits come
/// first; a group with a loop is then relaxed once against the largest of
/// them.
#[derive(Debug)]
pub struct Solver {
    /// The importance of each slot, as far as it is settled.
    pub importance: Vec<Measure>,
    /// The group that is being settled.
    pub component: usize,
    /// How many of its members are settled.
    pub at: usize,
    /// Whether the group is being relaxed.
    pub relaxing: bool,
    /// The largest exit of the group so far.
    pub largest_exit: Measure,
}

impl Solver {
    /// The solver works on this wiring, in this order.
    pub open spec fn fits(self, wiring: Wiring, order: SolveOrder) -> bool {
        &&& well_wired(wiring.out@)
        &&& order.settles(wiring.out@)
        &&& wiring.kinds@.len() == wiring.out@.len()
        &&& self.importance@.len() == wiring.out@.len()
        &&& self.component <= order.components@.len()
        &&& self.component < order.components@.len() ==> self.at
            <= order.components@[self.component as int]@.len()
    }

    /// A member of the current group is next.
    pub open spec fn has_member(self, order: SolveOrder) -> bool {
        self.component < order.components@.len() && self.at
            < order.components@[self.component as int]@.len()
    }

    /// That member.
    pub open spec fn member(self, order: SolveOrder) -> int {
        order.components@[self.component as int]@[self.at as int] as int
    }

    /// The next member cannot be settled without a sum: any member of a group
    /// that is relaxed, and otherwise any but an output.
    pub open spec fn wants_sum(self, wiring: Wiring, order: SolveOrder) -> bool {
        self.has_member(order) && (self.relaxing || wiring.kinds@[self.member(order)]
            != Kind::Output)
    }

    /// The sum that is wanted.
    pub open spec fn wants(self, wiring: Wiring, order: SolveOrder, request: SumRequest) -> bool {
        let slot = self.member(order);
        &&& request.slot == slot
        &&& request.start == if self.relaxing {
            Some(self.importance@[slot])
        } else {
            None
        }
        &&& request.terms@ == if self.relaxing {
            inner_terms(
                wiring.out@[slot]@,
                order.component_of@,
                self.component,
                self.largest_exit,
            )
        } else {
            exit_terms(
                wiring.out@[slot]@,
                order.component_of@,
                self.component,
                self.importance@,
            )
        }
    }

    /// `after` is this with the next member settled by a value.
    pub open spec fn settled(self, order: SolveOrder, value: Measure, after: Solver) -> bool {
        let slot = self.member(order);
        let found = rankable_sum(value);
        &&& after.component == self.component
        &&& after.at == self.at + 1
        &&& after.relaxing == self.relaxing
        &&& after.largest_exit == if !self.relaxing && self.largest_exit.below(found) {
            found
        } else {
            self.largest_exit
        }
        &&& after.importance@ == self.importance@.update(
            slot,
            if self.relaxing && found.below(self.largest_exit) {
                self.largest_exit
            } else {
                found
            },
        )
    }

    /// `after` is this moved on without a sum: an output counts as one, a group
    /// with a loop is relaxed once its exits are settled, and the next group
    /// starts afresh.
    pub open spec fn moved(self, order: SolveOrder, after: Solver) -> bool {
        if self.has_member(order) {
            self.settled(order, Measure { bits: ONE_BITS }, after)
        } else {
            &&& after.importance@ == self.importance@
            &&& after.at == 0
            &&& if !self.relaxing && order.cyclic@[self.component as int] {
                &&& after.component == self.component
                &&& after.relaxing
                &&& after.largest_exit == self.largest_exit
            } else {
                &&& after.component == self.component + 1
                &&& !after.relaxing
                &&& after.largest_exit == (Measure { bits: 0 })
            }
        }
    }

    /// A solver that has settled nothing.
    pub fn new(wiring: &Wiring, order: &SolveOrder) -> (r: Solver)
        requires
            well_wired(wiring.out@),
            order.settles(wiring.out@),
            wiring.kinds@.len() == wiring.out@.len(),
        ensures
            r.fits(*wiring, *order),
            r.component == 0,
            r.at == 0,
            !r.relaxing,
            r.largest_exit == (Measure { bits: 0 }),
            forall|s: int|
                0 <= s < r.importance@.len() ==> (#[trigger] r.importance@[s]) == (Measure {
                    bits: 0,
                }),
    {
        let n: usize = wiring.out.len();
        let mut importance: Vec<Measure> = Vec::new();
        let mut i: usize = 0;
        while i < n
            invariant
                i <= n,
                importance@.len() == i,
                forall|s: int| 0 <= s < i ==> (#[trigger] importance@[s]) == (Measure { bits: 0 }),
            decreases n - i,
        {
            importance.push(Measure::zero());
            i += 1;
        }
        Solver {
            importance,
            component: 0,
            at: 0,
            relaxing: false,
            largest_exit: Measure::zero(),
        }
    }

    /// What comes next.
    pub fn step(&mut self, wiring: &Wiring, order: &SolveOrder) -> (r: SolveStep)
        requires
            old(self).fits(*wiring, *order),
        ensures
            final(self).fits(*wiring, *order),
            match r {
                SolveStep::Done => *final(self) == *old(self) && old(self).component
                    == order.components@.len(),
                SolveStep::Sum(request) => {
                    &&& *final(self) == *old(self)
                    &&& old(self).wants_sum(*wiring, *order)
                    &&& old(self).wants(*wiring, *order, request)
                },
                SolveStep::Moved => {
                    &&& old(self).component < order.components@.len()
                    &&& !old(self).wants_sum(*wiring, *order)
                    &&& old(self).moved(*order, *final(self))
                },
            },
    {
        if self.component >= order.components.len() {
            return SolveStep::Done;
        }
        let size: usize = order.components[self.component].len();
        if self.at < size {
            let slot: usize = order.components[self.component][self.at];
            assert(order.components@[self.component as int]@[self.at as int] < wiring.out@.len());
            if self.relaxing {
                let terms = inner_of(
                    &wiring.out[slot],
                    &order.component_of,
                    self.component,
                    self.largest_exit,
                    Ghost(wiring.out@),
                    Ghost(slot as int),
                );
                return SolveStep::Sum(
                    SumRequest { slot, start: Some(self.importance[slot]), terms },
                );
            }
            if wiring.kinds[slot] != Kind::Output {
                let terms = exits_of(
                    &wiring.out[slot],
                    &order.component_of,
                    self.component,
                    &self.importance,
                    Ghost(wiring.out@),
                    Ghost(slot as int),
                );
                return SolveStep::Sum(SumRequest { slot, start: None, terms });
            }
            self.take(slot, Measure::one(), size);
            return SolveStep::Moved;
        }
        if !self.relaxing && order.cyclic[self.component] {
            self.relaxing = true;
            self.at = 0;
        } else {
            self.component += 1;
            self.at = 0;
            self.relaxing = false;
            self.largest_exit = Measure::zero();
        }
        SolveStep::Moved
    }

    fn take(&mut self, slot: usize, value: Measure, size: usize)
        requires
            slot < old(self).importance@.len(),
            old(self).at < size,
        ensures
            final(self).component == old(self).component,
            final(self).at == old(self).at + 1,
            final(self).relaxing == old(self).relaxing,
            final(self).largest_exit == if !old(self).relaxing && old(self).largest_exit.below(
                rankable_sum(value),
            ) {
                rankable_sum(value)
            } else {
                old(self).largest_exit
            },
            final(self).importance@ == old(self).importance@.update(
                slot as int,
                if old(self).relaxing && rankable_sum(value).below(old(self).largest_exit) {
                    old(self).largest_exit
                } else {
                    rankable_sum(value)
                },
            ),
    {
        let found = finite(value);
        if self.relaxing {
            if found.lt(self.largest_exit) {
                self.importance[slot] = self.largest_exit;
            } else {
                self.importance[slot] = found;
            }
        } else {
            self.importance[slot] = found;
            if self.largest_exit.lt(found) {
                self.largest_exit = found;
            }
        }
        self.at += 1;
    }

    /// Takes the sum that was wanted.
    pub fn settle(&mut self, wiring: &Wiring, order: &SolveOrder, sum: Measure)
        requires
            old(self).fits(*wiring, *order),
            old(self).wants_sum(*wiring, *order),
        ensures
            final(self).fits(*wiring, *order),
            old(self).settled(*order, sum, *final(self)),
    {
        let size: usize = order.components[self.component].len();
        let slot: usize = order.components[self.component][self.at];
        assert(order.components@[self.component as int]@[self.at as int] < wiring.out@.len());
        self.take(slot, sum, size);
    }

    /// The index that the settled importances make.
    pub fn finish(self, wiring: Wiring) -> (r: SensitivityIndex)
        requires
            self.importance@.len() == wiring.uuids@.len(),
            wiring.kinds@.len() == wiring.uuids@.len(),
            distinct_texts(wiring.uuids@),
        ensures
            r.well_formed(),
            r.uuids == wiring.uuids,
            r.kinds == wiring.kinds,
            r.importance == self.importance,
    {
        SensitivityIndex { uuids: wiring.uuids, kinds: wiring.kinds, importance: self.importance }
    }
}

fn passed_on(weight: Measure, value: Measure) -> (r: Term)
    ensures
        r == passes(weight, value),
{
    let zero = Measure::zero();
    if weight.le(zero) && zero.le(weight) {
        Term { weight, value: zero }
    } else {
        Term { weight, value }
    }
}

fn exits_of(
    edges: &Vec<Edge>,
    component_of: &Vec<usize>,
    group: usize,
    importance: &Vec<Measure>,
    Ghost(out): Ghost<Seq<Vec<Edge>>>,
    Ghost(slot): Ghost<int>,
) -> (r: Vec<Term>)
    requires
        well_wired(out),
        0 <= slot < out.len(),
        *edges == out[slot],
        component_of@.len() == out.len(),
        importance@.len() == out.len(),
    ensures
        r@ == exit_terms(edges@, component_of@, group, importance@),
{
    let mut terms: Vec<Term> = Vec::new();
    let mut k: usize = 0;
    assert(edges@.take(0) =~= Seq::empty());
    while k < edges.len()
        invariant
            k <= edges@.len(),
            well_wired(out),
            0 <= slot < out.len(),
            *edges == out[slot],
            component_of@.len() == out.len(),
            importance@.len() == out.len(),
            terms@ == exit_terms(edges@.take(k as int), component_of@, group, importance@),
        decreases edges.len() - k,
    {
        proof {
            assert(edges@.take(k + 1).drop_last() =~= edges@.take(k as int));
            assert(edges@.take(k + 1).last() == edges@[k as int]);
            assert(out[slot]@[k as int].to < out.len());
        }
        let edge = edges[k];
        if component_of[edge.to] != group {
            terms.push(passed_on(edge.weight, importance[edge.to]));
        }
        k += 1;
    }
    assert(edges@.take(k as int) =~= edges@);
    terms
}

fn inner_of(
    edges: &Vec<Edge>,
    component_of: &Vec<usize>,
    group: usize,
    largest_exit: Measure,
    Ghost(out): Ghost<Seq<Vec<Edge>>>,
    Ghost(slot): Ghost<int>,
) -> (r: Vec<Term>)
    requires
        well_wired(out),
        0 <= slot < out.len(),
        *edges == out[slot],
        component_of@.len() == out.len(),
    ensures
        r@ == inner_terms(edges@, component_of@, group, largest_exit),
{
    let mut terms: Vec<Term> = Vec::new();
    let mut k: usize = 0;
    assert(edges@.take(0) =~= Seq::empty());
    while k < edges.len()
        invariant
            k <= edges@.len(),
            well_wired(out),
            0 <= slot < out.len(),
            *edges == out[slot],
            component_of@.len() == out.len(),
            terms@ == inner_terms(edges@.take(k as int), component_of@, group, largest_exit),
        decreases edges.len() - k,
    {
        proof {
            assert(edges@.take(k + 1).drop_last() =~= edges@.take(k as int));
            assert(edges@.take(k + 1).last() == edges@[k as int]);
            assert(out[slot]@[k as int].to < out.len());
        }
        let edge = edges[k];
        if component_of[edge.to] == group {
            terms.push(passed_on(edge.weight, largest_exit));
        }
        k += 1;
    }
    assert(edges@.take(k as int) =~= edges@);
    terms
}

/// A sum reads only what is settled: a connection out of a group leads to a
/// group that came before.
pub proof fn law_exits_lead_to_settled_groups(
    out: Seq<Vec<Edge>>,
    order: SolveOrder,
    u: int,
    k: int,
)
    requires
        well_wired(out),
        order.settles(out),
        0 <= u < out.len(),
        0 <= k < out[u]@.len(),
    ensures
        order.component_of@[out[u]@[k].to as int] <= order.component_of@[u],
{
    let v = out[u]@[k].to as int;
    assert(connects(out, u, v));
    let c = order.component_of@[u] as int;
    let d = order.component_of@[v] as int;
    assert(member_of(order.components@, c, u));
    assert(member_of(order.components@, d, v));
}

/// Settling a member leaves every other slot as it was, and what it settles
/// always compares.
pub proof fn law_settling_touches_one_slot(
    solver: Solver,
    wiring: Wiring,
    order: SolveOrder,
    value: Measure,
    after: Solver,
)
    requires
        solver.fits(wiring, order),
        solver.has_member(order),
        solver.settled(order, value, after),
        !solver.largest_exit.nan(),
    ensures
        after.importance@.len() == solver.importance@.len(),
        forall|s: int|
            0 <= s < after.importance@.len() && s != solver.member(order) ==> (
            #[trigger] after.importance@[s]) == solver.importance@[s],
        !after.importance@[solver.member(order)].nan(),
        !after.largest_exit.nan(),
{
    assert(order.components@[solver.component as int]@[solver.at as int] < wiring.out@.len());
}

/// Each step comes closer to the end: a later group, a group that is relaxed
/// after its exits, or one more member.
pub proof fn law_solving_makes_progress(solver: Solver, order: SolveOrder, after: Solver)
    requires
        solver.moved(order, after) || exists|value: Measure| #[trigger]
            solver.settled(order, value, after),
    ensures
        after.component > solver.component || (after.component == solver.component && (
        after.relaxing && !solver.relaxing || (after.relaxing == solver.relaxing && after.at
            > solver.at))),
{
}

/// The answer to each sum that is asked for: by slot, start and terms.
pub type SumModel = spec_fn(int, Option<Measure>, Seq<Term>) -> Measure;

/// What a slot passes out of its group: an output counts as one, and any other
/// slot for the sum over its connections to other groups.
pub open spec fn exit_of(
    wiring: Wiring,
    order: SolveOrder,
    sums: SumModel,
    importance: Seq<Measure>,
    s: int,
) -> Measure {
    if wiring.kinds@[s] == Kind::Output {
        Measure { bits: ONE_BITS }
    } else {
        rankable_sum(
            sums(
                s,
                None,
                exit_terms(
                    wiring.out@[s]@,
                    order.component_of@,
                    order.component_of@[s],
                    importance,
                ),
            ),
        )
    }
}

/// The largest exit among the first `n` members of a group, zero at least.
pub open spec fn largest_of(
    wiring: Wiring,
    order: SolveOrder,
    sums: SumModel,
    importance: Seq<Measure>,
    group: int,
    n: int,
) -> Measure
    decreases n,
{
    if n <= 0 {
        Measure { bits: 0 }
    } else {
        let before = largest_of(wiring, order, sums, importance, group, n - 1);
        let found = exit_of(
            wiring,
            order,
            sums,
            importance,
            order.components@[group]@[n - 1] as int,
        );
        if before.below(found) {
            found
        } else {
            before
        }
    }
}

/// The importance of a slot, given those of the groups that its own leads to:
/// its exit, and in a group with a loop the larger of the group's largest exit
/// and what the slot comes to when every member passes that on.
pub open spec fn importance_of(
    wiring: Wiring,
    order: SolveOrder,
    sums: SumModel,
    importance: Seq<Measure>,
    s: int,
) -> Measure {
    let group = order.component_of@[s];
    let own = exit_of(wiring, order, sums, importance, s);
    if order.cyclic@[group as int] {
        let largest = largest_of(
            wiring,
            order,
            sums,
            importance,
            group as int,
            order.components@[group as int]@.len() as int,
        );
        let found = rankable_sum(
            sums(
                s,
                Some(own),
                inner_terms(wiring.out@[s]@, order.component_of@, group, largest),
            ),
        );
        if found.below(largest) {
            largest
        } else {
            found
        }
    } else {
        own
    }
}

impl Solver {
    /// The solve is on track: the groups before the current one are settled for
    /// good; of the current one, the members so far have their exits, or their
    /// importance where the group is being relaxed.
    pub open spec fn on_track(self, wiring: Wiring, order: SolveOrder, sums: SumModel) -> bool {
        let group = self.component as int;
        &&& self.fits(wiring, order)
        &&& forall|s: int|
            0 <= s < wiring.out@.len() && order.component_of@[s] < self.component ==> (
            #[trigger] self.importance@[s]) == importance_of(
                wiring,
                order,
                sums,
                self.importance@,
                s,
            )
        &&& self.component < order.components@.len() ==> {
            let members = order.components@[group]@;
            &&& self.relaxing ==> order.cyclic@[group]
            &&& self.largest_exit == largest_of(
                wiring,
                order,
                sums,
                self.importance@,
                group,
                if self.relaxing {
                    members.len() as int
                } else {
                    self.at as int
                },
            )
            &&& forall|k: int|
                0 <= k < members.len() && (self.relaxing || k < self.at) ==> self.importance@[(
                #[trigger] members[k]) as int] == if self.relaxing && k < self.at {
                    importance_of(wiring, order, sums, self.importance@, members[k] as int)
                } else {
                    exit_of(wiring, order, sums, self.importance@, members[k] as int)
                }
        }
    }
}

proof fn lemma_same_exit_terms(
    edges: Seq<Edge>,
    component_of: Seq<usize>,
    group: usize,
    a: Seq<Measure>,
    b: Seq<Measure>,
)
    requires
        forall|k: int|
            0 <= k < edges.len() && component_of[(#[trigger] edges[k]).to as int] != group
                ==> a[edges[k].to as int] == b[edges[k].to as int],
    ensures
        exit_terms(edges, component_of, group, a) == exit_terms(edges, component_of, group, b),
    decreases edges.len(),
{
    if edges.len() > 0 {
        let init = edges.drop_last();
        assert forall|k: int|
            0 <= k < init.len() && component_of[(#[trigger] init[k]).to as int] != group implies a[
        init[k].to as int] == b[init[k].to as int] by {
            assert(init[k] == edges[k]);
        }
        lemma_same_exit_terms(init, component_of, group, a, b);
        assert(edges[edges.len() - 1] == edges.last());
    }
}

proof fn lemma_member_group(wiring: Wiring, order: SolveOrder, group: int, k: int)
    requires
        order.settles(wiring.out@),
        0 <= group < order.components@.len(),
        0 <= k < order.components@[group]@.len(),
    ensures
        order.components@[group]@[k] < wiring.out@.len(),
        order.component_of@[order.components@[group]@[k] as int] == group,
{
    let s = order.components@[group]@[k] as int;
    assert(s < wiring.out@.len());
    let d = order.component_of@[s] as int;
    assert(member_of(order.components@, d, s));
    let l = choose|l: int|
        0 <= l < order.components@[d]@.len() && #[trigger] order.components@[d]@[l] == s;
    assert(order.components@[d]@[l] == order.components@[group]@[k]);
}

/// The exits of a slot read earlier groups only.
proof fn lemma_same_exit(
    wiring: Wiring,
    order: SolveOrder,
    sums: SumModel,
    a: Seq<Measure>,
    b: Seq<Measure>,
    s: int,
)
    requires
        well_wired(wiring.out@),
        order.settles(wiring.out@),
        0 <= s < wiring.out@.len(),
        forall|v: int|
            0 <= v < wiring.out@.len() && order.component_of@[v] < order.component_of@[s]
                ==> #[trigger] a[v] == b[v],
    ensures
        exit_of(wiring, order, sums, a, s) == exit_of(wiring, order, sums, b, s),
{
    let edges = wiring.out@[s]@;
    let group = order.component_of@[s];
    assert forall|k: int|
        0 <= k < edges.len() && order.component_of@[(#[trigger] edges[k]).to as int]
            != group implies a[edges[k].to as int] == b[edges[k].to as int] by {
        law_exits_lead_to_settled_groups(wiring.out@, order, s, k);
        assert(wiring.out@[s]@[k].to < wiring.out@.len());
    }
    lemma_same_exit_terms(edges, order.component_of@, group, a, b);
}

proof fn lemma_same_largest(
    wiring: Wiring,
    order: SolveOrder,
    sums: SumModel,
    a: Seq<Measure>,
    b: Seq<Measure>,
    group: int,
    n: int,
)
    requires
        well_wired(wiring.out@),
        order.settles(wiring.out@),
        0 <= group < order.components@.len(),
        n <= order.components@[group]@.len(),
        forall|v: int|
            0 <= v < wiring.out@.len() && order.component_of@[v] < group ==> #[trigger] a[v]
                == b[v],
    ensures
        largest_of(wiring, order, sums, a, group, n) == largest_of(
            wiring,
            order,
            sums,
            b,
            group,
            n,
        ),
    decreases n,
{
    if n > 0 {
        lemma_same_largest(wiring, order, sums, a, b, group, n - 1);
        lemma_member_group(wiring, order, group, n - 1);
        lemma_same_exit(
            wiring,
            order,
            sums,
            a,
            b,
            order.components@[group]@[n - 1] as int,
        );
    }
}

proof fn lemma_same_importance(
    wiring: Wiring,
    order: SolveOrder,
    sums: SumModel,
    a: Seq<Measure>,
    b: Seq<Measure>,
    s: int,
)
    requires
        well_wired(wiring.out@),
        order.settles(wiring.out@),
        0 <= s < wiring.out@.len(),
        forall|v: int|
            0 <= v < wiring.out@.len() && order.component_of@[v] < order.component_of@[s]
                ==> #[trigger] a[v] == b[v],
    ensures
        importance_of(wiring, order, sums, a, s) == importance_of(wiring, order, sums, b, s),
{
    let group = order.component_of@[s] as int;
    assert(member_of(order.components@, group, s));
    lemma_same_exit(wiring, order, sums, a, b, s);
    lemma_same_largest(
        wiring,
        order,
        sums,
        a,
        b,
        group,
        order.components@[group]@.len() as int,
    );
}

/// A solver that has settled nothing is on track.
pub proof fn law_fresh_solves_are_on_track(
    start: Solver,
    wiring: Wiring,
    order: SolveOrder,
    sums: SumModel,
)
    requires
        start.fits(wiring, order),
        start.component == 0,
        start.at == 0,
        !start.relaxing,
        start.largest_exit == (Measure { bits: 0 }),
    ensures
        start.on_track(wiring, order, sums),
{
}

proof fn lemma_settled_stays_on_track(
    solver: Solver,
    wiring: Wiring,
    order: SolveOrder,
    sums: SumModel,
    value: Measure,
    after: Solver,
)
    requires
        solver.on_track(wiring, order, sums),
        solver.has_member(order),
        after.fits(wiring, order),
        solver.settled(order, value, after),
        rankable_sum(value) == if solver.relaxing {
            rankable_sum(
                sums(
                    solver.member(order),
                    Some(solver.importance@[solver.member(order)]),
                    inner_terms(
                        wiring.out@[solver.member(order)]@,
                        order.component_of@,
                        solver.component,
                        solver.largest_exit,
                    ),
                ),
            )
        } else {
            exit_of(wiring, order, sums, solver.importance@, solver.member(order))
        },
    ensures
        after.on_track(wiring, order, sums),
{
    let group = solver.component as int;
    let members = order.components@[group]@;
    let at = solver.at as int;
    let t = solver.member(order);
    let a = solver.importance@;
    let b = after.importance@;
    lemma_member_group(wiring, order, group, at);
    assert(forall|v: int|
        0 <= v < wiring.out@.len() && order.component_of@[v] < group ==> #[trigger] a[v] == b[v]);
    assert forall|s: int|
        0 <= s < wiring.out@.len() && order.component_of@[s] < after.component implies (
    #[trigger] b[s]) == importance_of(wiring, order, sums, b, s) by {
        lemma_same_importance(wiring, order, sums, a, b, s);
        assert(a[s] == b[s]);
    }
    lemma_same_largest(wiring, order, sums, a, b, group, at);
    lemma_same_largest(wiring, order, sums, a, b, group, members.len() as int);
    lemma_same_exit(wiring, order, sums, a, b, t);
    lemma_same_importance(wiring, order, sums, a, b, t);
    assert(members[at] == t);
    assert(solver.relaxing ==> a[members[at] as int] == exit_of(wiring, order, sums, a, t));
    assert forall|k: int|
        0 <= k < members.len() && (after.relaxing || k < after.at) implies b[(
    #[trigger] members[k]) as int] == if after.relaxing && k < after.at {
        importance_of(wiring, order, sums, b, members[k] as int)
    } else {
        exit_of(wiring, order, sums, b, members[k] as int)
    } by {
        lemma_member_group(wiring, order, group, k);
        lemma_same_exit(wiring, order, sums, a, b, members[k] as int);
        lemma_same_importance(wiring, order, sums, a, b, members[k] as int);
        if k != at {
            assert(order.components@[group]@[k] != order.components@[group]@[at]);
            assert(b[members[k] as int] == a[members[k] as int]);
        }
    }
}

/// Every step keeps a solve on track, whatever the answers are: a sum that was
/// wanted and is answered, or a move without one.
pub proof fn law_solving_stays_on_track(
    solver: Solver,
    wiring: Wiring,
    order: SolveOrder,
    sums: SumModel,
    request: SumRequest,
    after: Solver,
)
    requires
        solver.on_track(wiring, order, sums),
        solver.component < order.components@.len(),
        after.fits(wiring, order),
        if solver.wants_sum(wiring, order) {
            solver.wants(wiring, order, request) && solver.settled(
                order,
                sums(request.slot as int, request.start, request.terms@),
                after,
            )
        } else {
            solver.moved(order, after)
        },
    ensures
        after.on_track(wiring, order, sums),
{
    let group = solver.component as int;
    if solver.has_member(order) {
        lemma_member_group(wiring, order, group, solver.at as int);
        let value = if solver.wants_sum(wiring, order) {
            sums(request.slot as int, request.start, request.terms@)
        } else {
            Measure { bits: ONE_BITS }
        };
        assert((Measure { bits: ONE_BITS }).finite());
        lemma_settled_stays_on_track(solver, wiring, order, sums, value, after);
    } else if after.component > solver.component {
        let members = order.components@[group]@;
        assert forall|s: int|
            0 <= s < wiring.out@.len() && order.component_of@[s] < after.component implies (
        #[trigger] after.importance@[s]) == importance_of(
            wiring,
            order,
            sums,
            after.importance@,
            s,
        ) by {
            if order.component_of@[s] == group {
                assert(member_of(order.components@, group, s));
                let k = choose|k: int|
                    0 <= k < order.components@[group]@.len()
                        && #[trigger] order.components@[group]@[k] == s;
                assert(members[k] == s);
            }
            assert(solver.importance@[s] == importance_of(
                wiring,
                order,
                sums,
                solver.importance@,
                s,
            ));
        }
    }
}

proof fn lemma_largest_is_largest(
    wiring: Wiring,
    order: SolveOrder,
    sums: SumModel,
    importance: Seq<Measure>,
    group: int,
    n: int,
    k: int,
)
    requires
        k < n,
    ensures
        !largest_of(wiring, order, sums, importance, group, n).nan(),
        0 <= k ==> exit_of(
            wiring,
            order,
            sums,
            importance,
            order.components@[group]@[k] as int,
        ).at_most(largest_of(wiring, order, sums, importance, group, n)),
    decreases n,
{
    if n > 0 {
        if k < n - 1 {
            lemma_largest_is_largest(wiring, order, sums, importance, group, n - 1, k);
        } else {
            lemma_largest_is_largest(wiring, order, sums, importance, group, n - 1, -1);
        }
    }
}

proof fn lemma_outputs_stand_alone(wiring: Wiring, order: SolveOrder, creature: Creature, s: int)
    requires
        wiring.wires(creature),
        order.settles(wiring.out@),
        0 <= s < wiring.out@.len(),
        wiring.kinds@[s] == Kind::Output,
    ensures
        !order.cyclic@[order.component_of@[s] as int],
{
    let out = wiring.out@;
    let group = order.component_of@[s] as int;
    assert(member_of(order.components@, group, s));
    let members = order.components@[group]@;
    assert(pulls(wiring.uuids@, out[s]@).len() == 0);
    assert(out[s]@.len() == 0);
    let at = choose|at: int|
        0 <= at < order.components@[group]@.len() && #[trigger] order.components@[group]@[at] == s;
    if members.len() > 1 {
        let k = if at == 0 {
            1
        } else {
            0int
        };
        let u = members[k] as int;
        assert(order.components@[group]@[k] != order.components@[group]@[at]);
        assert(member_of(order.components@, group, u));
        assert(reaches(out, s, u));
        reveal(reaches);
        let steps = choose|steps: nat| reaches_in(out, s, u, steps);
        assert(steps > 0);
        let w = choose|w: int|
            #[trigger] connects(out, s, w) && reaches_in(out, w, u, (steps - 1) as nat);
        assert(connects(out, s, w));
    }
    assert(members[0] == s);
    assert(!loops(out, members));
}

/// Once a solve is done, every output counts as one. Any other slot of a group
/// without a loop has what the sum over its connections came to, taken over the
/// final importances. In a group with a loop every member has at least the
/// largest exit of the group, and what it amplifies beyond that.
pub proof fn law_finished_solves_add_up(
    done: Solver,
    wiring: Wiring,
    order: SolveOrder,
    sums: SumModel,
    creature: Creature,
)
    requires
        wiring.wires(creature),
        done.on_track(wiring, order, sums),
        done.component == order.components@.len(),
    ensures
        forall|s: int|
            0 <= s < wiring.out@.len() ==> (#[trigger] done.importance@[s]) == importance_of(
                wiring,
                order,
                sums,
                done.importance@,
                s,
            ),
        forall|s: int|
            0 <= s < wiring.out@.len() && wiring.kinds@[s] == Kind::Output ==> (
            #[trigger] done.importance@[s]) == (Measure { bits: ONE_BITS }),
        forall|s: int|
            0 <= s < wiring.out@.len() && wiring.kinds@[s] != Kind::Output
                && !order.cyclic@[order.component_of@[s] as int] ==> (
            #[trigger] done.importance@[s]) == rankable_sum(
                sums(
                    s,
                    None,
                    exit_terms(
                        wiring.out@[s]@,
                        order.component_of@,
                        order.component_of@[s],
                        done.importance@,
                    ),
                ),
            ),
        forall|s: int, t: int|
            0 <= s < wiring.out@.len() && 0 <= t < wiring.out@.len() && order.component_of@[s]
                == order.component_of@[t] && order.cyclic@[order.component_of@[s] as int]
                ==> #[trigger] exit_of(wiring, order, sums, done.importance@, t).at_most(
                #[trigger] done.importance@[s],
            ),
{
    let imp = done.importance@;
    assert forall|s: int| 0 <= s < wiring.out@.len() implies (#[trigger] imp[s]) == importance_of(
        wiring,
        order,
        sums,
        imp,
        s,
    ) by {
        assert(member_of(order.components@, order.component_of@[s] as int, s));
    }
    assert forall|s: int|
        0 <= s < wiring.out@.len() && wiring.kinds@[s] == Kind::Output implies (#[trigger] imp[s])
        == (Measure { bits: ONE_BITS }) by {
        lemma_outputs_stand_alone(wiring, order, creature, s);
    }
    assert forall|s: int, t: int|
        0 <= s < wiring.out@.len() && 0 <= t < wiring.out@.len() && order.component_of@[s]
            == order.component_of@[t]
            && order.cyclic@[order.component_of@[s] as int] implies #[trigger] exit_of(
        wiring,
        order,
        sums,
        imp,
        t,
    ).at_most(#[trigger] imp[s]) by {
        let group = order.component_of@[t] as int;
        assert(member_of(order.components@, group, t));
        let k = choose|k: int|
            0 <= k < order.components@[group]@.len() && #[trigger] order.components@[group]@[k]
                == t;
        let n = order.components@[group]@.len() as int;
        lemma_largest_is_largest(wiring, order, sums, imp, group, n, k);
        assert(imp[s] == importance_of(wiring, order, sums, imp, s));
    }
}

/// What a slot passes out of its group: over each connection to another group, in
/// order, the importance of its target, and nothing over one that weighs nothing.
pub proof fn law_exits_pass_on_what_was_settled(
    edges: Seq<Edge>,
    component_of: Seq<usize>,
    group: usize,
    importance: Seq<Measure>,
    marks: Seq<bool>,
)
    requires
        marks.len() == edges.len(),
        forall|i: int|
            0 <= i < marks.len() ==> (#[trigger] marks[i]
                <==> component_of[edges[i].to as int] != group),
    ensures
        exit_terms(edges, component_of, group, importance).len() == true_places(marks).len(),
        forall|k: int|
            0 <= k < true_places(marks).len() ==> {
                let at = true_places(marks)[k];
                let from = edges[at];
                let made = #[trigger] exit_terms(edges, component_of, group, importance)[k];
                &&& made.weight == from.weight
                &&& from.weight.position() == 0 && !from.weight.nan() ==> made.value.bits == 0
                &&& from.weight.position() != 0 || from.weight.nan()
                    ==> made.value == importance[from.to as int]
            },
    decreases edges.len(),
{
    if edges.len() > 0 {
        let init = edges.drop_last();
        let some = marks.drop_last();
        let n = edges.len() - 1;
        assert forall|i: int| 0 <= i < some.len() implies (#[trigger] some[i]
            <==> component_of[init[i].to as int] != group) by {
            assert(some[i] == marks[i]);
            assert(init[i] == edges[i]);
        }
        law_exits_pass_on_what_was_settled(init, component_of, group, importance, some);
        assert(marks[n] <==> component_of[edges[n].to as int] != group);
        law_true_places_ascend(some);
        let before = exit_terms(init, component_of, group, importance);
        let after = exit_terms(edges, component_of, group, importance);
        let was = true_places(some);
        let now = true_places(marks);
        assert forall|k: int| 0 <= k < now.len() implies ({
            let at = now[k];
            let from = edges[at];
            let made = #[trigger] after[k];
            &&& made.weight == from.weight
            &&& from.weight.position() == 0 && !from.weight.nan() ==> made.value.bits == 0
            &&& from.weight.position() != 0 || from.weight.nan()
                ==> made.value == importance[from.to as int]
        }) by {
            if k < was.len() {
                assert(now[k] == was[k]);
                assert(0 <= was[k] < some.len());
                assert(init[was[k]] == edges[was[k]]);
                assert(after[k] == before[k]);
            }
        }
    }
}

/// What a slot passes on within its group: over each connection to a member, in
/// order, the largest exit of the group, and nothing over one that weighs nothing.
pub proof fn law_loops_pass_on_the_largest_exit(
    edges: Seq<Edge>,
    component_of: Seq<usize>,
    group: usize,
    largest_exit: Measure,
    marks: Seq<bool>,
)
    requires
        marks.len() == edges.len(),
        forall|i: int|
            0 <= i < marks.len() ==> (#[trigger] marks[i] <==> component_of[edges[i].to as int]
                == group),
    ensures
        inner_terms(edges, component_of, group, largest_exit).len() == true_places(marks).len(),
        forall|k: int|
            0 <= k < true_places(marks).len() ==> {
                let at = true_places(marks)[k];
                let from = edges[at];
                let made = #[trigger] inner_terms(edges, component_of, group, largest_exit)[k];
                &&& made.weight == from.weight
                &&& from.weight.position() == 0 && !from.weight.nan() ==> made.value.bits == 0
                &&& from.weight.position() != 0 || from.weight.nan() ==> made.value == largest_exit
            },
    decreases edges.len(),
{
    if edges.len() > 0 {
        let init = edges.drop_last();
        let some = marks.drop_last();
        let n = edges.len() - 1;
        assert forall|i: int| 0 <= i < some.len() implies (#[trigger] some[i]
            <==> component_of[init[i].to as int] == group) by {
            assert(some[i] == marks[i]);
            assert(init[i] == edges[i]);
        }
        law_loops_pass_on_the_largest_exit(init, component_of, group, largest_exit, some);
        assert(marks[n] <==> component_of[edges[n].to as int] == group);
        law_true_places_ascend(some);
        let before = inner_terms(init, component_of, group, largest_exit);
        let after = inner_terms(edges, component_of, group, largest_exit);
        let was = true_places(some);
        let now = true_places(marks);
        assert forall|k: int| 0 <= k < now.len() implies ({
            let at = now[k];
            let from = edges[at];
            let made = #[trigger] after[k];
            &&& made.weight == from.weight
            &&& from.weight.position() == 0 && !from.weight.nan() ==> made.value.bits == 0
            &&& from.weight.position() != 0 || from.weight.nan() ==> made.value == largest_exit
        }) by {
            if k < was.len() {
                assert(now[k] == was[k]);
                assert(0 <= was[k] < some.len());
                assert(init[was[k]] == edges[was[k]]);
                assert(after[k] == before[k]);
            }
        }
    }
}

/// The connections out of a neuron are its synapses, in file order: what each feeds,
/// and how much it weighs without its sign.
pub proof fn law_connections_are_drawn_from_synapses(
    synapses: Seq<Synapse>,
    uuid: Seq<char>,
    marks: Seq<bool>,
)
    requires
        marks.len() == synapses.len(),
        forall|i: int|
            0 <= i < marks.len() ==> (#[trigger] marks[i] <==> synapses[i].from_uuid@ == uuid),
    ensures
        pulls_of(synapses, uuid).len() == true_places(marks).len(),
        forall|k: int|
            0 <= k < true_places(marks).len() ==> {
                let at = true_places(marks)[k];
                let from = synapses[at];
                let made = #[trigger] pulls_of(synapses, uuid)[k];
                &&& made.0 == from.to_uuid@
                &&& made.1.bits == from.weight.magnitude()
            },
    decreases synapses.len(),
{
    if synapses.len() > 0 {
        let init = synapses.drop_last();
        let some = marks.drop_last();
        let n = synapses.len() - 1;
        assert forall|i: int| 0 <= i < some.len() implies (#[trigger] some[i]
            <==> init[i].from_uuid@ == uuid) by {
            assert(some[i] == marks[i]);
            assert(init[i] == synapses[i]);
        }
        law_connections_are_drawn_from_synapses(init, uuid, some);
        assert(marks[n] <==> synapses[n].from_uuid@ == uuid);
        law_true_places_ascend(some);
        let before = pulls_of(init, uuid);
        let after = pulls_of(synapses, uuid);
        let was = true_places(some);
        let now = true_places(marks);
        assert forall|k: int| 0 <= k < now.len() implies ({
            let at = now[k];
            let from = synapses[at];
            let made = #[trigger] after[k];
            &&& made.0 == from.to_uuid@
            &&& made.1.bits == from.weight.magnitude()
        }) by {
            if k < was.len() {
                assert(now[k] == was[k]);
                assert(0 <= was[k] < some.len());
                assert(init[was[k]] == synapses[was[k]]);
                assert(after[k] == before[k]);
            }
        }
    }
}

/// A uuid is of the kind that the last neuron with it says, and of no ranked kind
/// where no neuron has it.
pub proof fn law_kinds_are_those_of_the_last_neuron(neurons: Seq<Neuron>, uuid: Seq<char>, at: int)
    ensures
        0 <= at < neurons.len() && neurons[at].uuid@ == uuid && (forall|k: int|
            at < k < neurons.len() ==> (#[trigger] neurons[k]).uuid@ != uuid) ==> {
            &&& kind_in(neurons, uuid) == Kind::Hidden <==> neurons[at].neuron_type@ == "hidden"@
            &&& kind_in(neurons, uuid) == Kind::Output <==> neurons[at].neuron_type@ == "output"@
        },
        (forall|k: int| 0 <= k < neurons.len() ==> (#[trigger] neurons[k]).uuid@ != uuid)
            ==> kind_in(neurons, uuid) == Kind::Other,
    decreases neurons.len(),
{
    reveal_strlit("hidden");
    reveal_strlit("output");
    assert("hidden"@[0] != "output"@[0]);
    if neurons.len() > 0 {
        let init = neurons.drop_last();
        law_kinds_are_those_of_the_last_neuron(init, uuid, at);
        assert(neurons[neurons.len() - 1] == neurons.last());
        assert(forall|k: int| 0 <= k < init.len() ==> #[trigger] init[k] == neurons[k]);
    }
}

/// What is no finite number counts as infinite, and what is stays as it is.
pub proof fn law_sums_always_rank(value: Measure)
    ensures
        value.magnitude() < 0x7FF0_0000_0000_0000 ==> rankable_sum(value) == value,
        value.magnitude() >= 0x7FF0_0000_0000_0000 ==> rankable_sum(value).bits
            == 0x7FF0_0000_0000_0000,
{
}

/// Hidden slots are listed in order with their own uuid and importance.
pub proof fn law_hidden_importances_are_listed_in_order(
    uuids: Seq<String>,
    kinds: Seq<Kind>,
    importance: Seq<Measure>,
    marks: Seq<bool>,
)
    requires
        kinds.len() == uuids.len(),
        importance.len() == uuids.len(),
        marks.len() == uuids.len(),
        forall|i: int| 0 <= i < marks.len() ==> (#[trigger] marks[i] <==> kinds[i] == Kind::Hidden),
    ensures
        hidden_pairs(uuids, kinds, importance).len() == true_places(marks).len(),
        forall|k: int|
            0 <= k < true_places(marks).len() ==> (#[trigger] hidden_pairs(
                uuids,
                kinds,
                importance,
            )[k]) == (uuids[true_places(marks)[k]]@, importance[true_places(marks)[k]]),
    decreases uuids.len(),
{
    if uuids.len() > 0 {
        let some = marks.drop_last();
        assert forall|i: int| 0 <= i < some.len() implies (#[trigger] some[i]
            <==> kinds.drop_last()[i] == Kind::Hidden) by {
            assert(some[i] == marks[i]);
        }
        law_hidden_importances_are_listed_in_order(
            uuids.drop_last(),
            kinds.drop_last(),
            importance.drop_last(),
            some,
        );
        law_true_places_ascend(some);
        let n = uuids.len() - 1;
        assert(marks[n] <==> kinds[n] == Kind::Hidden);
        let before = hidden_pairs(uuids.drop_last(), kinds.drop_last(), importance.drop_last());
        let after = hidden_pairs(uuids, kinds, importance);
        let was = true_places(some);
        let now = true_places(marks);
        assert forall|k: int| 0 <= k < now.len() implies (#[trigger] after[k]) == (
            uuids[now[k]]@,
            importance[now[k]],
        ) by {
            if k < was.len() {
                assert(now[k] == was[k]);
                assert(0 <= was[k] < some.len());
                assert(after[k] == before[k]);
            }
        }
    }
}

/// A group holds a loop exactly if it has two slots or more, or its only slot feeds
/// itself.
pub proof fn law_loops_are_groups_that_feed_themselves(out: Seq<Vec<Edge>>, component: Seq<usize>)
    requires
        component.len() > 0,
        component[0] < out.len(),
    ensures
        component.len() >= 2 ==> loops(out, component),
        component.len() == 1 ==> (loops(out, component) <==> connects(
            out,
            component[0] as int,
            component[0] as int,
        )),
{
}

} // verus!
