//! The structure of a creature, and slots that stand for its uuids.
use vstd::prelude::*;

use crate::list::{law_true_places_ascend, true_places};
use crate::measure::Measure;
use crate::text::{same_text, texts};

verus! {

/// One neuron of a creature.
#[derive(Debug)]
pub struct Neuron {
    /// The neuron's identity.
    pub uuid: String,
    /// `hidden`, `output` or another role.
    pub neuron_type: String,
}

/// One synapse of a creature.
#[derive(Debug)]
pub struct Synapse {
    /// The neuron or input that the synapse reads.
    pub from_uuid: String,
    /// The neuron that the synapse feeds.
    pub to_uuid: String,
    /// The weight of the synapse.
    pub weight: Measure,
}

/// The neurons and synapses of a creature, in file order.
#[derive(Debug)]
pub struct Creature {
    /// All neurons, inputs excepted.
    pub neurons: Vec<Neuron>,
    /// All synapses.
    pub synapses: Vec<Synapse>,
}

/// A neuron that pruning may remove.
pub open spec fn hidden_neuron(neuron: Neuron) -> bool {
    neuron.neuron_type@ == "hidden"@
}

/// The uuids of the hidden neurons, in file order.
pub open spec fn hidden_uuids(neurons: Seq<Neuron>) -> Seq<Seq<char>>
    decreases neurons.len(),
{
    if neurons.len() == 0 {
        Seq::empty()
    } else if hidden_neuron(neurons.last()) {
        hidden_uuids(neurons.drop_last()).push(neurons.last().uuid@)
    } else {
        hidden_uuids(neurons.drop_last())
    }
}

/// What the synapses out of `uuid` feed, in file order.
pub open spec fn target_uuids(synapses: Seq<Synapse>, uuid: Seq<char>) -> Seq<Seq<char>>
    decreases synapses.len(),
{
    if synapses.len() == 0 {
        Seq::empty()
    } else if synapses.last().from_uuid@ == uuid {
        target_uuids(synapses.drop_last(), uuid).push(synapses.last().to_uuid@)
    } else {
        target_uuids(synapses.drop_last(), uuid)
    }
}

/// What the synapses into `uuid` read, in file order.
pub open spec fn source_uuids(synapses: Seq<Synapse>, uuid: Seq<char>) -> Seq<Seq<char>>
    decreases synapses.len(),
{
    if synapses.len() == 0 {
        Seq::empty()
    } else if synapses.last().to_uuid@ == uuid {
        source_uuids(synapses.drop_last(), uuid).push(synapses.last().from_uuid@)
    } else {
        source_uuids(synapses.drop_last(), uuid)
    }
}

/// The creature names `uuid`, as a neuron or at an end of a synapse.
pub open spec fn mentions(creature: Creature, uuid: Seq<char>) -> bool {
    ||| exists|i: int|
        0 <= i < creature.neurons@.len() && (#[trigger] creature.neurons@[i]).uuid@ == uuid
    ||| exists|i: int|
        0 <= i < creature.synapses@.len() && ((#[trigger] creature.synapses@[i]).from_uuid@ == uuid
            || creature.synapses@[i].to_uuid@ == uuid)
}

/// No text stands twice in the list.
pub open spec fn distinct_texts(list: Seq<String>) -> bool {
    forall|i: int, j: int|
        #![trigger list[i], list[j]]
        0 <= i < j < list.len() ==> list[i]@ != list[j]@
}

/// Whether a neuron is hidden.
pub fn is_hidden_neuron(neuron: &Neuron) -> (r: bool)
    ensures
        r == hidden_neuron(*neuron),
{
    same_text(neuron.neuron_type.as_str(), "hidden")
}

/// The creature carries `uuid` as a hidden neuron.
pub open spec fn carries_hidden(creature: Creature, uuid: Seq<char>) -> bool {
    exists|i: int|
        0 <= i < creature.neurons@.len() && (#[trigger] creature.neurons@[i]).uuid@ == uuid
            && hidden_neuron(creature.neurons@[i])
}

/// Whether a creature carries `uuid` as a hidden neuron.
pub fn is_hidden(creature: &Creature, uuid: &str) -> (r: bool)
    ensures
        r == carries_hidden(*creature, uuid@),
{
    let mut i: usize = 0;
    while i < creature.neurons.len()
        invariant
            i <= creature.neurons@.len(),
            forall|k: int|
                0 <= k < i ==> !((#[trigger] creature.neurons@[k]).uuid@ == uuid@
                    && hidden_neuron(creature.neurons@[k])),
        decreases creature.neurons.len() - i,
    {
        if same_text(creature.neurons[i].uuid.as_str(), uuid) && is_hidden_neuron(
            &creature.neurons[i],
        ) {
            return true;
        }
        i += 1;
    }
    false
}

/// The synapse starts or ends at `uuid`.
pub open spec fn touches(synapse: Synapse, uuid: Seq<char>) -> bool {
    synapse.from_uuid@ == uuid || synapse.to_uuid@ == uuid
}

/// How many synapses start or end at `uuid`.
pub open spec fn touch_count(synapses: Seq<Synapse>, uuid: Seq<char>) -> nat
    decreases synapses.len(),
{
    if synapses.len() == 0 {
        0
    } else {
        touch_count(synapses.drop_last(), uuid) + if touches(synapses.last(), uuid) {
            1nat
        } else {
            0nat
        }
    }
}

/// How many synapses start at `uuid`.
pub fn fan_out(creature: &Creature, uuid: &str) -> (r: usize)
    ensures
        r == target_uuids(creature.synapses@, uuid@).len(),
{
    let mut count: usize = 0;
    let mut i: usize = 0;
    assert(creature.synapses@.take(0) =~= Seq::empty());
    while i < creature.synapses.len()
        invariant
            i <= creature.synapses@.len(),
            count <= i,
            count == target_uuids(creature.synapses@.take(i as int), uuid@).len(),
        decreases creature.synapses.len() - i,
    {
        proof {
            let head = creature.synapses@.take(i + 1);
            assert(head.drop_last() =~= creature.synapses@.take(i as int));
            assert(head.last() == creature.synapses@[i as int]);
        }
        if same_text(creature.synapses[i].from_uuid.as_str(), uuid) {
            count += 1;
        }
        i += 1;
    }
    assert(creature.synapses@.take(i as int) =~= creature.synapses@);
    count
}

/// How many synapses start or end at `uuid`.
pub fn touching(creature: &Creature, uuid: &str) -> (r: usize)
    ensures
        r == touch_count(creature.synapses@, uuid@),
{
    let mut count: usize = 0;
    let mut i: usize = 0;
    assert(creature.synapses@.take(0) =~= Seq::empty());
    while i < creature.synapses.len()
        invariant
            i <= creature.synapses@.len(),
            count <= i,
            count == touch_count(creature.synapses@.take(i as int), uuid@),
        decreases creature.synapses.len() - i,
    {
        proof {
            let head = creature.synapses@.take(i + 1);
            assert(head.drop_last() =~= creature.synapses@.take(i as int));
            assert(head.last() == creature.synapses@[i as int]);
        }
        if same_text(creature.synapses[i].from_uuid.as_str(), uuid) || same_text(
            creature.synapses[i].to_uuid.as_str(),
            uuid,
        ) {
            count += 1;
        }
        i += 1;
    }
    assert(creature.synapses@.take(i as int) =~= creature.synapses@);
    count
}

/// The size of a creature, as far as a cut is measured by it.
#[derive(Clone, Copy, Debug, PartialEq, Eq, Structural)]
pub struct Structure {
    /// Hidden neurons.
    pub hidden: usize,
    /// Synapses.
    pub synapses: usize,
}

impl Structure {
    /// The size is that of the creature.
    pub open spec fn measures(self, creature: Creature) -> bool {
        &&& self.hidden == hidden_uuids(creature.neurons@).len()
        &&& self.synapses == creature.synapses@.len()
    }

    /// The size of a creature.
    pub fn of(creature: &Creature) -> (r: Structure)
        ensures
            r.measures(*creature),
    {
        let mut hidden: usize = 0;
        let mut i: usize = 0;
        assert(creature.neurons@.take(0) =~= Seq::empty());
        while i < creature.neurons.len()
            invariant
                i <= creature.neurons@.len(),
                hidden <= i,
                hidden == hidden_uuids(creature.neurons@.take(i as int)).len(),
            decreases creature.neurons.len() - i,
        {
            proof {
                let head = creature.neurons@.take(i + 1);
                assert(head.drop_last() =~= creature.neurons@.take(i as int));
                assert(head.last() == creature.neurons@[i as int]);
            }
            if is_hidden_neuron(&creature.neurons[i]) {
                hidden += 1;
            }
            i += 1;
        }
        assert(creature.neurons@.take(i as int) =~= creature.neurons@);
        Structure { hidden, synapses: creature.synapses.len() }
    }
}

/// One slot for each uuid that a creature names.
pub struct Slots {
    /// The uuid of each slot.
    pub uuids: Vec<String>,
    /// The slot of each neuron.
    pub neurons: Vec<usize>,
    /// The slot that each synapse reads.
    pub from: Vec<usize>,
    /// The slot that each synapse feeds.
    pub to: Vec<usize>,
}

impl Slots {
    /// The slots stand for the creature's uuids, each for one of its own.
    pub open spec fn stand_for(self, creature: Creature) -> bool {
        let n = self.uuids@.len();
        &&& distinct_texts(self.uuids@)
        &&& self.neurons@.len() == creature.neurons@.len()
        &&& self.from@.len() == creature.synapses@.len()
        &&& self.to@.len() == creature.synapses@.len()
        &&& forall|i: int|
            0 <= i < self.neurons@.len() ==> (#[trigger] self.neurons@[i]) < n
                && self.uuids@[self.neurons@[i] as int]@ == creature.neurons@[i].uuid@
        &&& forall|i: int|
            0 <= i < self.from@.len() ==> (#[trigger] self.from@[i]) < n
                && self.uuids@[self.from@[i] as int]@ == creature.synapses@[i].from_uuid@
        &&& forall|i: int|
            0 <= i < self.to@.len() ==> (#[trigger] self.to@[i]) < n
                && self.uuids@[self.to@[i] as int]@ == creature.synapses@[i].to_uuid@
        &&& forall|s: int| 0 <= s < n ==> mentions(creature, (#[trigger] self.uuids@[s])@)
    }

    /// Gives every uuid of the creature a slot: neurons first, then the ends
    /// of the synapses, in file order.
    pub fn of(creature: &Creature) -> (slots: Slots)
        ensures
            slots.stand_for(*creature),
    {
        let mut uuids: Vec<String> = Vec::new();
        let mut neurons: Vec<usize> = Vec::new();
        let mut i: usize = 0;
        while i < creature.neurons.len()
            invariant
                i <= creature.neurons@.len(),
                neurons@.len() == i,
                distinct_texts(uuids@),
                forall|k: int|
                    0 <= k < i ==> (#[trigger] neurons@[k]) < uuids@.len()
                        && uuids@[neurons@[k] as int]@ == creature.neurons@[k].uuid@,
                forall|s: int|
                    0 <= s < uuids@.len() ==> mentions(*creature, (#[trigger] uuids@[s])@),
            decreases creature.neurons.len() - i,
        {
            let ghost before = uuids@;
            let slot: usize = slot_of(&mut uuids, &creature.neurons[i].uuid);
            proof {
                assert(mentions(*creature, creature.neurons@[i as int].uuid@));
                assert forall|k: int| 0 <= k < i implies (#[trigger] neurons@[k]) < uuids@.len()
                    && uuids@[neurons@[k] as int]@ == creature.neurons@[k].uuid@ by {
                    assert(uuids@[neurons@[k] as int] == before[neurons@[k] as int]);
                }
            }
            neurons.push(slot);
            i += 1;
        }
        let mut from: Vec<usize> = Vec::new();
        let mut to: Vec<usize> = Vec::new();
        let mut k: usize = 0;
        while k < creature.synapses.len()
            invariant
                k <= creature.synapses@.len(),
                from@.len() == k,
                to@.len() == k,
                neurons@.len() == creature.neurons@.len(),
                distinct_texts(uuids@),
                forall|i: int|
                    0 <= i < neurons@.len() ==> (#[trigger] neurons@[i]) < uuids@.len()
                        && uuids@[neurons@[i] as int]@ == creature.neurons@[i].uuid@,
                forall|i: int|
                    0 <= i < k ==> (#[trigger] from@[i]) < uuids@.len()
                        && uuids@[from@[i] as int]@ == creature.synapses@[i].from_uuid@,
                forall|i: int|
                    0 <= i < k ==> (#[trigger] to@[i]) < uuids@.len() && uuids@[to@[i] as int]@
                        == creature.synapses@[i].to_uuid@,
                forall|s: int|
                    0 <= s < uuids@.len() ==> mentions(*creature, (#[trigger] uuids@[s])@),
            decreases creature.synapses.len() - k,
        {
            let ghost before = uuids@;
            proof {
                assert(mentions(*creature, creature.synapses@[k as int].from_uuid@));
                assert(mentions(*creature, creature.synapses@[k as int].to_uuid@));
            }
            let source: usize = slot_of(&mut uuids, &creature.synapses[k].from_uuid);
            let ghost midway = uuids@;
            let target: usize = slot_of(&mut uuids, &creature.synapses[k].to_uuid);
            proof {
                assert forall|i: int| 0 <= i < neurons@.len() implies (#[trigger] neurons@[i])
                    < uuids@.len() && uuids@[neurons@[i] as int]@
                    == creature.neurons@[i].uuid@ by {
                    assert(midway[neurons@[i] as int] == before[neurons@[i] as int]);
                    assert(uuids@[neurons@[i] as int] == midway[neurons@[i] as int]);
                }
                assert forall|i: int| 0 <= i < k implies (#[trigger] from@[i]) < uuids@.len()
                    && uuids@[from@[i] as int]@ == creature.synapses@[i].from_uuid@ by {
                    assert(midway[from@[i] as int] == before[from@[i] as int]);
                    assert(uuids@[from@[i] as int] == midway[from@[i] as int]);
                }
                assert forall|i: int| 0 <= i < k implies (#[trigger] to@[i]) < uuids@.len()
                    && uuids@[to@[i] as int]@ == creature.synapses@[i].to_uuid@ by {
                    assert(midway[to@[i] as int] == before[to@[i] as int]);
                    assert(uuids@[to@[i] as int] == midway[to@[i] as int]);
                }
                assert(uuids@[source as int] == midway[source as int]);
            }
            from.push(source);
            to.push(target);
            k += 1;
        }
        Slots { uuids, neurons, from, to }
    }
}

/// The slot of `uuid`, a new one if it has none yet.
fn slot_of(uuids: &mut Vec<String>, uuid: &String) -> (slot: usize)
    requires
        distinct_texts(old(uuids)@),
    ensures
        distinct_texts(final(uuids)@),
        slot < final(uuids)@.len(),
        final(uuids)@[slot as int]@ == uuid@,
        final(uuids)@.len() >= old(uuids)@.len(),
        forall|s: int|
            0 <= s < old(uuids)@.len() ==> #[trigger] final(uuids)@[s] == old(uuids)@[s],
        forall|s: int|
            old(uuids)@.len() <= s < final(uuids)@.len() ==> (#[trigger] final(uuids)@[s])@ == uuid@,
{
    match find_text(uuids, uuid) {
        Some(slot) => slot,
        None => {
            let slot: usize = uuids.len();
            uuids.push(uuid.clone());
            slot
        },
    }
}

/// The first place at which a list holds a text.
pub fn find_text(list: &Vec<String>, text: &String) -> (r: Option<usize>)
    ensures
        match r {
            Some(i) => i < list@.len() && list@[i as int]@ == text@ && forall|k: int|
                0 <= k < i ==> (#[trigger] list@[k])@ != text@,
            None => forall|k: int| 0 <= k < list@.len() ==> (#[trigger] list@[k])@ != text@,
        },
{
    let mut i: usize = 0;
    while i < list.len()
        invariant
            i <= list@.len(),
            forall|k: int| 0 <= k < i ==> (#[trigger] list@[k])@ != text@,
        decreases list.len() - i,
    {
        if list[i] == *text {
            return Some(i);
        }
        i += 1;
    }
    None
}

/// The uuids of a list of slots.
pub open spec fn named(uuids: Seq<String>, slots: Seq<usize>) -> Seq<Seq<char>> {
    Seq::new(slots.len(), |i: int| uuids[slots[i] as int]@)
}

/// Copies of the uuids of a list of slots.
pub fn names_of(uuids: &Vec<String>, slots: &Vec<usize>) -> (r: Vec<String>)
    requires
        forall|i: int| 0 <= i < slots@.len() ==> (#[trigger] slots@[i]) < uuids@.len(),
    ensures
        texts(r@) == named(uuids@, slots@),
        r@.len() == slots@.len(),
{
    let mut out: Vec<String> = Vec::new();
    let mut i: usize = 0;
    while i < slots.len()
        invariant
            i <= slots@.len(),
            out@.len() == i,
            forall|k: int| 0 <= k < slots@.len() ==> (#[trigger] slots@[k]) < uuids@.len(),
            forall|k: int|
                0 <= k < i ==> (#[trigger] out@[k])@ == uuids@[slots@[k] as int]@,
        decreases slots.len() - i,
    {
        assert(slots@[i as int] < uuids@.len());
        out.push(uuids[slots[i]].clone());
        i += 1;
    }
    assert(texts(out@) =~= named(uuids@, slots@));
    out
}

/// The hidden neurons of a creature are those whose type says so, in file order.
pub proof fn law_hidden_neurons_are_listed_in_order(neurons: Seq<Neuron>, marks: Seq<bool>)
    requires
        marks.len() == neurons.len(),
        forall|i: int| 0 <= i < marks.len() ==> (#[trigger] marks[i]
            <==> neurons[i].neuron_type@ == "hidden"@),
    ensures
        hidden_uuids(neurons).len() == true_places(marks).len(),
        forall|k: int|
            0 <= k < true_places(marks).len() ==> (#[trigger] hidden_uuids(neurons)[k])
                == neurons[true_places(marks)[k]].uuid@,
    decreases neurons.len(),
{
    if neurons.len() > 0 {
        let init = neurons.drop_last();
        let some = marks.drop_last();
        let n = neurons.len() - 1;
        assert forall|i: int| 0 <= i < some.len() implies (#[trigger] some[i]
            <==> init[i].neuron_type@ == "hidden"@) by {
            assert(some[i] == marks[i]);
            assert(init[i] == neurons[i]);
        }
        law_hidden_neurons_are_listed_in_order(init, some);
        assert(marks[n] <==> neurons[n].neuron_type@ == "hidden"@);
        law_true_places_ascend(some);
        let before = hidden_uuids(init);
        let after = hidden_uuids(neurons);
        let was = true_places(some);
        let now = true_places(marks);
        assert forall|k: int| 0 <= k < now.len() implies (#[trigger] after[k])
            == neurons[now[k]].uuid@ by {
            if k < was.len() {
                assert(now[k] == was[k]);
                assert(0 <= was[k] < some.len());
                assert(init[was[k]] == neurons[was[k]]);
                assert(after[k] == before[k]);
            }
        }
    }
}

/// What a neuron feeds is what the synapses out of it end at, in file order.
pub proof fn law_targets_are_listed_in_order(
    synapses: Seq<Synapse>,
    uuid: Seq<char>,
    marks: Seq<bool>,
)
    requires
        marks.len() == synapses.len(),
        forall|i: int| 0 <= i < marks.len() ==> (#[trigger] marks[i]
            <==> synapses[i].from_uuid@ == uuid),
    ensures
        target_uuids(synapses, uuid).len() == true_places(marks).len(),
        forall|k: int|
            0 <= k < true_places(marks).len() ==> (#[trigger] target_uuids(synapses, uuid)[k])
                == synapses[true_places(marks)[k]].to_uuid@,
    decreases synapses.len(),
{
    if synapses.len() > 0 {
        let init = synapses.drop_last();
        let some = marks.drop_last();
        let n = synapses.len() - 1;
        assert forall|i: int| 0 <= i < some.len() implies (#[trigger] some[i]
            <==> init[i].from_uuid@ == uuid) by {
            assert(some[i] == marks[i]);
            assert(init[i] == synapses[i]);
        }
        law_targets_are_listed_in_order(init, uuid, some);
        assert(marks[n] <==> synapses[n].from_uuid@ == uuid);
        law_true_places_ascend(some);
        let before = target_uuids(init, uuid);
        let after = target_uuids(synapses, uuid);
        let was = true_places(some);
        let now = true_places(marks);
        assert forall|k: int| 0 <= k < now.len() implies (#[trigger] after[k])
            == synapses[now[k]].to_uuid@ by {
            if k < was.len() {
                assert(now[k] == was[k]);
                assert(0 <= was[k] < some.len());
                assert(init[was[k]] == synapses[was[k]]);
                assert(after[k] == before[k]);
            }
        }
    }
}

/// What a neuron reads is what the synapses into it start at, in file order.
pub proof fn law_sources_are_listed_in_order(
    synapses: Seq<Synapse>,
    uuid: Seq<char>,
    marks: Seq<bool>,
)
    requires
        marks.len() == synapses.len(),
        forall|i: int| 0 <= i < marks.len() ==> (#[trigger] marks[i]
            <==> synapses[i].to_uuid@ == uuid),
    ensures
        source_uuids(synapses, uuid).len() == true_places(marks).len(),
        forall|k: int|
            0 <= k < true_places(marks).len() ==> (#[trigger] source_uuids(synapses, uuid)[k])
                == synapses[true_places(marks)[k]].from_uuid@,
    decreases synapses.len(),
{
    if synapses.len() > 0 {
        let init = synapses.drop_last();
        let some = marks.drop_last();
        let n = synapses.len() - 1;
        assert forall|i: int| 0 <= i < some.len() implies (#[trigger] some[i]
            <==> init[i].to_uuid@ == uuid) by {
            assert(some[i] == marks[i]);
            assert(init[i] == synapses[i]);
        }
        law_sources_are_listed_in_order(init, uuid, some);
        assert(marks[n] <==> synapses[n].to_uuid@ == uuid);
        law_true_places_ascend(some);
        let before = source_uuids(init, uuid);
        let after = source_uuids(synapses, uuid);
        let was = true_places(some);
        let now = true_places(marks);
        assert forall|k: int| 0 <= k < now.len() implies (#[trigger] after[k])
            == synapses[now[k]].from_uuid@ by {
            if k < was.len() {
                assert(now[k] == was[k]);
                assert(0 <= was[k] < some.len());
                assert(init[was[k]] == synapses[was[k]]);
                assert(after[k] == before[k]);
            }
        }
    }
}

/// The synapses that start or end at a neuron are counted once each.
pub proof fn law_touching_synapses_are_counted(
    synapses: Seq<Synapse>,
    uuid: Seq<char>,
    marks: Seq<bool>,
)
    requires
        marks.len() == synapses.len(),
        forall|i: int| 0 <= i < marks.len() ==> (#[trigger] marks[i]
            <==> (synapses[i].from_uuid@ == uuid || synapses[i].to_uuid@ == uuid)),
    ensures
        touch_count(synapses, uuid) == true_places(marks).len(),
    decreases synapses.len(),
{
    if synapses.len() > 0 {
        let init = synapses.drop_last();
        let some = marks.drop_last();
        let n = synapses.len() - 1;
        assert forall|i: int| 0 <= i < some.len() implies (#[trigger] some[i]
            <==> (init[i].from_uuid@ == uuid || init[i].to_uuid@ == uuid)) by {
            assert(some[i] == marks[i]);
            assert(init[i] == synapses[i]);
        }
        law_touching_synapses_are_counted(init, uuid, some);
        assert(marks[n] <==> (synapses[n].from_uuid@ == uuid || synapses[n].to_uuid@ == uuid));
    }
}

/// A creature carries a hidden neuron exactly if one of its neurons has that uuid
/// and is of that type; and its size counts those and its synapses.
pub proof fn law_creatures_are_measured_by_hidden_neurons(
    creature: Creature,
    uuid: Seq<char>,
    size: Structure,
    marks: Seq<bool>,
)
    requires
        size.measures(creature),
        marks.len() == creature.neurons@.len(),
        forall|i: int|
            0 <= i < marks.len() ==> (#[trigger] marks[i] <==> creature.neurons@[i].neuron_type@
                == "hidden"@),
    ensures
        carries_hidden(creature, uuid) <==> exists|i: int|
            0 <= i < creature.neurons@.len() && (#[trigger] creature.neurons@[i]).uuid@ == uuid
                && creature.neurons@[i].neuron_type@ == "hidden"@,
        size.hidden == true_places(marks).len(),
        size.synapses == creature.synapses@.len(),
{
    law_hidden_neurons_are_listed_in_order(creature.neurons@, marks);
}

} // verus!
