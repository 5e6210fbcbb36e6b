//! Chains, branches and clusters of hidden neurons.
use vstd::prelude::*;

use crate::creature::{
    distinct_texts, hidden_uuids, is_hidden_neuron, named, source_uuids, target_uuids, Creature,
    Slots,
};
use crate::list::{holds_slot, law_true_places_ascend, reversed, true_places};
use crate::measure::Measure;

verus! {

/// Fewest members of a group.
pub const MIN_NEIGHBOURHOOD_SIZE: usize = 2;

/// Who feeds whom in a creature, by slots.
pub struct Topology {
    /// The uuid of each slot.
    pub uuids: Vec<String>,
    /// The hidden neurons, in file order.
    pub hidden: Vec<usize>,
    /// Whether each slot is a hidden neuron.
    pub hidden_set: Vec<bool>,
    /// What each slot feeds, in file order.
    pub out: Vec<Vec<usize>>,
    /// What feeds each slot, in file order.
    pub incoming: Vec<Vec<usize>>,
}

/// Every listed slot is below `n`.
pub open spec fn slots_below(lists: Seq<Vec<usize>>, n: int) -> bool {
    forall|s: int, k: int|
        0 <= s < lists.len() && 0 <= k < lists[s]@.len() ==> (#[trigger] lists[s]@[k]) < n
}

/// How a group grows from its first member.
pub enum Growth<'a> {
    /// Upstream, over neurons that feed only the group.
    Branch,
    /// Both ways, over neurons no louder than the first one.
    Cluster {
        /// The measured effect of each slot.
        effects: &'a Vec<Option<Measure>>,
        /// The effect of the first member.
        loudest: Measure,
    },
}

impl Topology {
    /// The slots of the lists are slots of the topology.
    pub open spec fn well_formed(self) -> bool {
        let n = self.uuids@.len();
        &&& distinct_texts(self.uuids@)
        &&& self.hidden_set@.len() == n
        &&& self.out@.len() == n
        &&& self.incoming@.len() == n
        &&& forall|i: int| 0 <= i < self.hidden@.len() ==> (#[trigger] self.hidden@[i]) < n
        &&& forall|i: int|
            0 <= i < self.hidden@.len() ==> self.hidden_set@[(#[trigger] self.hidden@[i]) as int]
        &&& slots_below(self.out@, n as int)
        &&& slots_below(self.incoming@, n as int)
    }

    /// The topology is the creature's.
    pub open spec fn maps(self, creature: Creature) -> bool {
        &&& self.well_formed()
        &&& named(self.uuids@, self.hidden@) == hidden_uuids(creature.neurons@)
        &&& forall|s: int|
            0 <= s < self.uuids@.len() ==> (#[trigger] self.hidden_set@[s]) == hidden_uuids(
                creature.neurons@,
            ).contains(self.uuids@[s]@)
        &&& forall|s: int|
            0 <= s < self.uuids@.len() ==> named(self.uuids@, (#[trigger] self.out@[s])@)
                == target_uuids(creature.synapses@, self.uuids@[s]@)
        &&& forall|s: int|
            0 <= s < self.uuids@.len() ==> named(self.uuids@, (#[trigger] self.incoming@[s])@)
                == source_uuids(creature.synapses@, self.uuids@[s]@)
    }

    /// The hidden neuron that `s` alone feeds, when `s` feeds nothing else.
    pub open spec fn link(self, s: usize) -> Option<usize> {
        let targets = self.out@[s as int]@;
        if targets.len() == 1 && self.hidden_set@[targets[0] as int]
            && self.incoming@[targets[0] as int]@.len() == 1
            && self.incoming@[targets[0] as int]@[0] == s {
            Some(targets[0])
        } else {
            None
        }
    }

    /// `members` continued link by link, up to `max` of them, until there is
    /// no link or it leads back.
    pub open spec fn chain_from(self, members: Seq<usize>, max: int) -> Seq<usize>
        decreases max - members.len(),
    {
        if members.len() == 0 || members.len() >= max {
            members
        } else {
            match self.link(members.last()) {
                None => members,
                Some(next) => if members.contains(next) {
                    members
                } else {
                    self.chain_from(members.push(next), max)
                },
            }
        }
    }

    /// Some hidden neuron links to `s`.
    pub open spec fn linked_into(self, s: usize) -> bool {
        exists|i: int|
            0 <= i < self.hidden@.len() && self.link(#[trigger] self.hidden@[i]) == Some(s)
    }

    /// The chains that start at the given heads.
    pub open spec fn chains_from(self, heads: Seq<usize>, max: int) -> Seq<Seq<usize>>
        decreases heads.len(),
    {
        if heads.len() == 0 {
            Seq::empty()
        } else {
            let earlier = self.chains_from(heads.drop_last(), max);
            let chain = self.chain_from(seq![heads.last()], max);
            if !self.linked_into(heads.last()) && chain.len() >= MIN_NEIGHBOURHOOD_SIZE {
                earlier.push(chain)
            } else {
                earlier
            }
        }
    }

    /// The neighbours that a growing group looks at from `s`.
    pub open spec fn around(self, growth: Growth, s: usize) -> Seq<usize> {
        match growth {
            Growth::Branch => self.incoming@[s as int]@,
            Growth::Cluster { effects, loudest } => self.out@[s as int]@
                + self.incoming@[s as int]@,
        }
    }

    /// A group takes in `x`: a hidden neuron that it does not hold; a branch
    /// one that feeds members only, a cluster one measured no louder than the
    /// first member.
    pub open spec fn admits(self, growth: Growth, members: Seq<usize>, x: usize) -> bool {
        &&& self.hidden_set@[x as int]
        &&& !members.contains(x)
        &&& match growth {
            Growth::Branch => forall|k: int|
                0 <= k < self.out@[x as int]@.len() ==> members.contains(
                    #[trigger] self.out@[x as int]@[k],
                ),
            Growth::Cluster { effects, loudest } => match effects@[x as int] {
                Some(effect) => !loudest.below(effect),
                None => false,
            },
        }
    }

    /// `members` with those of `found` that the group takes in, in order.
    pub open spec fn absorbed(
        self,
        growth: Growth,
        members: Seq<usize>,
        found: Seq<usize>,
        max: int,
    ) -> Seq<usize>
        decreases found.len(),
    {
        if found.len() == 0 || members.len() >= max {
            members
        } else if self.admits(growth, members, found[0]) {
            self.absorbed(growth, members.push(found[0]), found.drop_first(), max)
        } else {
            self.absorbed(growth, members, found.drop_first(), max)
        }
    }

    /// `members` grown breadth first from place `frontier` on.
    pub open spec fn grown(
        self,
        growth: Growth,
        members: Seq<usize>,
        frontier: int,
        max: int,
    ) -> Seq<usize>
        decreases max - frontier,
    {
        if frontier < 0 || frontier >= members.len() || members.len() >= max {
            members
        } else {
            self.grown(
                growth,
                self.absorbed(growth, members, self.around(growth, members[frontier]), max),
                frontier + 1,
                max,
            )
        }
    }

    /// The branches whose roots are given, each with its root last.
    pub open spec fn branches_from(self, roots: Seq<usize>, max: int) -> Seq<Seq<usize>>
        decreases roots.len(),
    {
        if roots.len() == 0 {
            Seq::empty()
        } else {
            let earlier = self.branches_from(roots.drop_last(), max);
            let root = roots.last();
            let group = self.grown(Growth::Branch, seq![root], 0, max);
            if self.out@[root as int]@.len() == 1 && group.len() >= MIN_NEIGHBOURHOOD_SIZE {
                earlier.push(group.reverse())
            } else {
                earlier
            }
        }
    }

    /// The clusters around the given seeds.
    pub open spec fn clusters_from(
        self,
        seeds: Seq<usize>,
        effects: &Vec<Option<Measure>>,
        max: int,
    ) -> Seq<Seq<usize>>
        decreases seeds.len(),
    {
        if seeds.len() == 0 {
            Seq::empty()
        } else {
            let earlier = self.clusters_from(seeds.drop_last(), effects, max);
            let seed = seeds.last();
            match effects@[seed as int] {
                None => earlier,
                Some(loudest) => {
                    let group = self.grown(
                        Growth::Cluster { effects, loudest },
                        seq![seed],
                        0,
                        max,
                    );
                    if group.len() >= MIN_NEIGHBOURHOOD_SIZE {
                        earlier.push(group)
                    } else {
                        earlier
                    }
                },
            }
        }
    }
}

/// The lists that a list of vectors holds.
pub open spec fn slot_lists(lists: Seq<Vec<usize>>) -> Seq<Seq<usize>> {
    Seq::new(lists.len(), |i: int| lists[i]@)
}

fn empty_lists(n: usize) -> (r: Vec<Vec<usize>>)
    ensures
        r@.len() == n,
        forall|s: int| 0 <= s < n ==> (#[trigger] r@[s])@.len() == 0,
{
    let mut out: Vec<Vec<usize>> = Vec::new();
    let mut i: usize = 0;
    while i < n
        invariant
            i <= n,
            out@.len() == i,
            forall|s: int| 0 <= s < i ==> (#[trigger] out@[s])@.len() == 0,
        decreases n - i,
    {
        out.push(Vec::new());
        i += 1;
    }
    out
}

/// Lists, for each slot, the other end of the synapses whose near end it is.
fn ends(near: &Vec<usize>, far: &Vec<usize>, n: usize) -> (r: Vec<Vec<usize>>)
    requires
        near@.len() == far@.len(),
        forall|i: int| 0 <= i < near@.len() ==> (#[trigger] near@[i]) < n,
        forall|i: int| 0 <= i < far@.len() ==> (#[trigger] far@[i]) < n,
    ensures
        r@.len() == n,
        slots_below(r@, n as int),
        forall|s: int|
            0 <= s < n ==> (#[trigger] r@[s])@ == far_ends(near@, far@, s as usize),
{
    let mut out = empty_lists(n);
    proof {
        assert forall|s: int| 0 <= s < n implies (#[trigger] out@[s])@ == far_ends(
            near@.take(0),
            far@.take(0),
            s as usize,
        ) by {
            assert(out@[s]@ =~= Seq::empty());
        }
    }
    let mut k: usize = 0;
    while k < near.len()
        invariant
            near@.len() == far@.len(),
            k <= near@.len(),
            forall|i: int| 0 <= i < near@.len() ==> (#[trigger] near@[i]) < n,
            forall|i: int| 0 <= i < far@.len() ==> (#[trigger] far@[i]) < n,
            out@.len() == n,
            slots_below(out@, n as int),
            forall|s: int|
                0 <= s < n ==> (#[trigger] out@[s])@ == far_ends(
                    near@.take(k as int),
                    far@.take(k as int),
                    s as usize,
                ),
        decreases near.len() - k,
    {
        let from: usize = near[k];
        let to: usize = far[k];
        let ghost before = out@;
        out[from].push(to);
        proof {
            assert(near@[k as int] < n && far@[k as int] < n);
            assert(near@.take(k + 1).drop_last() =~= near@.take(k as int));
            assert(far@.take(k + 1).drop_last() =~= far@.take(k as int));
            assert forall|s: int| 0 <= s < n implies (#[trigger] out@[s])@ == far_ends(
                near@.take(k + 1),
                far@.take(k + 1),
                s as usize,
            ) by {
                assert(before[s]@ == far_ends(
                    near@.take(k as int),
                    far@.take(k as int),
                    s as usize,
                ));
                if s != from {
                    assert(out@[s] == before[s]);
                }
            }
            assert forall|s: int, j: int|
                0 <= s < out@.len() && 0 <= j < out@[s]@.len() implies (#[trigger] out@[s]@[j])
                < n by {
                if s != from {
                    assert(out@[s] == before[s]);
                }
                if j < before[s]@.len() {
                    assert(before[s]@[j] < n);
                }
            }
        }
        k += 1;
    }
    proof {
        assert(near@.take(k as int) =~= near@);
        assert(far@.take(k as int) =~= far@);
    }
    out
}

/// The far ends of the pairs whose near end is `s`.
spec fn far_ends(near: Seq<usize>, far: Seq<usize>, s: usize) -> Seq<usize>
    decreases near.len(),
{
    if near.len() == 0 {
        Seq::empty()
    } else if near.last() == s {
        far_ends(near.drop_last(), far.drop_last(), s).push(far.last())
    } else {
        far_ends(near.drop_last(), far.drop_last(), s)
    }
}

proof fn lemma_targets_named(
    creature: Creature,
    slots: Slots,
    synapses: Seq<crate::creature::Synapse>,
    from: Seq<usize>,
    to: Seq<usize>,
    s: int,
)
    requires
        distinct_texts(slots.uuids@),
        from.len() == synapses.len(),
        to.len() == synapses.len(),
        0 <= s < slots.uuids@.len() <= usize::MAX,
        forall|i: int|
            0 <= i < from.len() ==> (#[trigger] from[i]) < slots.uuids@.len()
                && slots.uuids@[from[i] as int]@ == synapses[i].from_uuid@,
        forall|i: int|
            0 <= i < to.len() ==> (#[trigger] to[i]) < slots.uuids@.len()
                && slots.uuids@[to[i] as int]@ == synapses[i].to_uuid@,
    ensures
        named(slots.uuids@, far_ends(from, to, s as usize)) == target_uuids(
            synapses,
            slots.uuids@[s]@,
        ),
        named(slots.uuids@, far_ends(to, from, s as usize)) == source_uuids(
            synapses,
            slots.uuids@[s]@,
        ),
    decreases synapses.len(),
{
    let uuids = slots.uuids@;
    if synapses.len() > 0 {
        let last = synapses.len() - 1;
        assert forall|i: int| 0 <= i < from.drop_last().len() implies (
        #[trigger] from.drop_last()[i]) < uuids.len() && uuids[from.drop_last()[i] as int]@
            == synapses.drop_last()[i].from_uuid@ by {
            assert(from[i] < uuids.len());
        }
        assert forall|i: int| 0 <= i < to.drop_last().len() implies (
        #[trigger] to.drop_last()[i]) < uuids.len() && uuids[to.drop_last()[i] as int]@
            == synapses.drop_last()[i].to_uuid@ by {
            assert(to[i] < uuids.len());
        }
        lemma_targets_named(
            creature,
            slots,
            synapses.drop_last(),
            from.drop_last(),
            to.drop_last(),
            s,
        );
        assert(from[last] < uuids.len() && to[last] < uuids.len());
        let head = far_ends(from.drop_last(), to.drop_last(), s as usize);
        let tail = far_ends(to.drop_last(), from.drop_last(), s as usize);
        if from[last] == s {
            assert(named(uuids, head.push(to[last])) =~= named(uuids, head).push(
                uuids[to[last] as int]@,
            ));
        } else {
            assert(uuids[from[last] as int]@ != uuids[s]@);
        }
        if to[last] == s {
            assert(named(uuids, tail.push(from[last])) =~= named(uuids, tail).push(
                uuids[from[last] as int]@,
            ));
        } else {
            assert(uuids[to[last] as int]@ != uuids[s]@);
        }
    } else {
        assert(named(uuids, far_ends(from, to, s as usize)) =~= target_uuids(synapses, uuids[s]@));
        assert(named(uuids, far_ends(to, from, s as usize)) =~= source_uuids(synapses, uuids[s]@));
    }
}

impl Topology {
    /// The topology of a creature.
    pub fn new(creature: &Creature) -> (topology: Topology)
        ensures
            topology.maps(*creature),
    {
        let slots = Slots::of(creature);
        let n: usize = slots.uuids.len();
        let out = ends(&slots.from, &slots.to, n);
        let incoming = ends(&slots.to, &slots.from, n);
        let mut hidden: Vec<usize> = Vec::new();
        let mut hidden_set: Vec<bool> = vec![false; n];
        let mut i: usize = 0;
        assert(named(slots.uuids@, hidden@) =~= Seq::<Seq<char>>::empty());
        while i < creature.neurons.len()
            invariant
                n == slots.uuids@.len(),
                slots.stand_for(*creature),
                i <= creature.neurons@.len(),
                hidden_set@.len() == n,
                forall|k: int| 0 <= k < hidden@.len() ==> (#[trigger] hidden@[k]) < n,
                forall|k: int|
                    0 <= k < hidden@.len() ==> hidden_set@[(#[trigger] hidden@[k]) as int],
                forall|s: int|
                    0 <= s < n ==> (#[trigger] hidden_set@[s]) == hidden@.contains(s as usize),
                named(slots.uuids@, hidden@) == hidden_uuids(creature.neurons@.take(i as int)),
            decreases creature.neurons.len() - i,
        {
            let ghost before = hidden@;
            let ghost marks = hidden_set@;
            proof {
                assert(creature.neurons@.take(i + 1).drop_last() =~= creature.neurons@.take(
                    i as int,
                ));
                assert(slots.neurons@[i as int] < n);
            }
            if is_hidden_neuron(&creature.neurons[i]) {
                let slot: usize = slots.neurons[i];
                hidden.push(slot);
                hidden_set[slot] = true;
                proof {
                    assert(named(slots.uuids@, hidden@) =~= named(slots.uuids@, before).push(
                        slots.uuids@[slot as int]@,
                    ));
                    assert(hidden@[before.len() as int] == slot);
                    assert forall|s: int| 0 <= s < n implies (#[trigger] hidden_set@[s])
                        == hidden@.contains(s as usize) by {
                        assert(marks[s] == before.contains(s as usize));
                        if before.contains(s as usize) {
                            let k = choose|k: int| 0 <= k < before.len() && before[k] == s as usize;
                            assert(hidden@[k] == s as usize);
                        }
                    }
                }
            }
            i += 1;
        }
        proof {
            assert(creature.neurons@.take(i as int) =~= creature.neurons@);
            let names = hidden_uuids(creature.neurons@);
            assert forall|s: int| 0 <= s < n implies (#[trigger] hidden_set@[s])
                == names.contains(slots.uuids@[s]@) by {
                if hidden@.contains(s as usize) {
                    let k = choose|k: int| 0 <= k < hidden@.len() && hidden@[k] == s as usize;
                    assert(names[k] == slots.uuids@[s]@);
                }
                if names.contains(slots.uuids@[s]@) {
                    let k = choose|k: int| 0 <= k < names.len() && names[k] == slots.uuids@[s]@;
                    assert(named(slots.uuids@, hidden@)[k] == slots.uuids@[hidden@[k] as int]@);
                    if hidden@[k] != s {
                        assert(slots.uuids@[hidden@[k] as int]@ != slots.uuids@[s]@);
                    }
                    assert(hidden@[k] == s as usize);
                }
            }
            assert forall|s: int| 0 <= s < n implies named(slots.uuids@, (#[trigger] out@[s])@)
                == target_uuids(creature.synapses@, slots.uuids@[s]@) by {
                lemma_targets_named(
                    *creature,
                    slots,
                    creature.synapses@,
                    slots.from@,
                    slots.to@,
                    s,
                );
            }
            assert forall|s: int| 0 <= s < n implies named(
                slots.uuids@,
                (#[trigger] incoming@[s])@,
            ) == source_uuids(creature.synapses@, slots.uuids@[s]@) by {
                lemma_targets_named(
                    *creature,
                    slots,
                    creature.synapses@,
                    slots.from@,
                    slots.to@,
                    s,
                );
            }
        }
        Topology { uuids: slots.uuids, hidden, hidden_set, out, incoming }
    }

    /// What a slot feeds.
    pub fn targets(&self, slot: usize) -> (r: &Vec<usize>)
        requires
            self.well_formed(),
            slot < self.uuids@.len(),
        ensures
            r@ == self.out@[slot as int]@,
    {
        &self.out[slot]
    }

    /// What feeds a slot.
    pub fn sources(&self, slot: usize) -> (r: &Vec<usize>)
        requires
            self.well_formed(),
            slot < self.uuids@.len(),
        ensures
            r@ == self.incoming@[slot as int]@,
    {
        &self.incoming[slot]
    }

    /// The hidden neuron that a slot alone feeds, when it feeds nothing else.
    pub fn chain_link(&self, slot: usize) -> (r: Option<usize>)
        requires
            self.well_formed(),
            slot < self.uuids@.len(),
        ensures
            r == self.link(slot),
            r matches Some(next) ==> next < self.uuids@.len(),
    {
        let targets = self.targets(slot);
        if targets.len() != 1 {
            return None;
        }
        let next: usize = targets[0];
        assert(self.out@[slot as int]@[0] < self.uuids@.len());
        if !self.hidden_set[next] {
            return None;
        }
        let sources = self.sources(next);
        if sources.len() == 1 && sources[0] == slot {
            Some(next)
        } else {
            None
        }
    }

    fn is_linked_into(&self, slot: usize) -> (r: bool)
        requires
            self.well_formed(),
        ensures
            r == self.linked_into(slot),
    {
        let mut i: usize = 0;
        while i < self.hidden.len()
            invariant
                self.well_formed(),
                i <= self.hidden@.len(),
                forall|k: int|
                    0 <= k < i ==> self.link(#[trigger] self.hidden@[k]) != Some(slot),
            decreases self.hidden.len() - i,
        {
            assert(self.hidden@[i as int] < self.uuids@.len());
            match self.chain_link(self.hidden[i]) {
                Some(next) => {
                    if next == slot {
                        return true;
                    }
                },
                None => {},
            }
            i += 1;
        }
        false
    }

    /// The maximal runs of exclusively linked hidden neurons, head first, cut
    /// to `max_size`.
    pub fn chains(&self, max_size: usize) -> (r: Vec<Vec<usize>>)
        requires
            self.well_formed(),
        ensures
            slot_lists(r@) == self.chains_from(self.hidden@, max_size as int),
            slots_below(r@, self.uuids@.len() as int),
    {
        let mut out: Vec<Vec<usize>> = Vec::new();
        let mut i: usize = 0;
        assert(slot_lists(out@) =~= Seq::<Seq<usize>>::empty());
        while i < self.hidden.len()
            invariant
                self.well_formed(),
                i <= self.hidden@.len(),
                slot_lists(out@) == self.chains_from(
                    self.hidden@.take(i as int),
                    max_size as int,
                ),
                slots_below(out@, self.uuids@.len() as int),
            decreases self.hidden.len() - i,
        {
            let head: usize = self.hidden[i];
            let ghost before = out@;
            proof {
                assert(self.hidden@[i as int] < self.uuids@.len());
                assert(self.hidden@.take(i + 1).drop_last() =~= self.hidden@.take(i as int));
            }
            if !self.is_linked_into(head) {
                let members = self.walk_chain(head, max_size);
                if members.len() >= MIN_NEIGHBOURHOOD_SIZE {
                    out.push(members);
                    proof {
                        assert(slot_lists(out@) =~= slot_lists(before).push(members@));
                        lemma_push_below(before, members, self.uuids@.len() as int);
                    }
                }
            }
            i += 1;
        }
        assert(self.hidden@.take(i as int) =~= self.hidden@);
        out
    }

    fn walk_chain(&self, head: usize, max_size: usize) -> (members: Vec<usize>)
        requires
            self.well_formed(),
            head < self.uuids@.len(),
        ensures
            members@ == self.chain_from(seq![head], max_size as int),
            forall|k: int| 0 <= k < members@.len() ==> (#[trigger] members@[k]) < self.uuids@.len(),
    {
        let mut members: Vec<usize> = Vec::new();
        members.push(head);
        assert(members@ =~= seq![head]);
        while members.len() < max_size
            invariant
                self.well_formed(),
                members@.len() > 0,
                self.chain_from(members@, max_size as int) == self.chain_from(
                    seq![head],
                    max_size as int,
                ),
                forall|k: int|
                    0 <= k < members@.len() ==> (#[trigger] members@[k]) < self.uuids@.len(),
            decreases max_size - members.len(),
        {
            let last: usize = members[members.len() - 1];
            match self.chain_link(last) {
                None => {
                    return members;
                },
                Some(next) => {
                    if holds_slot(&members, next) {
                        return members;
                    }
                    members.push(next);
                },
            }
        }
        members
    }

    fn is_admitted(&self, growth: &Growth, members: &Vec<usize>, x: usize) -> (r: bool)
        requires
            self.well_formed(),
            x < self.uuids@.len(),
            growth matches Growth::Cluster { effects, loudest } ==> effects@.len()
                == self.uuids@.len(),
        ensures
            r == self.admits(*growth, members@, x),
    {
        if !self.hidden_set[x] || holds_slot(members, x) {
            return false;
        }
        match growth {
            Growth::Branch => {
                let mut k: usize = 0;
                while k < self.out[x].len()
                    invariant
                        *growth is Branch,
                        self.well_formed(),
                        x < self.uuids@.len(),
                        k <= self.out@[x as int]@.len(),
                        forall|j: int|
                            0 <= j < k ==> members@.contains(
                                #[trigger] self.out@[x as int]@[j],
                            ),
                    decreases self.out@[x as int]@.len() - k,
                {
                    if !holds_slot(members, self.out[x][k]) {
                        return false;
                    }
                    k += 1;
                }
                true
            },
            Growth::Cluster { effects, loudest } => match effects[x] {
                Some(effect) => !loudest.lt(effect),
                None => false,
            },
        }
    }

    fn absorb(
        &self,
        growth: &Growth,
        members: &mut Vec<usize>,
        found: &Vec<usize>,
        max_size: usize,
    )
        requires
            self.well_formed(),
            forall|k: int| 0 <= k < found@.len() ==> (#[trigger] found@[k]) < self.uuids@.len(),
            forall|k: int|
                0 <= k < old(members)@.len() ==> (#[trigger] old(members)@[k]) < self.uuids@.len(),
            growth matches Growth::Cluster { effects, loudest } ==> effects@.len()
                == self.uuids@.len(),
        ensures
            final(members)@ == self.absorbed(
                *growth,
                old(members)@,
                found@,
                max_size as int,
            ),
            final(members)@.len() >= old(members)@.len(),
            forall|k: int|
                0 <= k < final(members)@.len() ==> (#[trigger] final(members)@[k])
                    < self.uuids@.len(),
    {
        let mut k: usize = 0;
        let ghost start = members@;
        assert(found@.skip(0) =~= found@);
        while k < found.len() && members.len() < max_size
            invariant
                self.well_formed(),
                k <= found@.len(),
                growth matches Growth::Cluster { effects, loudest } ==> effects@.len()
                    == self.uuids@.len(),
                forall|j: int|
                    0 <= j < found@.len() ==> (#[trigger] found@[j]) < self.uuids@.len(),
                forall|j: int|
                    0 <= j < members@.len() ==> (#[trigger] members@[j]) < self.uuids@.len(),
                members@.len() >= start.len(),
                self.absorbed(*growth, members@, found@.skip(k as int), max_size as int)
                    == self.absorbed(*growth, start, found@, max_size as int),
            decreases found.len() - k,
        {
            let x: usize = found[k];
            proof {
                assert(found@[k as int] < self.uuids@.len());
                assert(found@.skip(k as int)[0] == x);
                assert(found@.skip(k as int).drop_first() =~= found@.skip(k + 1));
            }
            if self.is_admitted(growth, members, x) {
                members.push(x);
            }
            k += 1;
        }
    }

    fn grow(&self, growth: &Growth, root: usize, max_size: usize) -> (members: Vec<usize>)
        requires
            self.well_formed(),
            root < self.uuids@.len(),
            growth matches Growth::Cluster { effects, loudest } ==> effects@.len()
                == self.uuids@.len(),
        ensures
            members@ == self.grown(*growth, seq![root], 0, max_size as int),
            forall|k: int|
                0 <= k < members@.len() ==> (#[trigger] members@[k]) < self.uuids@.len(),
    {
        let mut members: Vec<usize> = Vec::new();
        members.push(root);
        assert(members@ =~= seq![root]);
        let mut frontier: usize = 0;
        while frontier < members.len() && members.len() < max_size
            invariant
                self.well_formed(),
                frontier <= members@.len(),
                growth matches Growth::Cluster { effects, loudest } ==> effects@.len()
                    == self.uuids@.len(),
                forall|j: int|
                    0 <= j < members@.len() ==> (#[trigger] members@[j]) < self.uuids@.len(),
                self.grown(*growth, members@, frontier as int, max_size as int) == self.grown(
                    *growth,
                    seq![root],
                    0,
                    max_size as int,
                ),
            decreases max_size - frontier,
        {
            let current: usize = members[frontier];
            assert(members@[frontier as int] < self.uuids@.len());
            let found = self.look_around(growth, current);
            let ghost before = members@;
            self.absorb(growth, &mut members, &found, max_size);
            frontier += 1;
        }
        members
    }

    fn look_around(&self, growth: &Growth, slot: usize) -> (found: Vec<usize>)
        requires
            self.well_formed(),
            slot < self.uuids@.len(),
        ensures
            found@ == self.around(*growth, slot),
            forall|k: int| 0 <= k < found@.len() ==> (#[trigger] found@[k]) < self.uuids@.len(),
    {
        let sources = crate::list::copy_slots(&self.incoming[slot]);
        match growth {
            Growth::Branch => sources,
            Growth::Cluster { effects, loudest } => {
                let mut found = crate::list::copy_slots(&self.out[slot]);
                let mut k: usize = 0;
                assert(found@ =~= self.out@[slot as int]@ + sources@.take(0));
                while k < sources.len()
                    invariant
                        k <= sources@.len(),
                        found@ == self.out@[slot as int]@ + sources@.take(k as int),
                    decreases sources.len() - k,
                {
                    found.push(sources[k]);
                    k += 1;
                    assert(found@ =~= self.out@[slot as int]@ + sources@.take(k as int));
                }
                assert(sources@.take(k as int) =~= sources@);
                proof {
                    let targets = self.out@[slot as int]@;
                    assert forall|k: int| 0 <= k < found@.len() implies (#[trigger] found@[k])
                        < self.uuids@.len() by {
                        if k < targets.len() {
                            assert(self.out@[slot as int]@[k] < self.uuids@.len());
                        } else {
                            assert(self.incoming@[slot as int]@[k - targets.len()]
                                < self.uuids@.len());
                        }
                    }
                }
                found
            },
        }
    }

    /// Groups that feed a single hidden neuron and nothing else, root last.
    pub fn branches(&self, max_size: usize) -> (r: Vec<Vec<usize>>)
        requires
            self.well_formed(),
        ensures
            slot_lists(r@) == self.branches_from(self.hidden@, max_size as int),
            slots_below(r@, self.uuids@.len() as int),
    {
        let mut out: Vec<Vec<usize>> = Vec::new();
        let mut i: usize = 0;
        assert(slot_lists(out@) =~= Seq::<Seq<usize>>::empty());
        while i < self.hidden.len()
            invariant
                self.well_formed(),
                i <= self.hidden@.len(),
                slot_lists(out@) == self.branches_from(
                    self.hidden@.take(i as int),
                    max_size as int,
                ),
                slots_below(out@, self.uuids@.len() as int),
            decreases self.hidden.len() - i,
        {
            let root: usize = self.hidden[i];
            let ghost before = out@;
            proof {
                assert(self.hidden@[i as int] < self.uuids@.len());
                assert(self.hidden@.take(i + 1).drop_last() =~= self.hidden@.take(i as int));
            }
            if self.out[root].len() == 1 {
                let members = self.grow(&Growth::Branch, root, max_size);
                if members.len() >= MIN_NEIGHBOURHOOD_SIZE {
                    let group = reversed(members);
                    out.push(group);
                    proof {
                        assert(slot_lists(out@) =~= slot_lists(before).push(group@));
                        assert forall|k: int| 0 <= k < group@.len() implies (#[trigger] group@[k])
                            < self.uuids@.len() by {
                            assert(members@[members@.len() - 1 - k] < self.uuids@.len());
                        }
                        lemma_push_below(before, group, self.uuids@.len() as int);
                    }
                }
            }
            i += 1;
        }
        assert(self.hidden@.take(i as int) =~= self.hidden@);
        out
    }

    /// Connected groups around each measured hidden neuron, none of whose
    /// members is louder than it.
    pub fn clusters(&self, max_size: usize, effects: &Vec<Option<Measure>>) -> (r: Vec<
        Vec<usize>,
    >)
        requires
            self.well_formed(),
            effects@.len() == self.uuids@.len(),
        ensures
            slot_lists(r@) == self.clusters_from(self.hidden@, effects, max_size as int),
            slots_below(r@, self.uuids@.len() as int),
    {
        let mut out: Vec<Vec<usize>> = Vec::new();
        let mut i: usize = 0;
        assert(slot_lists(out@) =~= Seq::<Seq<usize>>::empty());
        while i < self.hidden.len()
            invariant
                self.well_formed(),
                effects@.len() == self.uuids@.len(),
                i <= self.hidden@.len(),
                slot_lists(out@) == self.clusters_from(
                    self.hidden@.take(i as int),
                    effects,
                    max_size as int,
                ),
                slots_below(out@, self.uuids@.len() as int),
            decreases self.hidden.len() - i,
        {
            let seed: usize = self.hidden[i];
            let ghost before = out@;
            proof {
                assert(self.hidden@[i as int] < self.uuids@.len());
                assert(self.hidden@.take(i + 1).drop_last() =~= self.hidden@.take(i as int));
            }
            match effects[seed] {
                Some(loudest) => {
                    let members = self.grow(
                        &Growth::Cluster { effects, loudest },
                        seed,
                        max_size,
                    );
                    if members.len() >= MIN_NEIGHBOURHOOD_SIZE {
                        out.push(members);
                        proof {
                            assert(slot_lists(out@) =~= slot_lists(before).push(members@));
                            lemma_push_below(before, members, self.uuids@.len() as int);
                        }
                    }
                },
                None => {},
            }
            i += 1;
        }
        assert(self.hidden@.take(i as int) =~= self.hidden@);
        out
    }
}

proof fn lemma_push_below(lists: Seq<Vec<usize>>, list: Vec<usize>, n: int)
    requires
        slots_below(lists, n),
        forall|k: int| 0 <= k < list@.len() ==> (#[trigger] list@[k]) < n,
    ensures
        slots_below(lists.push(list), n),
{
    let all = lists.push(list);
    assert forall|s: int, k: int| 0 <= s < all.len() && 0 <= k < all[s]@.len() implies (
    #[trigger] all[s]@[k]) < n by {
        if s < lists.len() {
            assert(all[s] == lists[s]);
        }
    }
}

/// No slot stands twice in the list.
pub open spec fn distinct_slots(list: Seq<usize>) -> bool {
    forall|i: int, j: int|
        #![trigger list[i], list[j]]
        0 <= i < j < list.len() ==> list[i] != list[j]
}

impl Topology {
    /// A run of hidden neurons, each the only one to feed the next and feeding
    /// nothing else.
    pub open spec fn is_chain(self, members: Seq<usize>) -> bool {
        &&& distinct_slots(members)
        &&& forall|i: int|
            0 <= i < members.len() ==> self.hidden_set@[(#[trigger] members[i]) as int]
        &&& forall|i: int|
            1 <= i < members.len() ==> self.link(members[i - 1]) == Some(#[trigger] members[i])
    }

    /// What holds of a group while it grows: hidden neurons, none twice, each
    /// but the first next to an earlier one and admissible.
    pub open spec fn is_group(self, growth: Growth, members: Seq<usize>) -> bool {
        &&& distinct_slots(members)
        &&& forall|i: int|
            0 <= i < members.len() ==> self.hidden_set@[(#[trigger] members[i]) as int]
        &&& forall|i: int|
            1 <= i < members.len() ==> self.beside(growth, members, #[trigger] members[i], i)
        &&& forall|i: int|
            1 <= i < members.len() ==> self.fits(growth, members, #[trigger] members[i])
    }

    /// `x` stands next to one of the first `before` members.
    pub open spec fn beside(self, growth: Growth, members: Seq<usize>, x: usize, before: int) -> bool {
        exists|j: int|
            0 <= j < before && self.around(growth, #[trigger] members[j]).contains(x)
    }

    /// A branch member feeds members only; a cluster member was measured and
    /// is no louder than the first one.
    pub open spec fn fits(self, growth: Growth, members: Seq<usize>, x: usize) -> bool {
        match growth {
            Growth::Branch => forall|k: int|
                0 <= k < self.out@[x as int]@.len() ==> members.contains(
                    #[trigger] self.out@[x as int]@[k],
                ),
            Growth::Cluster { effects, loudest } => match effects@[x as int] {
                Some(effect) => !loudest.below(effect),
                None => false,
            },
        }
    }
}

proof fn lemma_chain_from(t: Topology, members: Seq<usize>, max: int)
    requires
        members.len() > 0,
        t.is_chain(members),
    ensures
        t.is_chain(t.chain_from(members, max)),
        t.chain_from(members, max).len() >= members.len(),
        t.chain_from(members, max).len() <= max || t.chain_from(members, max) == members,
        t.chain_from(members, max)[0] == members[0],
    decreases max - members.len(),
{
    if members.len() < max {
        match t.link(members.last()) {
            Some(next) => {
                if !members.contains(next) {
                    let more = members.push(next);
                    assert(t.is_chain(more)) by {
                        assert forall|i: int| 1 <= i < more.len() implies t.link(more[i - 1])
                            == Some(#[trigger] more[i]) by {
                            if i < members.len() {
                                assert(more[i] == members[i]);
                            }
                        }
                    }
                    lemma_chain_from(t, more, max);
                }
            },
            None => {},
        }
    }
}

/// Every chain is a run of exclusive links between distinct hidden neurons,
/// two members at least and `max` at most, and nothing links into its head.
pub proof fn law_chains_are_chains(t: Topology, heads: Seq<usize>, max: int, c: int)
    requires
        forall|i: int| 0 <= i < heads.len() ==> t.hidden_set@[(#[trigger] heads[i]) as int],
        0 <= c < t.chains_from(heads, max).len(),
    ensures
        t.is_chain(t.chains_from(heads, max)[c]),
        MIN_NEIGHBOURHOOD_SIZE <= t.chains_from(heads, max)[c].len() <= max,
        !t.linked_into(t.chains_from(heads, max)[c][0]),
        heads.contains(t.chains_from(heads, max)[c][0]),
    decreases heads.len(),
{
    let init = heads.drop_last();
    let earlier = t.chains_from(init, max);
    let start = seq![heads.last()];
    assert(t.hidden_set@[heads[heads.len() - 1] as int]);
    assert(t.is_chain(start));
    lemma_chain_from(t, start, max);
    assert forall|i: int| 0 <= i < init.len() implies t.hidden_set@[(
    #[trigger] init[i]) as int] by {
        assert(init[i] == heads[i]);
    }
    if c < earlier.len() {
        law_chains_are_chains(t, init, max, c);
        let h = t.chains_from(heads, max)[c][0];
        let k = choose|k: int| 0 <= k < init.len() && init[k] == h;
        assert(heads[k] == h);
    } else {
        assert(heads[heads.len() - 1] == heads.last());
    }
}

proof fn lemma_absorbed(
    t: Topology,
    growth: Growth,
    members: Seq<usize>,
    found: Seq<usize>,
    max: int,
    from: int,
)
    requires
        t.is_group(growth, members),
        0 <= from < members.len(),
        forall|k: int|
            0 <= k < found.len() ==> t.around(growth, members[from]).contains(
                #[trigger] found[k],
            ),
    ensures
        t.is_group(growth, t.absorbed(growth, members, found, max)),
        members.is_prefix_of(t.absorbed(growth, members, found, max)),
        t.absorbed(growth, members, found, max).len() <= max || t.absorbed(
            growth,
            members,
            found,
            max,
        ) == members,
    decreases found.len(),
{
    if found.len() > 0 && members.len() < max {
        let x = found[0];
        let rest = found.drop_first();
        assert forall|k: int| 0 <= k < rest.len() implies t.around(
            growth,
            members[from],
        ).contains(#[trigger] rest[k]) by {
            assert(rest[k] == found[k + 1]);
        }
        if t.admits(growth, members, x) {
            let more = members.push(x);
            assert(t.is_group(growth, more)) by {
                assert forall|i: int| 1 <= i < more.len() implies t.beside(
                    growth,
                    more,
                    #[trigger] more[i],
                    i,
                ) && t.fits(growth, more, more[i]) by {
                    if i < members.len() {
                        assert(t.beside(growth, members, members[i], i));
                        let j = choose|j: int|
                            0 <= j < i && t.around(growth, #[trigger] members[j]).contains(
                                members[i],
                            );
                        assert(more[j] == members[j]);
                        assert(t.fits(growth, members, members[i]));
                        if growth is Branch {
                            assert forall|k: int|
                                0 <= k < t.out@[more[i] as int]@.len() implies more.contains(
                                #[trigger] t.out@[more[i] as int]@[k],
                            ) by {
                                let y = t.out@[members[i] as int]@[k];
                                assert(members.contains(y));
                                let p = choose|p: int| 0 <= p < members.len() && members[p] == y;
                                assert(more[p] == y);
                            }
                        }
                    } else {
                        assert(found[0] == x);
                        assert(more[from] == members[from]);
                        if growth is Branch {
                            assert forall|k: int|
                                0 <= k < t.out@[x as int]@.len() implies more.contains(
                                #[trigger] t.out@[x as int]@[k],
                            ) by {
                                let y = t.out@[x as int]@[k];
                                assert(members.contains(y));
                                let p = choose|p: int| 0 <= p < members.len() && members[p] == y;
                                assert(more[p] == y);
                            }
                        }
                    }
                }
            }
            assert(more[from] == members[from]);
            lemma_absorbed(t, growth, more, rest, max, from);
            let all = t.absorbed(growth, more, rest, max);
            assert(members.is_prefix_of(all)) by {
                assert(more.is_prefix_of(all));
                assert(members =~= all.subrange(0, members.len() as int)) by {
                    assert(more =~= all.subrange(0, more.len() as int));
                    assert forall|i: int| 0 <= i < members.len() implies members[i]
                        == all[i] by {
                        assert(more[i] == all.subrange(0, more.len() as int)[i]);
                    }
                }
            }
        } else {
            lemma_absorbed(t, growth, members, rest, max, from);
        }
    } else {
        assert(members =~= members.subrange(0, members.len() as int));
    }
}

proof fn lemma_grown(t: Topology, growth: Growth, members: Seq<usize>, frontier: int, max: int)
    requires
        t.is_group(growth, members),
        members.len() > 0,
        0 <= frontier,
    ensures
        t.is_group(growth, t.grown(growth, members, frontier, max)),
        t.grown(growth, members, frontier, max).len() >= members.len(),
        t.grown(growth, members, frontier, max)[0] == members[0],
        t.grown(growth, members, frontier, max).len() <= max || t.grown(
            growth,
            members,
            frontier,
            max,
        ) == members,
    decreases max - frontier,
{
    if frontier < members.len() && members.len() < max {
        let found = t.around(growth, members[frontier]);
        lemma_absorbed(t, growth, members, found, max, frontier);
        let more = t.absorbed(growth, members, found, max);
        assert(more.subrange(0, members.len() as int)[0] == members[0]);
        lemma_grown(t, growth, more, frontier + 1, max);
    }
}

/// Every cluster is a connected group of distinct hidden neurons, two at least
/// and `max` at most, that starts at a measured seed and holds no member
/// louder than it.
pub proof fn law_clusters_are_clusters(
    t: Topology,
    seeds: Seq<usize>,
    effects: &Vec<Option<Measure>>,
    max: int,
    c: int,
)
    requires
        forall|i: int| 0 <= i < seeds.len() ==> t.hidden_set@[(#[trigger] seeds[i]) as int],
        0 <= c < t.clusters_from(seeds, effects, max).len(),
    ensures
        ({
            let group = t.clusters_from(seeds, effects, max)[c];
            &&& MIN_NEIGHBOURHOOD_SIZE <= group.len() <= max
            &&& seeds.contains(group[0])
            &&& effects@[group[0] as int] matches Some(loudest) && t.is_group(
                Growth::Cluster { effects, loudest },
                group,
            )
        }),
    decreases seeds.len(),
{
    let init = seeds.drop_last();
    let earlier = t.clusters_from(init, effects, max);
    assert forall|i: int| 0 <= i < init.len() implies t.hidden_set@[(
    #[trigger] init[i]) as int] by {
        assert(init[i] == seeds[i]);
    }
    if c < earlier.len() {
        law_clusters_are_clusters(t, init, effects, max, c);
        let h = earlier[c][0];
        let k = choose|k: int| 0 <= k < init.len() && init[k] == h;
        assert(seeds[k] == h);
    } else {
        let seed = seeds.last();
        assert(t.hidden_set@[seeds[seeds.len() - 1] as int]);
        let loudest = effects@[seed as int].unwrap();
        let growth = Growth::Cluster { effects, loudest };
        assert(t.is_group(growth, seq![seed]));
        lemma_grown(t, growth, seq![seed], 0, max);
        assert(seeds[seeds.len() - 1] == seed);
    }
}

/// Every branch is a group of distinct hidden neurons, two at least and `max`
/// at most; its root stands last and feeds a single target, and every other
/// member feeds members only.
pub proof fn law_branches_are_branches(t: Topology, roots: Seq<usize>, max: int, c: int)
    requires
        forall|i: int| 0 <= i < roots.len() ==> t.hidden_set@[(#[trigger] roots[i]) as int],
        0 <= c < t.branches_from(roots, max).len(),
    ensures
        ({
            let group = t.branches_from(roots, max)[c];
            &&& MIN_NEIGHBOURHOOD_SIZE <= group.len() <= max
            &&& roots.contains(group.last())
            &&& t.out@[group.last() as int]@.len() == 1
            &&& t.is_group(Growth::Branch, group.reverse())
        }),
    decreases roots.len(),
{
    let init = roots.drop_last();
    let earlier = t.branches_from(init, max);
    assert forall|i: int| 0 <= i < init.len() implies t.hidden_set@[(
    #[trigger] init[i]) as int] by {
        assert(init[i] == roots[i]);
    }
    if c < earlier.len() {
        law_branches_are_branches(t, init, max, c);
        let h = earlier[c].last();
        let k = choose|k: int| 0 <= k < init.len() && init[k] == h;
        assert(roots[k] == h);
    } else {
        let root = roots.last();
        assert(t.hidden_set@[roots[roots.len() - 1] as int]);
        assert(t.is_group(Growth::Branch, seq![root]));
        lemma_grown(t, Growth::Branch, seq![root], 0, max);
        let grown = t.grown(Growth::Branch, seq![root], 0, max);
        assert(grown.reverse().reverse() =~= grown);
        assert(roots[roots.len() - 1] == root);
    }
}

/// A chain starts at each given head that nothing links into and that is followed by
/// another neuron, in order.
pub proof fn law_chains_start_at_every_free_head(
    t: Topology,
    heads: Seq<usize>,
    max: int,
    marks: Seq<bool>,
)
    requires
        marks.len() == heads.len(),
        forall|i: int| 0 <= i < marks.len() ==> (#[trigger] marks[i]
            <==> ((forall|h: int| 0 <= h < t.hidden@.len()
                ==> t.link(#[trigger] t.hidden@[h]) != Some(heads[i]))
                    && t.chain_from(seq![heads[i]], max).len() >= 2)),
    ensures
        t.chains_from(heads, max).len() == true_places(marks).len(),
        forall|k: int|
            0 <= k < true_places(marks).len() ==> (#[trigger] t.chains_from(heads, max)[k])
                == t.chain_from(seq![heads[true_places(marks)[k]]], max),
    decreases heads.len(),
{
    if heads.len() > 0 {
        let init = heads.drop_last();
        let some = marks.drop_last();
        let n = heads.len() - 1;
        assert forall|i: int| 0 <= i < some.len() implies (#[trigger] some[i]
            <==> ((forall|h: int| 0 <= h < t.hidden@.len()
                ==> t.link(#[trigger] t.hidden@[h]) != Some(init[i]))
                    && t.chain_from(seq![init[i]], max).len() >= 2)) by {
            assert(some[i] == marks[i]);
            assert(init[i] == heads[i]);
        }
        law_chains_start_at_every_free_head(t, init, max, some);
        assert(marks[n] <==> ((forall|h: int| 0 <= h < t.hidden@.len()
            ==> t.link(#[trigger] t.hidden@[h]) != Some(heads[n]))
                && t.chain_from(seq![heads[n]], max).len() >= 2));
        law_true_places_ascend(some);
        let before = t.chains_from(init, max);
        let after = t.chains_from(heads, max);
        let was = true_places(some);
        let now = true_places(marks);
        assert forall|k: int| 0 <= k < now.len() implies (#[trigger] after[k])
            == t.chain_from(seq![heads[now[k]]], max) by {
            if k < was.len() {
                assert(now[k] == was[k]);
                assert(0 <= was[k] < some.len());
                assert(init[was[k]] == heads[was[k]]);
                assert(after[k] == before[k]);
            }
        }
    }
}

/// A branch grows from each given root that feeds a single target and takes in another
/// neuron, in order, the root last.
pub proof fn law_branches_grow_from_every_root(
    t: Topology,
    roots: Seq<usize>,
    max: int,
    marks: Seq<bool>,
)
    requires
        marks.len() == roots.len(),
        forall|i: int| 0 <= i < marks.len() ==> (#[trigger] marks[i]
            <==> (t.out@[roots[i] as int]@.len() == 1
                && t.grown(Growth::Branch, seq![roots[i]], 0, max).len() >= 2)),
    ensures
        t.branches_from(roots, max).len() == true_places(marks).len(),
        forall|k: int|
            0 <= k < true_places(marks).len() ==> (#[trigger] t.branches_from(roots, max)[k])
                == t.grown(Growth::Branch, seq![roots[true_places(marks)[k]]], 0, max).reverse(),
    decreases roots.len(),
{
    if roots.len() > 0 {
        let init = roots.drop_last();
        let some = marks.drop_last();
        let n = roots.len() - 1;
        assert forall|i: int| 0 <= i < some.len() implies (#[trigger] some[i]
            <==> (t.out@[init[i] as int]@.len() == 1
                && t.grown(Growth::Branch, seq![init[i]], 0, max).len() >= 2)) by {
            assert(some[i] == marks[i]);
            assert(init[i] == roots[i]);
        }
        law_branches_grow_from_every_root(t, init, max, some);
        assert(marks[n] <==> (t.out@[roots[n] as int]@.len() == 1
            && t.grown(Growth::Branch, seq![roots[n]], 0, max).len() >= 2));
        law_true_places_ascend(some);
        let before = t.branches_from(init, max);
        let after = t.branches_from(roots, max);
        let was = true_places(some);
        let now = true_places(marks);
        assert forall|k: int| 0 <= k < now.len() implies (#[trigger] after[k])
            == t.grown(Growth::Branch, seq![roots[now[k]]], 0, max).reverse() by {
            if k < was.len() {
                assert(now[k] == was[k]);
                assert(0 <= was[k] < some.len());
                assert(init[was[k]] == roots[was[k]]);
                assert(after[k] == before[k]);
            }
        }
    }
}

/// A cluster grows from each given seed that was measured and takes in another neuron,
/// in order, the seed first.
pub proof fn law_clusters_grow_from_every_measured_seed(
    t: Topology,
    seeds: Seq<usize>,
    effects: &Vec<Option<Measure>>,
    max: int,
    marks: Seq<bool>,
)
    requires
        marks.len() == seeds.len(),
        forall|i: int| 0 <= i < marks.len() ==> (#[trigger] marks[i]
            <==> (effects@[seeds[i] as int] is Some
                && t.grown(Growth::Cluster { effects, loudest: effects@[seeds[i] as int]->0 },
                    seq![seeds[i]], 0, max).len() >= 2)),
    ensures
        t.clusters_from(seeds, effects, max).len() == true_places(marks).len(),
        forall|k: int|
            0 <= k < true_places(marks).len()
                ==> (#[trigger] t.clusters_from(seeds, effects, max)[k])
                    == t.grown(Growth::Cluster { effects,
                        loudest: effects@[seeds[true_places(marks)[k]] as int]->0 },
                            seq![seeds[true_places(marks)[k]]], 0, max),
    decreases seeds.len(),
{
    if seeds.len() > 0 {
        let init = seeds.drop_last();
        let some = marks.drop_last();
        let n = seeds.len() - 1;
        assert forall|i: int| 0 <= i < some.len() implies (#[trigger] some[i]
            <==> (effects@[init[i] as int] is Some
                && t.grown(Growth::Cluster { effects, loudest: effects@[init[i] as int]->0 },
                    seq![init[i]], 0, max).len() >= 2)) by {
            assert(some[i] == marks[i]);
            assert(init[i] == seeds[i]);
        }
        law_clusters_grow_from_every_measured_seed(t, init, effects, max, some);
        assert(marks[n] <==> (effects@[seeds[n] as int] is Some
            && t.grown(Growth::Cluster { effects, loudest: effects@[seeds[n] as int]->0 },
                seq![seeds[n]], 0, max).len() >= 2));
        law_true_places_ascend(some);
        let before = t.clusters_from(init, effects, max);
        let after = t.clusters_from(seeds, effects, max);
        let was = true_places(some);
        let now = true_places(marks);
        assert forall|k: int| 0 <= k < now.len() implies (#[trigger] after[k])
            == t.grown(Growth::Cluster { effects, loudest: effects@[seeds[now[k]] as int]->0 },
                seq![seeds[now[k]]], 0, max) by {
            if k < was.len() {
                assert(now[k] == was[k]);
                assert(0 <= was[k] < some.len());
                assert(init[was[k]] == seeds[was[k]]);
                assert(after[k] == before[k]);
            }
        }
    }
}

/// One neuron links to another exactly if it feeds that one and nothing else, and
/// that one is hidden and is fed by it and nothing else.
pub proof fn law_links_are_exclusive(t: Topology, s: usize, next: usize)
    ensures
        t.link(s) == Some(next) <==> t.out@[s as int]@ == seq![next] && t.hidden_set@[next as int]
            && t.incoming@[next as int]@ == seq![s],
{
    if t.link(s) == Some(next) {
        assert(t.out@[s as int]@ =~= seq![next]);
        assert(t.incoming@[next as int]@ =~= seq![s]);
    }
}

/// A chain goes on link by link from what it starts with, and ends only where it is
/// as long as allowed, nothing is linked to, or the link leads back.
pub proof fn law_chains_go_on_as_far_as_they_can(t: Topology, members: Seq<usize>, max: int)
    requires
        0 < members.len() <= max,
    ensures
        ({
            let chain = t.chain_from(members, max);
            &&& members.len() <= chain.len() <= max
            &&& forall|i: int| 0 <= i < members.len() ==> #[trigger] chain[i] == members[i]
            &&& forall|i: int|
                members.len() <= i < chain.len() ==> t.link(chain[i - 1]) == Some(
                    #[trigger] chain[i],
                )
            &&& chain.len() == max || t.link(chain.last()) is None || chain.contains(
                t.link(chain.last())->0,
            )
        }),
    decreases max - members.len(),
{
    if members.len() < max {
        if let Some(next) = t.link(members.last()) {
            if !members.contains(next) {
                let more = members.push(next);
                law_chains_go_on_as_far_as_they_can(t, more, max);
                let chain = t.chain_from(members, max);
                assert(chain == t.chain_from(more, max));
                assert forall|i: int| 0 <= i < members.len() implies #[trigger] chain[i]
                    == members[i] by {
                    assert(more[i] == members[i]);
                }
                assert forall|i: int| members.len() <= i < chain.len() implies t.link(chain[i - 1])
                    == Some(#[trigger] chain[i]) by {
                    if i == members.len() {
                        assert(chain[i] == more[i]);
                        assert(chain[i - 1] == more[i - 1]);
                    }
                }
            }
        }
    }
}

spec fn admissible(t: Topology, effects: &Vec<Option<Measure>>, loudest: Measure,
    x: usize) -> bool {
    t.hidden_set@[x as int] && effects@[x as int] is Some && !loudest.below(
        effects@[x as int]->0,
    )
}

proof fn lemma_absorbed_takes_all(
    t: Topology,
    effects: &Vec<Option<Measure>>,
    loudest: Measure,
    members: Seq<usize>,
    found: Seq<usize>,
    max: int,
)
    ensures
        ({
            let growth = Growth::Cluster { effects, loudest };
            let r = t.absorbed(growth, members, found, max);
            &&& members.len() <= r.len()
            &&& forall|i: int| 0 <= i < members.len() ==> #[trigger] r[i] == members[i]
            &&& r.len() < max ==> forall|k: int|
                0 <= k < found.len() && admissible(t, effects, loudest, #[trigger] found[k])
                    ==> r.contains(found[k])
        }),
    decreases found.len(),
{
    let growth = Growth::Cluster { effects, loudest };
    if found.len() > 0 && members.len() < max {
        let rest = found.drop_first();
        let x = found[0];
        let more = if t.admits(growth, members, x) {
            members.push(x)
        } else {
            members
        };
        lemma_absorbed_takes_all(t, effects, loudest, more, rest, max);
        let r = t.absorbed(growth, members, found, max);
        assert(r == t.absorbed(growth, more, rest, max));
        assert forall|i: int| 0 <= i < members.len() implies #[trigger] r[i] == members[i] by {
            assert(more[i] == members[i]);
        }
        if r.len() < max {
            assert forall|k: int|
                0 <= k < found.len() && admissible(
                    t,
                    effects,
                    loudest,
                    #[trigger] found[k],
                ) implies r.contains(found[k]) by {
                if k > 0 {
                    assert(rest[k - 1] == found[k]);
                } else if members.contains(x) {
                    let i = choose|i: int| 0 <= i < members.len() && members[i] == x;
                    assert(r[i] == x);
                } else {
                    assert(more[members.len() as int] == x);
                    assert(r[members.len() as int] == x);
                }
            }
        }
    }
}

proof fn lemma_grown_takes_all(
    t: Topology,
    effects: &Vec<Option<Measure>>,
    loudest: Measure,
    members: Seq<usize>,
    frontier: int,
    max: int,
)
    requires
        0 <= frontier <= members.len(),
        forall|m: int, k: int|
            #![trigger t.around(Growth::Cluster { effects, loudest }, members[m])[k]]
            0 <= m < frontier && 0 <= k < t.around(
                Growth::Cluster { effects, loudest },
                members[m],
            ).len() && admissible(
                t,
                effects,
                loudest,
                t.around(Growth::Cluster { effects, loudest }, members[m])[k],
            ) ==> members.contains(
                t.around(Growth::Cluster { effects, loudest }, members[m])[k],
            ),
    ensures
        ({
            let growth = Growth::Cluster { effects, loudest };
            let r = t.grown(growth, members, frontier, max);
            &&& members.len() <= r.len()
            &&& forall|i: int| 0 <= i < members.len() ==> #[trigger] r[i] == members[i]
            &&& r.len() < max ==> forall|m: int, k: int|
                #![trigger t.around(growth, r[m])[k]]
                0 <= m < r.len() && 0 <= k < t.around(growth, r[m]).len() && admissible(
                    t,
                    effects,
                    loudest,
                    t.around(growth, r[m])[k],
                ) ==> r.contains(t.around(growth, r[m])[k])
        }),
    decreases max - frontier,
{
    let growth = Growth::Cluster { effects, loudest };
    if frontier < members.len() && members.len() < max {
        let found = t.around(growth, members[frontier]);
        let more = t.absorbed(growth, members, found, max);
        lemma_absorbed_takes_all(t, effects, loudest, members, found, max);
        let r = t.grown(growth, members, frontier, max);
        assert(r == t.grown(growth, more, frontier + 1, max));
        if more.len() < max {
            assert forall|m: int, k: int|
                #![trigger t.around(growth, more[m])[k]]
                0 <= m < frontier + 1 && 0 <= k < t.around(growth, more[m]).len() && admissible(
                    t,
                    effects,
                    loudest,
                    t.around(growth, more[m])[k],
                ) implies more.contains(t.around(growth, more[m])[k]) by {
                let x = t.around(growth, more[m])[k];
                assert(more[m] == members[m]);
                if m < frontier {
                    assert(x == t.around(growth, members[m])[k]);
                    let i = choose|i: int| 0 <= i < members.len() && members[i] == x;
                    assert(more[i] == x);
                } else {
                    assert(found[k] == x);
                }
            }
            lemma_grown_takes_all(t, effects, loudest, more, frontier + 1, max);
        } else {
            assert(r == more);
        }
        assert forall|i: int| 0 <= i < members.len() implies #[trigger] r[i] == members[i] by {
            assert(more[i] == members[i]);
            assert(r[i] == more[i]);
        }
    }
}

/// A cluster stops growing only when it is full: as long as it is not, it holds every
/// hidden neuron that a member feeds or is fed by, that was measured, and is no
/// louder than the seed.
pub proof fn law_clusters_take_in_every_quiet_neighbour(
    t: Topology,
    effects: &Vec<Option<Measure>>,
    seed: usize,
    max: int,
    m: int,
    x: usize,
)
    requires
        effects@[seed as int] is Some,
        !effects@[seed as int]->0.nan(),
        ({
            let group = t.grown(
                Growth::Cluster { effects, loudest: effects@[seed as int]->0 },
                seq![seed],
                0,
                max,
            );
            &&& group.len() < max
            &&& 0 <= m < group.len()
            &&& t.out@[group[m] as int]@.contains(x) || t.incoming@[group[m] as int]@.contains(x)
        }),
        t.hidden_set@[x as int],
        effects@[x as int] is Some,
        !effects@[x as int]->0.nan(),
        effects@[x as int]->0.position() <= effects@[seed as int]->0.position(),
    ensures
        t.grown(
            Growth::Cluster { effects, loudest: effects@[seed as int]->0 },
            seq![seed],
            0,
            max,
        ).contains(x),
{
    let loudest = effects@[seed as int]->0;
    let growth = Growth::Cluster { effects, loudest };
    let group = t.grown(growth, seq![seed], 0, max);
    lemma_grown_takes_all(t, effects, loudest, seq![seed], 0, max);
    let s = group[m] as int;
    let around = t.around(growth, group[m]);
    let k = if t.out@[s]@.contains(x) {
        choose|k: int| 0 <= k < t.out@[s]@.len() && t.out@[s]@[k] == x
    } else {
        t.out@[s]@.len() + choose|k: int|
            0 <= k < t.incoming@[s]@.len() && t.incoming@[s]@[k] == x
    };
    assert(around[k] == x);
    assert(admissible(t, effects, loudest, x));
    assert(group.contains(t.around(growth, group[m])[k]));
}

/// A branch looks at what feeds its members, and takes a hidden neuron in exactly if
/// it is none yet and feeds members only; a cluster looks at what its members feed
/// and what feeds them, and takes one in exactly if it was measured no louder than
/// the seed.
pub proof fn law_groups_take_in_what_belongs(
    t: Topology,
    effects: &Vec<Option<Measure>>,
    loudest: Measure,
    members: Seq<usize>,
    s: usize,
    x: usize,
)
    ensures
        t.around(Growth::Branch, s) == t.incoming@[s as int]@,
        t.around(Growth::Cluster { effects, loudest }, s) == t.out@[s as int]@
            + t.incoming@[s as int]@,
        t.admits(Growth::Branch, members, x) <==> t.hidden_set@[x as int] && !members.contains(x)
            && forall|k: int|
            0 <= k < t.out@[x as int]@.len() ==> members.contains(#[trigger] t.out@[x as int]@[k]),
        !loudest.nan() && effects@[x as int] is Some && !effects@[x as int]->0.nan() ==> (t.admits(
            Growth::Cluster { effects, loudest },
            members,
            x,
        ) <==> t.hidden_set@[x as int] && !members.contains(x)
            && effects@[x as int]->0.position() <= loudest.position()),
        effects@[x as int] is None ==> !t.admits(Growth::Cluster { effects, loudest }, members, x),
{
}

/// A group looks at the neighbours of its members in turn, and takes in those that
/// belong in the order in which it meets them, until it is full.
pub proof fn law_groups_grow_breadth_first(
    t: Topology,
    growth: Growth,
    members: Seq<usize>,
    frontier: int,
    x: usize,
    found: Seq<usize>,
    max: int,
)
    requires
        0 <= frontier < members.len(),
        members.len() < max,
    ensures
        t.grown(growth, members, frontier, max) == t.grown(
            growth,
            t.absorbed(growth, members, t.around(growth, members[frontier]), max),
            frontier + 1,
            max,
        ),
        t.absorbed(growth, members, Seq::empty(), max) == members,
        t.admits(growth, members, x) ==> t.absorbed(growth, members, seq![x] + found, max)
            == t.absorbed(growth, members.push(x), found, max),
        !t.admits(growth, members, x) ==> t.absorbed(growth, members, seq![x] + found, max)
            == t.absorbed(growth, members, found, max),
{
    assert((seq![x] + found).drop_first() =~= found);
}

} // verus!
