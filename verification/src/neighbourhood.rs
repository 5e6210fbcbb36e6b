//! Neighbourhoods of hidden neurons that are worth cutting together.
use vstd::prelude::*;

use crate::creature::{named, names_of};
use crate::list::{
    copy_slots, is_slot_subset, law_filter_picks_in_order, law_true_places_ascend,
    lemma_marked_is_filter, retain_marked, true_places,
};
use crate::measure::Measure;
use crate::sort::{
    in_order, law_sorted_is_a_permutation, law_sorted_is_in_order, sorted, stable_sort,
    well_ranked, Ranked,
};
use crate::sweep::{CandidateKind, SweepCandidate};
use crate::text::{
    decimal3, decimal3_text, is_list_below, join, joined, law_list_order_is_total,
    law_list_order_is_transitive, list_below, text_of, texts,
};
use crate::topology::{
    distinct_slots, law_branches_are_branches, law_chains_are_chains, law_clusters_are_clusters,
    slot_lists, Topology, MIN_NEIGHBOURHOOD_SIZE,
};

verus! {

/// Most members of a group, whatever is configured.
pub const MAX_NEIGHBOURHOOD_SIZE: usize = 8;

/// Members of a group when nothing is configured.
pub const DEFAULT_NEIGHBOURHOOD_SIZE: usize = 4;

/// Proposals per batch when nothing is configured.
pub const DEFAULT_NEIGHBOURHOOD_PROPOSALS: usize = 8;

/// The shape of a group.
#[derive(Clone, Copy, Debug, PartialEq, Eq, Structural)]
pub enum NeighbourhoodKind {
    /// A run of neurons, each the only one to feed the next.
    Chain,
    /// Neurons that feed a single root and nothing else.
    Branch,
    /// A connected group around a neuron, none louder than it.
    Cluster,
}

/// The name of a shape.
pub open spec fn kind_name(kind: NeighbourhoodKind) -> Seq<char> {
    match kind {
        NeighbourhoodKind::Chain => "chain"@,
        NeighbourhoodKind::Branch => "branch"@,
        NeighbourhoodKind::Cluster => "cluster"@,
    }
}

impl NeighbourhoodKind {
    /// The name of the shape, in lower case.
    pub fn name(self) -> (r: &'static str)
        ensures
            r@ == kind_name(self),
    {
        match self {
            NeighbourhoodKind::Chain => "chain",
            NeighbourhoodKind::Branch => "branch",
            NeighbourhoodKind::Cluster => "cluster",
        }
    }
}

/// How large groups may be and how many are proposed.
#[derive(Clone, Copy, Debug, PartialEq, Eq, Structural)]
pub struct NeighbourhoodConfig {
    /// Most members of a group.
    pub max_size: usize,
    /// Most proposals per batch.
    pub max_proposals: usize,
}

impl Default for NeighbourhoodConfig {
    fn default() -> (r: NeighbourhoodConfig)
        ensures
            r.max_size == DEFAULT_NEIGHBOURHOOD_SIZE,
            r.max_proposals == DEFAULT_NEIGHBOURHOOD_PROPOSALS,
    {
        NeighbourhoodConfig {
            max_size: DEFAULT_NEIGHBOURHOOD_SIZE,
            max_proposals: DEFAULT_NEIGHBOURHOOD_PROPOSALS,
        }
    }
}

impl NeighbourhoodConfig {
    /// The size within its bounds.
    pub open spec fn bounded_size(self) -> usize {
        if self.max_size < MIN_NEIGHBOURHOOD_SIZE {
            MIN_NEIGHBOURHOOD_SIZE
        } else if self.max_size > MAX_NEIGHBOURHOOD_SIZE {
            MAX_NEIGHBOURHOOD_SIZE
        } else {
            self.max_size
        }
    }

    /// The configured size, clamped to its bounds.
    pub fn effective_size(&self) -> (r: usize)
        ensures
            r == self.bounded_size(),
            MIN_NEIGHBOURHOOD_SIZE <= r <= MAX_NEIGHBOURHOOD_SIZE,
    {
        if self.max_size < MIN_NEIGHBOURHOOD_SIZE {
            MIN_NEIGHBOURHOOD_SIZE
        } else if self.max_size > MAX_NEIGHBOURHOOD_SIZE {
            MAX_NEIGHBOURHOOD_SIZE
        } else {
            self.max_size
        }
    }

    /// The same limits with room for groups that were tried before.
    pub fn deeper(&self, tried: usize) -> (r: NeighbourhoodConfig)
        ensures
            r.max_size == self.max_size,
            r.max_proposals == if self.max_proposals + tried <= usize::MAX {
                (self.max_proposals + tried) as usize
            } else {
                usize::MAX
            },
    {
        NeighbourhoodConfig {
            max_size: self.max_size,
            max_proposals: self.max_proposals.saturating_add(tried),
        }
    }
}

/// The measured effect of one neuron.
#[derive(Clone, Copy, Debug)]
pub struct NeuronEffect {
    /// The neuron's mean activation.
    pub mean: Measure,
    /// Its mean magnitude times its importance.
    pub effect: Measure,
}

/// The effect that counts.
pub open spec fn counted_effect(measured: Option<NeuronEffect>) -> Option<Measure> {
    if measured is Some && measured->0.mean.finite() && measured->0.effect.finite() {
        Some(measured->0.effect)
    } else {
        None
    }
}

/// A neuron's effect counts exactly if it was measured around a finite mean and is
/// finite itself, and it counts as it is.
pub proof fn law_only_finite_effects_count(measured: Option<NeuronEffect>)
    ensures
        counted_effect(measured) is Some <==> measured is Some && measured->0.mean.magnitude()
            < 0x7FF0_0000_0000_0000 && measured->0.effect.magnitude() < 0x7FF0_0000_0000_0000,
        counted_effect(measured) matches Some(effect) ==> effect == measured->0.effect,
{
}

/// The effect that counts: measured, around a finite mean, and finite.
pub fn effect_of(measured: Option<NeuronEffect>) -> (r: Option<Measure>)
    ensures
        r == match measured {
            Some(neuron) => if neuron.mean.finite() && neuron.effect.finite() {
                Some(neuron.effect)
            } else {
                None
            },
            None => None,
        },
        r == counted_effect(measured),
{
    match measured {
        Some(neuron) => {
            if neuron.mean.is_finite() && neuron.effect.is_finite() {
                Some(neuron.effect)
            } else {
                None
            }
        },
        None => None,
    }
}

/// A group before its cut is appraised.
pub struct Group {
    /// The shape of the group.
    pub kind: NeighbourhoodKind,
    /// The slots of its members.
    pub members: Vec<usize>,
    /// The largest effect among its members.
    pub effect: Measure,
}

/// `lists`, each with the same shape.
pub open spec fn tagged(
    kind: NeighbourhoodKind,
    lists: Seq<Seq<usize>>,
) -> Seq<(NeighbourhoodKind, Seq<usize>)> {
    Seq::new(lists.len(), |i: int| (kind, lists[i]))
}

/// Every chain, branch and cluster of a creature, in that order.
pub open spec fn all_groups(
    topology: Topology,
    effects: &Vec<Option<Measure>>,
    max: int,
) -> Seq<(NeighbourhoodKind, Seq<usize>)> {
    tagged(NeighbourhoodKind::Chain, topology.chains_from(topology.hidden@, max)) + tagged(
        NeighbourhoodKind::Branch,
        topology.branches_from(topology.hidden@, max),
    ) + tagged(
        NeighbourhoodKind::Cluster,
        topology.clusters_from(topology.hidden@, effects, max),
    )
}

/// Every member of the group has a measured effect.
pub open spec fn all_measured(members: Seq<usize>, effects: Seq<Option<Measure>>) -> bool {
    forall|k: int| 0 <= k < members.len() ==> effects[(#[trigger] members[k]) as int] is Some
}

/// The larger of two numbers; the first where they do not compare.
pub open spec fn larger(a: Measure, b: Measure) -> Measure {
    if a.below(b) {
        b
    } else {
        a
    }
}

/// The largest effect among the members, zero at least.
pub open spec fn loudest_of(members: Seq<usize>, effects: Seq<Option<Measure>>) -> Measure
    decreases members.len(),
{
    if members.len() == 0 {
        Measure { bits: 0 }
    } else {
        larger(
            loudest_of(members.drop_last(), effects),
            effects[members.last() as int].unwrap(),
        )
    }
}

/// No earlier group has the same members as the one at `at`.
pub open spec fn first_of_its_set(
    groups: Seq<(NeighbourhoodKind, Seq<usize>)>,
    at: int,
) -> bool {
    forall|j: int| 0 <= j < at ==> (#[trigger] groups[j]).1.to_set() != groups[at].1.to_set()
}

/// The groups worth appraising: each set of members once, under the shape that
/// found it first, and only where every member was measured.
pub open spec fn surveyed(
    groups: Seq<(NeighbourhoodKind, Seq<usize>)>,
    effects: Seq<Option<Measure>>,
) -> Seq<(NeighbourhoodKind, Seq<usize>, Measure)>
    decreases groups.len(),
{
    if groups.len() == 0 {
        Seq::empty()
    } else {
        let earlier = surveyed(groups.drop_last(), effects);
        let (kind, members) = groups.last();
        if first_of_its_set(groups, groups.len() - 1) && all_measured(members, effects) {
            earlier.push((kind, members, loudest_of(members, effects)))
        } else {
            earlier
        }
    }
}

/// What a list of groups holds.
pub open spec fn group_views(groups: Seq<Group>) -> Seq<(NeighbourhoodKind, Seq<usize>, Measure)> {
    Seq::new(groups.len(), |i: int| (groups[i].kind, groups[i].members@, groups[i].effect))
}

/// A shape and the members that it found.
struct Found {
    kind: NeighbourhoodKind,
    members: Vec<usize>,
}

spec fn found_views(found: Seq<Found>) -> Seq<(NeighbourhoodKind, Seq<usize>)> {
    Seq::new(found.len(), |i: int| (found[i].kind, found[i].members@))
}

fn add_found(found: &mut Vec<Found>, kind: NeighbourhoodKind, lists: &Vec<Vec<usize>>)
    ensures
        found_views(final(found)@) == found_views(old(found)@) + tagged(kind, slot_lists(lists@)),
{
    let ghost before = found_views(found@);
    let mut i: usize = 0;
    assert(before + tagged(kind, slot_lists(lists@)).take(0) =~= before);
    while i < lists.len()
        invariant
            i <= lists@.len(),
            found_views(found@) == before + tagged(kind, slot_lists(lists@)).take(i as int),
        decreases lists.len() - i,
    {
        let ghost so_far = found@;
        let members = copy_slots(&lists[i]);
        found.push(Found { kind, members });
        proof {
            let all = tagged(kind, slot_lists(lists@));
            assert(all[i as int] == (kind, lists@[i as int]@));
            assert(found_views(found@) =~= found_views(so_far).push((kind, members@)));
            assert(before + all.take(i + 1) =~= (before + all.take(i as int)).push(
                all[i as int],
            ));
        }
        i += 1;
    }
    assert(tagged(kind, slot_lists(lists@)).take(i as int) =~= tagged(kind, slot_lists(lists@)));
}

fn loudest(members: &Vec<usize>, effects: &Vec<Option<Measure>>) -> (r: Option<Measure>)
    requires
        forall|k: int| 0 <= k < members@.len() ==> (#[trigger] members@[k]) < effects@.len(),
    ensures
        r == if all_measured(members@, effects@) {
            Some(loudest_of(members@, effects@))
        } else {
            None
        },
{
    let mut worst = Measure::zero();
    let mut k: usize = 0;
    while k < members.len()
        invariant
            k <= members@.len(),
            forall|j: int| 0 <= j < members@.len() ==> (#[trigger] members@[j]) < effects@.len(),
            forall|j: int|
                0 <= j < k ==> effects@[(#[trigger] members@[j]) as int] is Some,
            worst == loudest_of(members@.take(k as int), effects@),
        decreases members.len() - k,
    {
        assert(members@[k as int] < effects@.len());
        assert(members@.take(k + 1).drop_last() =~= members@.take(k as int));
        match effects[members[k]] {
            Some(effect) => {
                if worst.lt(effect) {
                    worst = effect;
                }
            },
            None => {
                return None;
            },
        }
        k += 1;
    }
    assert(members@.take(k as int) =~= members@);
    Some(worst)
}

fn is_first_of_its_set(found: &Vec<Found>, at: usize) -> (r: bool)
    requires
        at < found@.len(),
    ensures
        r == first_of_its_set(found_views(found@), at as int),
{
    let mut j: usize = 0;
    while j < at
        invariant
            j <= at < found@.len(),
            forall|i: int|
                0 <= i < j ==> (#[trigger] found@[i]).members@.to_set()
                    != found@[at as int].members@.to_set(),
        decreases at - j,
    {
        if is_slot_subset(&found[j].members, &found[at].members) && is_slot_subset(
            &found[at].members,
            &found[j].members,
        ) {
            proof {
                let a = found@[j as int].members@.to_set();
                let b = found@[at as int].members@.to_set();
                assert(a =~= b);
                assert(found_views(found@)[j as int].1.to_set() == found_views(
                    found@,
                )[at as int].1.to_set());
            }
            return false;
        }
        j += 1;
    }
    assert forall|i: int| 0 <= i < at implies (#[trigger] found_views(found@)[i]).1.to_set()
        != found_views(found@)[at as int].1.to_set() by {
        assert(found@[i].members@.to_set() != found@[at as int].members@.to_set());
    }
    true
}

proof fn lemma_surveyed_prefix(
    groups: Seq<(NeighbourhoodKind, Seq<usize>)>,
    effects: Seq<Option<Measure>>,
    n: int,
)
    requires
        0 <= n < groups.len(),
    ensures
        surveyed(groups.take(n + 1), effects) == {
            let earlier = surveyed(groups.take(n), effects);
            let (kind, members) = groups[n];
            if first_of_its_set(groups, n) && all_measured(members, effects) {
                earlier.push((kind, members, loudest_of(members, effects)))
            } else {
                earlier
            }
        },
{
    let head = groups.take(n + 1);
    assert(head.drop_last() =~= groups.take(n));
    assert(head.last() == groups[n]);
    assert(first_of_its_set(head, n) == first_of_its_set(groups, n)) by {
        if first_of_its_set(head, n) {
            assert forall|j: int| 0 <= j < n implies (#[trigger] groups[j]).1.to_set()
                != groups[n].1.to_set() by {
                assert(head[j] == groups[j]);
            }
        }
        if first_of_its_set(groups, n) {
            assert forall|j: int| 0 <= j < n implies (#[trigger] head[j]).1.to_set()
                != head[n].1.to_set() by {
                assert(head[j] == groups[j]);
            }
        }
    }
}

/// Finds the groups worth appraising.
pub fn survey(
    topology: &Topology,
    cfg: NeighbourhoodConfig,
    effects: &Vec<Option<Measure>>,
) -> (r: Vec<Group>)
    requires
        topology.well_formed(),
        effects@.len() == topology.uuids@.len(),
    ensures
        group_views(r@) == surveyed(
            all_groups(*topology, effects, cfg.bounded_size() as int),
            effects@,
        ),
        forall|g: int, k: int|
            0 <= g < r@.len() && 0 <= k < r@[g].members@.len() ==> (
            #[trigger] r@[g].members@[k]) < topology.uuids@.len(),
{
    let max: usize = cfg.effective_size();
    let mut found: Vec<Found> = Vec::new();
    let chains = topology.chains(max);
    let branches = topology.branches(max);
    let clusters = topology.clusters(max, effects);
    add_found(&mut found, NeighbourhoodKind::Chain, &chains);
    add_found(&mut found, NeighbourhoodKind::Branch, &branches);
    add_found(&mut found, NeighbourhoodKind::Cluster, &clusters);
    let ghost n = topology.uuids@.len();
    let ghost all = all_groups(*topology, effects, max as int);
    proof {
        assert(found_views(found@) =~= all);
        assert forall|g: int, k: int|
            0 <= g < found@.len() && 0 <= k < found@[g].members@.len() implies (
        #[trigger] found@[g].members@[k]) < n by {
            assert(found_views(found@)[g] == (found@[g].kind, found@[g].members@));
            let a = chains@.len() as int;
            let b = branches@.len() as int;
            if g < a {
                assert(all[g].1 == chains@[g]@);
                assert(chains@[g]@[k] < n);
            } else if g < a + b {
                assert(all[g].1 == branches@[g - a]@);
                assert(branches@[g - a]@[k] < n);
            } else {
                assert(all[g].1 == clusters@[g - a - b]@);
                assert(clusters@[g - a - b]@[k] < n);
            }
        }
    }
    let mut out: Vec<Group> = Vec::new();
    let mut i: usize = 0;
    assert(group_views(out@) =~= surveyed(all.take(0), effects@));
    while i < found.len()
        invariant
            i <= found@.len(),
            found_views(found@) == all,
            n == effects@.len(),
            n == topology.uuids@.len(),
            forall|g: int, k: int|
                0 <= g < found@.len() && 0 <= k < found@[g].members@.len() ==> (
                #[trigger] found@[g].members@[k]) < n,
            group_views(out@) == surveyed(all.take(i as int), effects@),
            forall|g: int, k: int|
                0 <= g < out@.len() && 0 <= k < out@[g].members@.len() ==> (
                #[trigger] out@[g].members@[k]) < n,
        decreases found.len() - i,
    {
        let ghost before = out@;
        proof {
            lemma_surveyed_prefix(all, effects@, i as int);
            assert(all[i as int] == (found@[i as int].kind, found@[i as int].members@));
        }
        if is_first_of_its_set(&found, i) {
            match loudest(&found[i].members, effects) {
                Some(effect) => {
                    let members = copy_slots(&found[i].members);
                    let group = Group { kind: found[i].kind, members, effect };
                    out.push(group);
                    proof {
                        assert(group_views(out@) =~= group_views(before).push(
                            (group.kind, group.members@, group.effect),
                        ));
                        assert forall|g: int, k: int|
                            0 <= g < out@.len() && 0 <= k < out@[g].members@.len() implies (
                        #[trigger] out@[g].members@[k]) < n by {
                            if g < before.len() {
                                assert(out@[g] == before[g]);
                            } else {
                                assert(found@[i as int].members@[k] < n);
                            }
                        }
                    }
                },
                None => {},
            }
        }
        i += 1;
    }
    assert(all.take(i as int) =~= all);
    out
}

/// What a cut is expected to take with it.
#[derive(Clone, Copy, Debug, PartialEq, Eq, Structural)]
pub struct CascadeEstimate {
    /// Hidden neurons that go.
    pub hidden_neurons: usize,
    /// Synapses that go.
    pub synapses: usize,
    /// Growth units that the cut saves.
    pub growth_units: Measure,
    /// Whether the structure forbids the cut.
    pub blocked: bool,
}

/// A group with its appraisal.
#[derive(Debug)]
pub struct Neighbourhood {
    /// The shape of the group.
    pub kind: NeighbourhoodKind,
    /// The uuids of its members.
    pub members: Vec<String>,
    /// The largest effect among its members.
    pub effect: Measure,
    /// What its cut is expected to take along.
    pub estimate: CascadeEstimate,
    /// Effect per growth unit; less is better.
    pub rank: Measure,
}

impl Ranked for Neighbourhood {
    open spec fn before(self, other: Neighbourhood) -> bool {
        self.rank.below(other.rank) || (!other.rank.below(self.rank) && list_below(
            texts(self.members@),
            texts(other.members@),
        ))
    }

    fn is_before(&self, other: &Neighbourhood) -> (b: bool) {
        self.rank.lt(other.rank) || (!other.rank.lt(self.rank) && is_list_below(
            &self.members,
            &other.members,
        ))
    }
}

impl Neighbourhood {
    /// The set of the members' uuids.
    pub open spec fn member_set(self) -> Set<Seq<char>> {
        texts(self.members@).to_set()
    }
}

/// Each group under the names of its members, with what its cut was estimated
/// to save and how it ranks.
pub open spec fn appraises(
    uuids: Seq<String>,
    groups: Seq<Group>,
    estimates: Seq<CascadeEstimate>,
    ranks: Seq<Measure>,
    r: Seq<Neighbourhood>,
) -> bool {
    &&& r.len() == groups.len()
    &&& forall|i: int|
        0 <= i < r.len() ==> {
            &&& (#[trigger] r[i]).kind == groups[i].kind
            &&& texts(r[i].members@) == named(uuids, groups[i].members@)
            &&& r[i].effect == groups[i].effect
            &&& r[i].estimate == estimates[i]
            &&& r[i].rank == ranks[i]
        }
}

/// Puts the groups of a survey together with what their cuts were estimated to
/// save and how they rank.
pub fn appraise(
    uuids: &Vec<String>,
    groups: Vec<Group>,
    estimates: &Vec<CascadeEstimate>,
    ranks: &Vec<Measure>,
) -> (r: Vec<Neighbourhood>)
    requires
        estimates@.len() == groups@.len(),
        ranks@.len() == groups@.len(),
        forall|g: int, k: int|
            0 <= g < groups@.len() && 0 <= k < groups@[g].members@.len() ==> (
            #[trigger] groups@[g].members@[k]) < uuids@.len(),
    ensures
        appraises(uuids@, groups@, estimates@, ranks@, r@),
{
    let mut out: Vec<Neighbourhood> = Vec::new();
    let mut i: usize = 0;
    while i < groups.len()
        invariant
            i <= groups@.len(),
            estimates@.len() == groups@.len(),
            ranks@.len() == groups@.len(),
            forall|g: int, k: int|
                0 <= g < groups@.len() && 0 <= k < groups@[g].members@.len() ==> (
                #[trigger] groups@[g].members@[k]) < uuids@.len(),
            appraises(uuids@, groups@.take(i as int), estimates@, ranks@, out@),
        decreases groups.len() - i,
    {
        let ghost before = out@;
        proof {
            assert forall|k: int| 0 <= k < groups@[i as int].members@.len() implies (
            #[trigger] groups@[i as int].members@[k]) < uuids@.len() by {}
        }
        let members = names_of(uuids, &groups[i].members);
        let group = Neighbourhood {
            kind: groups[i].kind,
            members,
            effect: groups[i].effect,
            estimate: estimates[i],
            rank: ranks[i],
        };
        out.push(group);
        proof {
            let head = groups@.take(i + 1);
            assert forall|k: int| 0 <= k < out@.len() implies {
                &&& (#[trigger] out@[k]).kind == head[k].kind
                &&& texts(out@[k].members@) == named(uuids@, head[k].members@)
                &&& out@[k].effect == head[k].effect
                &&& out@[k].estimate == estimates@[k]
                &&& out@[k].rank == ranks@[k]
            } by {
                if k < i {
                    assert(out@[k] == before[k]);
                    assert(head[k] == groups@.take(i as int)[k]);
                }
            }
        }
        i += 1;
    }
    assert(groups@.take(i as int) =~= groups@);
    out
}

/// The cut is allowed and saves something.
pub open spec fn pays(group: Neighbourhood) -> bool {
    !group.estimate.blocked && !group.estimate.growth_units.at_most(Measure { bits: 0 })
}

/// `wider` takes the same structure along as `narrower` and holds all of its
/// members and more.
pub open spec fn covers(wider: Neighbourhood, narrower: Neighbourhood) -> bool {
    &&& wider.estimate.hidden_neurons == narrower.estimate.hidden_neurons
    &&& wider.estimate.synapses == narrower.estimate.synapses
    &&& narrower.member_set().subset_of(wider.member_set())
    &&& narrower.member_set() != wider.member_set()
}

/// Some listed group covers `group`.
pub open spec fn subsumed(groups: Seq<Neighbourhood>, group: Neighbourhood) -> bool {
    exists|j: int| 0 <= j < groups.len() && covers(#[trigger] groups[j], group)
}

/// The proposals among appraised groups: those that pay, without those that a
/// wider group covers, best rank first, no more than asked for.
pub open spec fn proposals(groups: Seq<Neighbourhood>, most: int) -> Seq<Neighbourhood> {
    let paying = groups.filter(|g: Neighbourhood| pays(g));
    let kept = paying.filter(|g: Neighbourhood| !subsumed(paying, g));
    let ranked = sorted(kept);
    if ranked.len() <= most {
        ranked
    } else {
        ranked.take(most)
    }
}

fn is_text_subset(a: &Vec<String>, b: &Vec<String>) -> (r: bool)
    ensures
        r == texts(a@).to_set().subset_of(texts(b@).to_set()),
{
    let mut i: usize = 0;
    while i < a.len()
        invariant
            i <= a@.len(),
            forall|k: int| 0 <= k < i ==> texts(b@).contains((#[trigger] a@[k])@),
        decreases a.len() - i,
    {
        if !crate::text::holds(b, &a[i]) {
            assert(texts(a@)[i as int] == a@[i as int]@);
            assert(texts(a@).to_set().contains(a@[i as int]@));
            assert(!texts(b@).to_set().contains(a@[i as int]@));
            return false;
        }
        i += 1;
    }
    assert forall|x: Seq<char>| texts(a@).to_set().contains(x) implies texts(
        b@,
    ).to_set().contains(x) by {
        let k = choose|k: int| 0 <= k < texts(a@).len() && texts(a@)[k] == x;
        assert(a@[k]@ == x);
    }
    true
}

fn is_covered_by(narrower: &Neighbourhood, wider: &Neighbourhood) -> (r: bool)
    ensures
        r == covers(*wider, *narrower),
{
    if wider.estimate.hidden_neurons != narrower.estimate.hidden_neurons
        || wider.estimate.synapses != narrower.estimate.synapses {
        return false;
    }
    let within = is_text_subset(&narrower.members, &wider.members);
    let contained = is_text_subset(&wider.members, &narrower.members);
    proof {
        let a = narrower.member_set();
        let b = wider.member_set();
        if within && contained {
            assert(a =~= b);
        }
    }
    within && !contained
}

/// Drops every group whose cut takes along the same structure as a wider one.
pub fn drop_subsumed(groups: Vec<Neighbourhood>) -> (r: Vec<Neighbourhood>)
    ensures
        r@ == groups@.filter(|g: Neighbourhood| !subsumed(groups@, g)),
{
    let mut keep: Vec<bool> = Vec::new();
    let mut i: usize = 0;
    while i < groups.len()
        invariant
            i <= groups@.len(),
            keep@.len() == i,
            forall|k: int|
                0 <= k < i ==> (#[trigger] keep@[k]) == !subsumed(groups@, groups@[k]),
        decreases groups.len() - i,
    {
        let mut covered = false;
        let mut j: usize = 0;
        while j < groups.len() && !covered
            invariant
                i < groups@.len(),
                j <= groups@.len(),
                !covered ==> forall|k: int|
                    0 <= k < j ==> !covers(#[trigger] groups@[k], groups@[i as int]),
                covered ==> subsumed(groups@, groups@[i as int]),
            decreases groups.len() - j + (if covered { 0int } else { 1int }),
        {
            if is_covered_by(&groups[i], &groups[j]) {
                covered = true;
            } else {
                j += 1;
            }
        }
        keep.push(!covered);
        i += 1;
    }
    proof {
        let test = |g: Neighbourhood| !subsumed(groups@, g);
        assert forall|k: int| 0 <= k < groups@.len() implies keep@[k] == test(
            #[trigger] groups@[k],
        ) by {
            assert(keep@[k] == !subsumed(groups@, groups@[k]));
        }
        lemma_marked_is_filter(groups@, keep@, test);
    }
    retain_marked(groups, &keep)
}

/// Ranks appraised groups and keeps the best that pay.
pub fn propose_neighbourhoods(
    appraised: Vec<Neighbourhood>,
    cfg: NeighbourhoodConfig,
) -> (r: Vec<Neighbourhood>)
    ensures
        r@ == proposals(appraised@, cfg.max_proposals as int),
{
    let mut keep: Vec<bool> = Vec::new();
    let mut i: usize = 0;
    while i < appraised.len()
        invariant
            i <= appraised@.len(),
            keep@.len() == i,
            forall|k: int| 0 <= k < i ==> (#[trigger] keep@[k]) == pays(appraised@[k]),
        decreases appraised.len() - i,
    {
        let pay = !appraised[i].estimate.blocked && !appraised[i].estimate.growth_units.le(
            Measure::zero(),
        );
        keep.push(pay);
        i += 1;
    }
    proof {
        let test = |g: Neighbourhood| pays(g);
        assert forall|k: int| 0 <= k < appraised@.len() implies keep@[k] == test(
            #[trigger] appraised@[k],
        ) by {
            assert(keep@[k] == pays(appraised@[k]));
        }
        lemma_marked_is_filter(appraised@, keep@, test);
    }
    let paying = retain_marked(appraised, &keep);
    let kept = drop_subsumed(paying);
    let mut ranked = stable_sort(kept);
    if ranked.len() > cfg.max_proposals {
        ranked.truncate(cfg.max_proposals);
        assert(ranked@ =~= sorted(kept@).take(cfg.max_proposals as int));
    }
    ranked
}

proof fn lemma_text_set_finite(list: Seq<Seq<char>>)
    ensures
        list.to_set().finite(),
{
    vstd::seq_lib::seq_to_set_is_finite(list);
}

/// Covering is transitive.
pub proof fn lemma_covers_transitive(a: Neighbourhood, b: Neighbourhood, c: Neighbourhood)
    requires
        covers(a, b),
        covers(b, c),
    ensures
        covers(a, c),
{
    assert(c.member_set().subset_of(a.member_set())) by {
        assert forall|x: Seq<char>| c.member_set().contains(x) implies a.member_set().contains(
            x,
        ) by {
            assert(b.member_set().contains(x));
        }
    }
    if c.member_set() == a.member_set() {
        assert(b.member_set() =~= a.member_set());
    }
}

/// A dropped group leaves a wider one behind that covers it and is kept.
pub proof fn law_dropped_group_leaves_a_cover(
    groups: Seq<Neighbourhood>,
    group: Neighbourhood,
) -> (j: int)
    requires
        subsumed(groups, group),
    ensures
        0 <= j < groups.len(),
        covers(groups[j], group),
        !subsumed(groups, groups[j]),
{
    let first = choose|j: int| 0 <= j < groups.len() && covers(#[trigger] groups[j], group);
    lemma_widest_cover(groups, group, first, all_members(groups).len())
}

/// Every uuid that a listed group holds.
spec fn all_members(groups: Seq<Neighbourhood>) -> Set<Seq<char>>
    decreases groups.len(),
{
    if groups.len() == 0 {
        Set::empty()
    } else {
        all_members(groups.drop_last()).union(groups.last().member_set())
    }
}

proof fn lemma_all_members(groups: Seq<Neighbourhood>)
    ensures
        all_members(groups).finite(),
        forall|i: int|
            0 <= i < groups.len() ==> (#[trigger] groups[i]).member_set().subset_of(
                all_members(groups),
            ),
    decreases groups.len(),
{
    if groups.len() > 0 {
        let init = groups.drop_last();
        lemma_all_members(init);
        lemma_text_set_finite(texts(groups.last().members@));
        assert forall|i: int| 0 <= i < groups.len() implies (
        #[trigger] groups[i]).member_set().subset_of(all_members(groups)) by {
            if i < init.len() {
                assert(init[i] == groups[i]);
                assert(init[i].member_set().subset_of(all_members(init)));
            }
        }
    }
}

proof fn lemma_widest_cover(
    groups: Seq<Neighbourhood>,
    group: Neighbourhood,
    at: int,
    room: nat,
) -> (j: int)
    requires
        0 <= at < groups.len(),
        covers(groups[at], group),
        all_members(groups).len() <= groups[at].member_set().len() + room,
    ensures
        0 <= j < groups.len(),
        covers(groups[j], group),
        !subsumed(groups, groups[j]),
    decreases room,
{
    if subsumed(groups, groups[at]) {
        let next = choose|k: int| 0 <= k < groups.len() && covers(#[trigger] groups[k], groups[at]);
        lemma_covers_transitive(groups[next], groups[at], group);
        lemma_all_members(groups);
        let a = groups[at].member_set();
        let b = groups[next].member_set();
        lemma_text_set_finite(texts(groups[at].members@));
        lemma_text_set_finite(texts(groups[next].members@));
        vstd::set_lib::lemma_len_subset(b, all_members(groups));
        vstd::set_lib::lemma_len_subset(a, b);
        if a.len() == b.len() {
            vstd::set_lib::lemma_subset_equality(a, b);
        }
        lemma_widest_cover(groups, group, next, (room - 1) as nat)
    } else {
        at
    }
}

proof fn lemma_not_ranked_chains(a: Neighbourhood, b: Neighbourhood, c: Neighbourhood)
    requires
        !a.rank.nan(),
        !b.rank.nan(),
        !c.rank.nan(),
        !a.before(b),
        !b.before(c),
    ensures
        !a.before(c),
{
    let x = texts(a.members@);
    let y = texts(b.members@);
    let z = texts(c.members@);
    law_list_order_is_total(x, y);
    law_list_order_is_total(y, z);
    law_list_order_is_total(x, z);
    if a.rank.position() == b.rank.position() && b.rank.position() == c.rank.position() {
        if list_below(x, z) && list_below(y, x) {
            law_list_order_is_transitive(y, x, z);
        }
    }
}

proof fn lemma_groups_are_well_ranked(groups: Seq<Neighbourhood>)
    requires
        forall|i: int| 0 <= i < groups.len() ==> !(#[trigger] groups[i]).rank.nan(),
    ensures
        well_ranked(groups),
{
    assert forall|a: Neighbourhood, b: Neighbourhood|
        groups.contains(a) && groups.contains(b) && #[trigger] a.before(b) implies !b.before(a) by {
        let i = choose|i: int| 0 <= i < groups.len() && groups[i] == a;
        let j = choose|j: int| 0 <= j < groups.len() && groups[j] == b;
        assert(!groups[i].rank.nan() && !groups[j].rank.nan());
        law_list_order_is_total(texts(a.members@), texts(b.members@));
    }
    assert forall|a: Neighbourhood, b: Neighbourhood, c: Neighbourhood|
        groups.contains(a) && groups.contains(b) && groups.contains(c) && !(#[trigger] a.before(b))
            && !(#[trigger] b.before(c)) implies !a.before(c) by {
        let i = choose|i: int| 0 <= i < groups.len() && groups[i] == a;
        let j = choose|j: int| 0 <= j < groups.len() && groups[j] == b;
        let k = choose|k: int| 0 <= k < groups.len() && groups[k] == c;
        assert(!groups[i].rank.nan() && !groups[j].rank.nan() && !groups[k].rank.nan());
        lemma_not_ranked_chains(a, b, c);
    }
}

/// Every proposal is one of the appraised groups, pays, and is covered by no
/// other group that pays; there are no more of them than asked for.
pub proof fn law_proposals_pay_and_stand_alone(groups: Seq<Neighbourhood>, most: int)
    requires
        0 <= most,
    ensures
        proposals(groups, most).len() <= most,
        forall|g: Neighbourhood| #[trigger]
            proposals(groups, most).contains(g) ==> groups.contains(g) && pays(g) && !subsumed(
                groups.filter(|other: Neighbourhood| pays(other)),
                g,
            ),
{
    let pay = |g: Neighbourhood| pays(g);
    let paying = groups.filter(pay);
    let alone = |g: Neighbourhood| !subsumed(paying, g);
    let kept = paying.filter(alone);
    let ranked = sorted(kept);
    law_sorted_is_a_permutation(kept);
    assert forall|g: Neighbourhood| #[trigger] proposals(groups, most).contains(g) implies groups.contains(
        g,
    ) && pays(g) && !subsumed(paying, g) by {
        let k = choose|k: int|
            0 <= k < proposals(groups, most).len() && proposals(groups, most)[k] == g;
        assert(ranked[k] == g);
        assert(ranked.contains(g));
        assert(kept.contains(g));
        lemma_filter_keeps(paying, alone, g);
        lemma_filter_keeps(groups, pay, g);
    }
}

proof fn lemma_filter_keeps<T>(list: Seq<T>, test: spec_fn(T) -> bool, item: T)
    requires
        list.filter(test).contains(item),
    ensures
        list.contains(item),
        test(item),
    decreases list.len(),
{
    reveal(Seq::filter);
    if list.len() > 0 {
        let init = list.drop_last();
        let k = choose|k: int| 0 <= k < list.filter(test).len() && list.filter(test)[k] == item;
        if k < init.filter(test).len() {
            assert(init.filter(test)[k] == item);
            lemma_filter_keeps(init, test, item);
            let at = choose|at: int| 0 <= at < init.len() && init[at] == item;
            assert(list[at] == item);
        } else {
            assert(list[list.len() - 1] == item);
        }
    }
}

/// Where every rank compares, proposals come best rank first, and level ranks
/// in the order of their members.
pub proof fn law_proposals_are_best_first(groups: Seq<Neighbourhood>, most: int)
    requires
        0 <= most,
        forall|i: int| 0 <= i < groups.len() ==> !(#[trigger] groups[i]).rank.nan(),
    ensures
        in_order(proposals(groups, most)),
{
    let pay = |g: Neighbourhood| pays(g);
    let paying = groups.filter(pay);
    let alone = |g: Neighbourhood| !subsumed(paying, g);
    let kept = paying.filter(alone);
    let ranked = sorted(kept);
    assert forall|i: int| 0 <= i < kept.len() implies !(#[trigger] kept[i]).rank.nan() by {
        assert(kept.contains(kept[i]));
        lemma_filter_keeps(paying, alone, kept[i]);
        lemma_filter_keeps(groups, pay, kept[i]);
        let at = choose|at: int| 0 <= at < groups.len() && groups[at] == kept[i];
        assert(!groups[at].rank.nan());
    }
    lemma_groups_are_well_ranked(kept);
    law_sorted_is_in_order(kept);
    let out = proposals(groups, most);
    assert forall|i: int, j: int|
        #![trigger out[i], out[j]]
        0 <= i < j < out.len() implies !out[j].before(out[i]) by {
        assert(out[i] == ranked[i] && out[j] == ranked[j]);
    }
}

proof fn lemma_surveyed(
    groups: Seq<(NeighbourhoodKind, Seq<usize>)>,
    effects: Seq<Option<Measure>>,
)
    ensures
        forall|i: int|
            0 <= i < surveyed(groups, effects).len() ==> all_measured(
                (#[trigger] surveyed(groups, effects)[i]).1,
                effects,
            ) && exists|k: int|
                0 <= k < groups.len() && (#[trigger] groups[k]).1 == surveyed(groups, effects)[i].1,
        forall|i: int, j: int|
            #![trigger surveyed(groups, effects)[i], surveyed(groups, effects)[j]]
            0 <= i < j < surveyed(groups, effects).len() ==> surveyed(groups, effects)[i].1.to_set()
                != surveyed(groups, effects)[j].1.to_set(),
    decreases groups.len(),
{
    if groups.len() > 0 {
        let init = groups.drop_last();
        let last = groups.len() - 1;
        lemma_surveyed(init, effects);
        let before = surveyed(init, effects);
        let after = surveyed(groups, effects);
        assert forall|i: int| 0 <= i < after.len() implies all_measured(
            (#[trigger] after[i]).1,
            effects,
        ) && exists|k: int| 0 <= k < groups.len() && (#[trigger] groups[k]).1 == after[i].1 by {
            if i < before.len() {
                assert(after[i] == before[i]);
                let k = choose|k: int|
                    0 <= k < init.len() && (#[trigger] init[k]).1 == before[i].1;
                assert(groups[k] == init[k]);
            } else {
                assert(groups[last].1 == after[i].1);
            }
        }
        assert forall|i: int, j: int|
            #![trigger after[i], after[j]]
            0 <= i < j < after.len() implies after[i].1.to_set() != after[j].1.to_set() by {
            assert(after[i] == before[i]);
            if j < before.len() {
                assert(after[j] == before[j]);
            } else {
                let k = choose|k: int|
                    0 <= k < init.len() && (#[trigger] init[k]).1 == before[i].1;
                assert(groups[k] == init[k]);
                assert(groups[k].1.to_set() != groups[last].1.to_set());
            }
        }
    }
}

proof fn lemma_group_sizes(topology: Topology, effects: &Vec<Option<Measure>>, max: int, g: int)
    requires
        topology.well_formed(),
        0 <= g < all_groups(topology, effects, max).len(),
    ensures
        MIN_NEIGHBOURHOOD_SIZE <= all_groups(topology, effects, max)[g].1.len() <= max,
        distinct_slots(all_groups(topology, effects, max)[g].1),
{
    let heads = topology.hidden@;
    let all = all_groups(topology, effects, max);
    let chains = topology.chains_from(heads, max);
    let branches = topology.branches_from(heads, max);
    let clusters = topology.clusters_from(heads, effects, max);
    let a = chains.len() as int;
    let b = a + branches.len();
    if g < a {
        law_chains_are_chains(topology, heads, max, g);
        assert(all[g].1 == chains[g]);
    } else if g < b {
        law_branches_are_branches(topology, heads, max, g - a);
        let group = branches[g - a];
        assert(all[g].1 == group);
        let turned = group.reverse();
        assert forall|i: int, j: int|
            #![trigger group[i], group[j]]
            0 <= i < j < group.len() implies group[i] != group[j] by {
            let n = group.len() - 1;
            assert(turned[n - j] == group[j] && turned[n - i] == group[i]);
        }
    } else {
        law_clusters_are_clusters(topology, heads, effects, max, g - b);
        assert(all[g].1 == clusters[g - b]);
    }
}

/// What is proposed of a surveyed creature is one of the surveyed groups, with
/// two members at least and no more than are allowed, no neuron twice, every
/// member measured, and no other group of the same members.
pub proof fn law_proposals_are_small_measured_groups(
    topology: Topology,
    effects: &Vec<Option<Measure>>,
    cfg: NeighbourhoodConfig,
    groups: Seq<Group>,
    estimates: Seq<CascadeEstimate>,
    ranks: Seq<Measure>,
    appraised: Seq<Neighbourhood>,
    p: Neighbourhood,
) -> (g: int)
    requires
        topology.well_formed(),
        group_views(groups) == surveyed(
            all_groups(topology, effects, cfg.bounded_size() as int),
            effects@,
        ),
        appraises(topology.uuids@, groups, estimates, ranks, appraised),
        proposals(appraised, cfg.max_proposals as int).contains(p),
    ensures
        0 <= g < groups.len(),
        p == appraised[g],
        texts(p.members@) == named(topology.uuids@, groups[g].members@),
        MIN_NEIGHBOURHOOD_SIZE <= p.members@.len() <= cfg.bounded_size(),
        distinct_slots(groups[g].members@),
        all_measured(groups[g].members@, effects@),
        forall|other: int|
            0 <= other < groups.len() && other != g ==> (
            #[trigger] groups[other]).members@.to_set() != groups[g].members@.to_set(),
{
    let all = all_groups(topology, effects, cfg.bounded_size() as int);
    let found = surveyed(all, effects@);
    law_proposals_pay_and_stand_alone(appraised, cfg.max_proposals as int);
    assert(appraised.contains(p));
    let g = choose|g: int| 0 <= g < appraised.len() && appraised[g] == p;
    lemma_surveyed(all, effects@);
    assert(found[g] == group_views(groups)[g]);
    assert(found[g].1 == groups[g].members@);
    let k = choose|k: int| 0 <= k < all.len() && (#[trigger] all[k]).1 == found[g].1;
    lemma_group_sizes(topology, effects, cfg.bounded_size() as int, k);
    assert(texts(p.members@).len() == p.members@.len());
    assert forall|other: int| 0 <= other < groups.len() && other != g implies (
    #[trigger] groups[other]).members@.to_set() != groups[g].members@.to_set() by {
        assert(found[other] == group_views(groups)[other]);
        if other < g {
            assert(found[other].1.to_set() != found[g].1.to_set());
        } else {
            assert(found[g].1.to_set() != found[other].1.to_set());
        }
    }
    g
}

/// A refused group with the reason.
#[derive(Debug)]
pub struct RefusedGroup {
    /// The members of the group.
    pub members: Vec<String>,
    /// Why it was refused.
    pub reason: String,
}

/// A group that was built as a candidate.
#[derive(Debug)]
pub struct BuiltGroup {
    /// The candidate.
    pub candidate: SweepCandidate,
    /// What its cut takes along beyond its members.
    pub cascade: Vec<String>,
}

/// The group candidates of one batch.
#[derive(Debug)]
pub struct GroupBatch {
    /// Groups that were built.
    pub candidates: Vec<BuiltGroup>,
    /// Groups that were refused.
    pub blocked: Vec<RefusedGroup>,
}

/// The key of a group: its members in order, comma between them.
pub fn group_key(members: &Vec<String>) -> (r: String)
    ensures
        r@ == joined(texts(members@), ","@),
{
    join(members, ",")
}

/// The group was tried before: its key is on record.
pub open spec fn was_tried(group: Neighbourhood, tried: Seq<String>) -> bool {
    texts(tried).contains(joined(texts(group.members@), ","@))
}

impl GroupBatch {
    /// An empty batch.
    pub fn new() -> (r: GroupBatch)
        ensures
            r.candidates@.len() == 0,
            r.blocked@.len() == 0,
    {
        GroupBatch { candidates: Vec::new(), blocked: Vec::new() }
    }

    /// How many groups were built or refused.
    pub fn considered(&self) -> (r: usize)
        requires
            self.candidates@.len() + self.blocked@.len() <= usize::MAX,
        ensures
            r == self.candidates@.len() + self.blocked@.len(),
    {
        self.candidates.len() + self.blocked.len()
    }

    /// The next proposal to build, from place `from` on: the first that was
    /// not tried, while the batch is below its limit.
    pub fn next_group(
        &self,
        proposed: &Vec<Neighbourhood>,
        from: usize,
        cfg: NeighbourhoodConfig,
        tried: &Vec<String>,
    ) -> (r: Option<usize>)
        ensures
            match r {
                Some(i) => {
                    &&& self.candidates@.len() < cfg.max_proposals
                    &&& from <= i < proposed@.len()
                    &&& !was_tried(proposed@[i as int], tried@)
                    &&& forall|k: int|
                        from <= k < i ==> was_tried(#[trigger] proposed@[k], tried@)
                },
                None => self.candidates@.len() >= cfg.max_proposals || forall|k: int|
                    from <= k < proposed@.len() ==> was_tried(#[trigger] proposed@[k], tried@),
            },
    {
        if self.candidates.len() >= cfg.max_proposals {
            return None;
        }
        let mut i: usize = from;
        while i < proposed.len()
            invariant
                from <= i,
                self.candidates@.len() < cfg.max_proposals,
                forall|k: int|
                    from <= k < i && k < proposed@.len() ==> was_tried(
                        #[trigger] proposed@[k],
                        tried@,
                    ),
            decreases proposed.len() - i,
        {
            let key = group_key(&proposed[i].members);
            if !crate::text::holds(tried, &key) {
                return Some(i);
            }
            i += 1;
        }
        None
    }

    /// Adds a group that was built: keyed on its first member, under the next
    /// stem of the batch.
    pub fn take_in(&mut self, group: Neighbourhood, cascade: Vec<String>)
        requires
            group.members@.len() > 0,
        ensures
            final(self).blocked@ == old(self).blocked@,
            final(self).candidates@.len() == old(self).candidates@.len() + 1,
            final(self).candidates@.drop_last() == old(self).candidates@,
            ({
                let built = final(self).candidates@.last();
                &&& built.cascade == cascade
                &&& built.candidate.members == group.members
                &&& built.candidate.uuid@ == group.members@[0]@
                &&& built.candidate.permutation_index == 0
                &&& built.candidate.kind == CandidateKind::Group
                &&& built.candidate.stem@ == "g"@ + decimal3(old(self).candidates@.len() as nat)
            }),
    {
        let number = decimal3_text(self.candidates.len() as u64);
        let mut stem = text_of("g");
        stem.append(number.as_str());
        let uuid = group.members[0].clone();
        let candidate = SweepCandidate {
            uuid,
            members: group.members,
            permutation_index: 0,
            kind: CandidateKind::Group,
            stem,
        };
        self.candidates.push(BuiltGroup { candidate, cascade });
        assert(self.candidates@.drop_last() =~= old(self).candidates@);
    }

    /// Adds a group that was refused, with the reason and its shape.
    pub fn refuse(&mut self, group: Neighbourhood, blocked: &str)
        ensures
            final(self).candidates@ == old(self).candidates@,
            final(self).blocked@.len() == old(self).blocked@.len() + 1,
            final(self).blocked@.drop_last() == old(self).blocked@,
            final(self).blocked@.last().members == group.members,
            final(self).blocked@.last().reason@ == blocked@ + " ["@ + kind_name(group.kind)
                + "]"@,
    {
        let mut reason = text_of(blocked);
        reason.append(" [");
        reason.append(group.kind.name());
        reason.append("]");
        self.blocked.push(RefusedGroup { members: group.members, reason });
        assert(self.blocked@.drop_last() =~= old(self).blocked@);
    }
}

proof fn lemma_loudest(members: Seq<usize>, effects: Seq<Option<Measure>>)
    requires
        all_measured(members, effects),
        forall|s: int| 0 <= s < effects.len() && (#[trigger] effects[s]) is Some
            ==> !effects[s]->0.nan(),
        forall|k: int| 0 <= k < members.len() ==> (#[trigger] members[k]) < effects.len(),
    ensures
        ({
            let loudest = loudest_of(members, effects);
            &&& !loudest.nan() && loudest.position() >= 0
            &&& forall|k: int|
                0 <= k < members.len() ==> effects[(#[trigger] members[k]) as int]->0.position()
                    <= loudest.position()
            &&& loudest == (Measure { bits: 0 }) || exists|k: int|
                0 <= k < members.len() && effects[(#[trigger] members[k]) as int] == Some(loudest)
        }),
    decreases members.len(),
{
    if members.len() > 0 {
        let init = members.drop_last();
        assert forall|k: int| 0 <= k < init.len() implies effects[(#[trigger] init[k]) as int]
            is Some && init[k] < effects.len() by {
            assert(init[k] == members[k]);
        }
        lemma_loudest(init, effects);
        let n = members.len() - 1;
        let was = loudest_of(init, effects);
        let last = effects[members[n] as int];
        assert(last is Some && !last->0.nan());
        assert forall|k: int| 0 <= k < members.len() implies effects[(
        #[trigger] members[k]) as int]->0.position() <= loudest_of(
            members,
            effects,
        ).position() by {
            if k < n {
                assert(init[k] == members[k]);
            }
        }
        if loudest_of(members, effects) == was && was != (Measure { bits: 0 }) {
            let k = choose|k: int|
                0 <= k < init.len() && effects[(#[trigger] init[k]) as int] == Some(was);
            assert(members[k] == init[k]);
        }
    }
}

/// A surveyed group is as loud as its loudest member: its effect is that of one
/// of its members, or zero, and no member's effect is above it. Every member was
/// measured.
pub proof fn law_groups_are_as_loud_as_their_loudest(
    topology: Topology,
    cfg: NeighbourhoodConfig,
    effects: &Vec<Option<Measure>>,
    groups: Seq<Group>,
    g: int,
)
    requires
        group_views(groups) == surveyed(
            all_groups(topology, effects, cfg.bounded_size() as int),
            effects@,
        ),
        0 <= g < groups.len(),
        forall|k: int|
            0 <= k < groups[g].members@.len() ==> (#[trigger] groups[g].members@[k])
                < effects@.len(),
        forall|s: int| 0 <= s < effects@.len() && (#[trigger] effects@[s]) is Some
            ==> !effects@[s]->0.nan(),
    ensures
        forall|k: int|
            0 <= k < groups[g].members@.len() ==> {
                let effect = effects@[(#[trigger] groups[g].members@[k]) as int];
                effect is Some && effect->0.position() <= groups[g].effect.position()
            },
        !groups[g].effect.nan(),
        groups[g].effect.bits == 0 || exists|k: int|
            0 <= k < groups[g].members@.len() && effects@[(
            #[trigger] groups[g].members@[k]) as int] == Some(groups[g].effect),
{
    let all = all_groups(topology, effects, cfg.bounded_size() as int);
    let found = surveyed(all, effects@);
    lemma_surveyed(all, effects@);
    lemma_surveyed_effects(all, effects@);
    assert(found[g] == group_views(groups)[g]);
    assert(found[g].1 == groups[g].members@);
    lemma_loudest(groups[g].members@, effects@);
}

proof fn lemma_surveyed_effects(
    groups: Seq<(NeighbourhoodKind, Seq<usize>)>,
    effects: Seq<Option<Measure>>,
)
    ensures
        forall|i: int|
            0 <= i < surveyed(groups, effects).len() ==> (#[trigger] surveyed(groups, effects)[i]).2
                == loudest_of(surveyed(groups, effects)[i].1, effects),
    decreases groups.len(),
{
    if groups.len() > 0 {
        let init = groups.drop_last();
        lemma_surveyed_effects(init, effects);
        let before = surveyed(init, effects);
        let after = surveyed(groups, effects);
        assert forall|i: int| 0 <= i < after.len() implies (#[trigger] after[i]).2 == loudest_of(
            after[i].1,
            effects,
        ) by {
            if i < before.len() {
                assert(after[i] == before[i]);
            }
        }
    }
}

/// A survey keeps the groups whose members were all measured, in order: of those
/// with the same members the first, under its own shape.
pub proof fn law_surveys_keep_measured_groups(
    groups: Seq<(NeighbourhoodKind, Seq<usize>)>,
    effects: Seq<Option<Measure>>,
    marks: Seq<bool>,
)
    requires
        marks.len() == groups.len(),
        forall|i: int|
            0 <= i < marks.len() ==> (#[trigger] marks[i] <==> (forall|k: int|
                0 <= k < groups[i].1.len() ==> effects[(#[trigger] groups[i].1[k]) as int] is Some)
                && (forall|j: int|
                0 <= j < i ==> (#[trigger] groups[j]).1.to_set() != groups[i].1.to_set())),
    ensures
        surveyed(groups, effects).len() == true_places(marks).len(),
        forall|k: int|
            0 <= k < true_places(marks).len() ==> {
                let group = groups[true_places(marks)[k]];
                let kept = #[trigger] surveyed(groups, effects)[k];
                kept.0 == group.0 && kept.1 == group.1
            },
    decreases groups.len(),
{
    if groups.len() > 0 {
        let init = groups.drop_last();
        let some = marks.drop_last();
        let n = groups.len() - 1;
        assert forall|i: int| 0 <= i < some.len() implies (#[trigger] some[i] <==> (forall|k: int|
            0 <= k < init[i].1.len() ==> effects[(#[trigger] init[i].1[k]) as int] is Some) && (
        forall|j: int|
            0 <= j < i ==> (#[trigger] init[j]).1.to_set() != init[i].1.to_set())) by {
            assert(some[i] == marks[i]);
            assert(init[i] == groups[i]);
            assert(forall|j: int| 0 <= j < i ==> #[trigger] init[j] == groups[j]);
            assert(forall|j: int| 0 <= j < i ==> #[trigger] groups[j] == init[j]);
        }
        law_surveys_keep_measured_groups(init, effects, some);
        law_true_places_ascend(some);
        assert(marks[n] <==> first_of_its_set(groups, n) && all_measured(groups[n].1, effects));
        let before = surveyed(init, effects);
        let after = surveyed(groups, effects);
        let was = true_places(some);
        let now = true_places(marks);
        assert forall|k: int| 0 <= k < now.len() implies ({
            let group = groups[now[k]];
            let kept = #[trigger] after[k];
            kept.0 == group.0 && kept.1 == group.1
        }) by {
            if k < was.len() {
                assert(now[k] == was[k]);
                assert(init[was[k]] == groups[was[k]]);
                assert(after[k] == before[k]);
            }
        }
    }
}

/// Everything that a survey looks at: the chains, then the branches, then the
/// clusters of the creature, under those names.
pub proof fn law_every_shape_is_looked_at(
    topology: Topology,
    effects: &Vec<Option<Measure>>,
    max: int,
    i: int,
)
    ensures
        ({
            let chains = topology.chains_from(topology.hidden@, max);
            let branches = topology.branches_from(topology.hidden@, max);
            let clusters = topology.clusters_from(topology.hidden@, effects, max);
            let all = all_groups(topology, effects, max);
            &&& all.len() == chains.len() + branches.len() + clusters.len()
            &&& 0 <= i < chains.len() ==> all[i] == (NeighbourhoodKind::Chain, chains[i])
            &&& 0 <= i < branches.len() ==> all[chains.len() + i] == (
                NeighbourhoodKind::Branch,
                branches[i],
            )
            &&& 0 <= i < clusters.len() ==> all[chains.len() + branches.len() + i] == (
                NeighbourhoodKind::Cluster,
                clusters[i],
            )
        }),
{
}

/// The size of a group stays between two and eight, and is as configured where
/// that is.
pub proof fn law_sizes_stay_in_bounds(cfg: NeighbourhoodConfig)
    ensures
        2 <= cfg.bounded_size() <= 8,
        2 <= cfg.max_size <= 8 ==> cfg.bounded_size() == cfg.max_size,
        cfg.max_size < 2 ==> cfg.bounded_size() == 2,
        cfg.max_size > 8 ==> cfg.bounded_size() == 8,
{
}

/// An appraised group keeps its shape, its members by name and its effect, and has
/// the estimate and the rank that were made for it.
pub proof fn law_appraisal_keeps_what_belongs_together(
    uuids: Seq<String>,
    groups: Seq<Group>,
    estimates: Seq<CascadeEstimate>,
    ranks: Seq<Measure>,
    r: Seq<Neighbourhood>,
    i: int,
    k: int,
)
    requires
        appraises(uuids, groups, estimates, ranks, r),
        0 <= i < groups.len(),
    ensures
        r.len() == groups.len(),
        r[i].kind == groups[i].kind,
        r[i].effect == groups[i].effect,
        r[i].estimate == estimates[i],
        r[i].rank == ranks[i],
        r[i].members@.len() == groups[i].members@.len(),
        0 <= k < groups[i].members@.len() ==> r[i].members@[k]@
            == uuids[groups[i].members@[k] as int]@,
{
    assert(texts(r[i].members@).len() == r[i].members@.len());
    if 0 <= k < groups[i].members@.len() {
        assert(texts(r[i].members@)[k] == r[i].members@[k]@);
    }
}

/// A proposed cut is allowed, saves growth units, and no other cut that does so
/// takes along as many neurons and synapses and names all of its members and
/// more.
pub proof fn law_proposed_cuts_are_worth_it(groups: Seq<Neighbourhood>, most: int, p: Neighbourhood)
    requires
        0 <= most,
        proposals(groups, most).contains(p),
    ensures
        groups.contains(p),
        !p.estimate.blocked,
        p.estimate.growth_units.nan() || p.estimate.growth_units.position() > 0,
        forall|j: int|
            0 <= j < groups.len() && !(#[trigger] groups[j]).estimate.blocked && !(
            groups[j].estimate.growth_units.nan()) && groups[j].estimate.growth_units.position() > 0
                && groups[j].estimate.hidden_neurons == p.estimate.hidden_neurons
                && groups[j].estimate.synapses == p.estimate.synapses && (forall|t: Seq<char>|
                texts(p.members@).contains(t) ==> #[trigger] texts(groups[j].members@).contains(t))
                ==> forall|t: Seq<char>| #[trigger]
                texts(groups[j].members@).contains(t) ==> texts(p.members@).contains(t),
{
    law_proposals_pay_and_stand_alone(groups, most);
    let pay = |g: Neighbourhood| pays(g);
    let paying = groups.filter(pay);
    assert(pays(p) && !subsumed(paying, p));
    assert forall|j: int|
        0 <= j < groups.len() && !(#[trigger] groups[j]).estimate.blocked && !(
        groups[j].estimate.growth_units.nan()) && groups[j].estimate.growth_units.position() > 0
            && groups[j].estimate.hidden_neurons == p.estimate.hidden_neurons
            && groups[j].estimate.synapses == p.estimate.synapses && (forall|t: Seq<char>|
            texts(p.members@).contains(t) ==> #[trigger] texts(groups[j].members@).contains(
                t,
            )) implies (forall|t: Seq<char>| #[trigger]
        texts(groups[j].members@).contains(t) ==> texts(p.members@).contains(t)) by {
        let wide = groups[j];
        assert(pays(wide));
        let places = law_filter_picks_in_order(groups, pay);
        assert(places.contains(j));
        let k = choose|k: int| 0 <= k < places.len() && places[k] == j;
        assert(paying[k] == wide);
        assert(!covers(paying[k], p));
        assert(p.member_set().subset_of(wide.member_set())) by {
            assert forall|t: Seq<char>| p.member_set().contains(
                t,
            ) implies #[trigger] wide.member_set().contains(t) by {
                assert(texts(p.members@).contains(t));
            }
        }
        assert(p.member_set() == wide.member_set());
        assert forall|t: Seq<char>| #[trigger] texts(wide.members@).contains(t) implies texts(
            p.members@,
        ).contains(t) by {
            assert(wide.member_set().contains(t));
            assert(p.member_set().contains(t));
        }
    }
}

/// Nothing worth it is passed over: a cut that is allowed, saves growth units and
/// is covered by no wider one is proposed, unless as many as asked for are. Where
/// ranks compare, the proposals come by rank, smallest first, and level ones in the
/// order of their members; and no cut that is left out ranks before them.
pub proof fn law_the_best_cuts_are_proposed(groups: Seq<Neighbourhood>, most: int, g: Neighbourhood)
    requires
        0 <= most,
        groups.contains(g),
        !g.estimate.blocked,
        !g.estimate.growth_units.nan(),
        g.estimate.growth_units.position() > 0,
        forall|j: int|
            0 <= j < groups.len() ==> !((#[trigger] groups[j]).estimate.hidden_neurons
                == g.estimate.hidden_neurons && groups[j].estimate.synapses == g.estimate.synapses
                && texts(g.members@).to_set().subset_of(texts(groups[j].members@).to_set())
                && texts(g.members@).to_set() != texts(groups[j].members@).to_set()),
        forall|i: int| 0 <= i < groups.len() ==> !(#[trigger] groups[i]).rank.nan(),
    ensures
        proposals(groups, most).contains(g) || proposals(groups, most).len() == most,
        forall|i: int, j: int|
            #![trigger proposals(groups, most)[i], proposals(groups, most)[j]]
            0 <= i < j < proposals(groups, most).len() ==> {
                let a = proposals(groups, most)[i];
                let b = proposals(groups, most)[j];
                &&& a.rank.position() <= b.rank.position()
                &&& a.rank.position() == b.rank.position() ==> !list_below(
                    texts(b.members@),
                    texts(a.members@),
                )
            },
        !proposals(groups, most).contains(g) ==> forall|i: int|
            0 <= i < most ==> (#[trigger] proposals(groups, most)[i]).rank.position()
                <= g.rank.position(),
{
    let pay = |g: Neighbourhood| pays(g);
    let paying = groups.filter(pay);
    let alone = |g: Neighbourhood| !subsumed(paying, g);
    let kept = paying.filter(alone);
    let ranked = sorted(kept);
    let out = proposals(groups, most);
    let at = choose|at: int| 0 <= at < groups.len() && groups[at] == g;
    assert(pays(g));
    let first = law_filter_picks_in_order(groups, pay);
    assert(first.contains(at));
    let k = choose|k: int| 0 <= k < first.len() && first[k] == at;
    assert(paying[k] == g);
    assert forall|j: int| 0 <= j < paying.len() implies !covers(#[trigger] paying[j], g) by {
        assert(paying[j] == groups[first[j]]);
    }
    let second = law_filter_picks_in_order(paying, alone);
    assert(second.contains(k));
    let l = choose|l: int| 0 <= l < second.len() && second[l] == k;
    assert(kept[l] == g);
    assert(kept.contains(g));
    law_sorted_is_a_permutation(kept);
    assert(ranked.contains(g));
    let m = choose|m: int| 0 <= m < ranked.len() && ranked[m] == g;
    assert forall|i: int| 0 <= i < kept.len() implies !(#[trigger] kept[i]).rank.nan() by {
        assert(kept[i] == paying[second[i]]);
        assert(paying[second[i]] == groups[first[second[i]]]);
    }
    lemma_groups_are_well_ranked(kept);
    law_sorted_is_in_order(kept);
    assert forall|i: int| 0 <= i < ranked.len() implies !(#[trigger] ranked[i]).rank.nan() by {
        assert(ranked.contains(ranked[i]));
        assert(kept.contains(ranked[i]));
        let q = choose|q: int| 0 <= q < kept.len() && kept[q] == ranked[i];
        assert(!kept[q].rank.nan());
    }
    assert forall|i: int, j: int|
        #![trigger ranked[i], ranked[j]]
        0 <= i < j < ranked.len() implies ranked[i].rank.position() <= ranked[j].rank.position()
        && (ranked[i].rank.position() == ranked[j].rank.position() ==> !list_below(
        texts(ranked[j].members@),
        texts(ranked[i].members@),
    )) by {
        assert(!ranked[j].before(ranked[i]));
    }
    assert forall|i: int, j: int|
        #![trigger out[i], out[j]]
        0 <= i < j < out.len() implies out[i].rank.position() <= out[j].rank.position() && (
    out[i].rank.position() == out[j].rank.position() ==> !list_below(
        texts(out[j].members@),
        texts(out[i].members@),
    )) by {
        assert(out[i] == ranked[i] && out[j] == ranked[j]);
    }
    if m < out.len() {
        assert(out[m] == g);
    } else {
        assert forall|i: int| 0 <= i < most implies (#[trigger] out[i]).rank.position()
            <= g.rank.position() by {
            assert(out[i] == ranked[i] && ranked[m] == g);
        }
    }
}

/// A group was tried exactly if its members' uuids, in order and with commas
/// between them, are on record.
pub proof fn law_groups_are_remembered_by_their_members(group: Neighbourhood, tried: Seq<String>)
    ensures
        was_tried(group, tried) <==> exists|i: int|
            0 <= i < tried.len() && (#[trigger] tried[i])@ == joined(texts(group.members@), ","@),
{
    let key = joined(texts(group.members@), ","@);
    if was_tried(group, tried) {
        let i = choose|i: int| 0 <= i < texts(tried).len() && texts(tried)[i] == key;
        assert(tried[i]@ == key);
    }
    if exists|i: int| 0 <= i < tried.len() && (#[trigger] tried[i])@ == key {
        let i = choose|i: int| 0 <= i < tried.len() && (#[trigger] tried[i])@ == key;
        assert(texts(tried)[i] == key);
    }
}

/// Logs know each shape by its own name.
pub proof fn law_shapes_have_their_names()
    ensures
        kind_name(NeighbourhoodKind::Chain) == "chain"@,
        kind_name(NeighbourhoodKind::Branch) == "branch"@,
        kind_name(NeighbourhoodKind::Cluster) == "cluster"@,
{
}

} // verus!
