//! Requests for a structural rewrite, and the record of what came back.
//!
//! What a rewrite does to a creature is the pruning engine's business. Here is
//! what is asked of it, in which order, and what is kept of its answers.
use vstd::prelude::*;

use crate::blocked::BlockedReason;
use crate::creature::{carries_hidden, is_hidden, Creature, Structure};
use crate::list::{law_true_places_ascend, true_places};
use crate::measure::Measure;
use crate::text::{holds, law_noted_texts_stand_once, note, same_text, text_of, texts, with_texts};

verus! {

/// The role of a synapse at its target.
#[derive(Clone, Copy, Debug, PartialEq, Eq, Structural)]
pub enum SynapseRole {
    /// An ordinary term.
    Standard,
    /// The branch of a positive condition.
    Positive,
    /// The branch of a negative condition.
    Negative,
    /// The condition itself.
    Condition,
}

/// The name of a role.
pub open spec fn role_name(role: SynapseRole) -> Seq<char> {
    match role {
        SynapseRole::Standard => "standard"@,
        SynapseRole::Positive => "positive"@,
        SynapseRole::Negative => "negative"@,
        SynapseRole::Condition => "condition"@,
    }
}

/// The name under which records carry a role.
pub fn role_label(role: SynapseRole) -> (r: &'static str)
    ensures
        r@ == role_name(role),
{
    match role {
        SynapseRole::Standard => "standard",
        SynapseRole::Positive => "positive",
        SynapseRole::Negative => "negative",
        SynapseRole::Condition => "condition",
    }
}

/// One edge, told apart from others of the same ends by its role.
#[derive(Debug)]
pub struct SynapseKey {
    /// Where the edge starts.
    pub from_uuid: String,
    /// Where it ends.
    pub to_uuid: String,
    /// Its role there.
    pub role: SynapseRole,
}

/// One edge as records carry it.
#[derive(Debug)]
pub struct SynapseRef {
    /// Where the edge starts.
    pub from_uuid: String,
    /// Where it ends.
    pub to_uuid: String,
    /// The name of its role there.
    pub role: String,
}

/// The record is of the edge.
pub open spec fn refers(record: SynapseRef, key: SynapseKey) -> bool {
    &&& record.from_uuid == key.from_uuid
    &&& record.to_uuid == key.to_uuid
    &&& record.role@ == role_name(key.role)
}

impl SynapseRef {
    /// The record of an edge.
    pub fn of(key: &SynapseKey) -> (r: SynapseRef)
        ensures
            refers(r, *key),
    {
        SynapseRef {
            from_uuid: key.from_uuid.clone(),
            to_uuid: key.to_uuid.clone(),
            role: text_of(role_label(key.role)),
        }
    }
}

/// A compensation that moved a target's bias.
#[derive(Debug)]
pub struct BiasFoldRecord {
    /// The target.
    pub target_uuid: String,
    /// The weight that the removal took from it.
    pub weight_sum: Measure,
    /// What was added to its bias.
    pub delta: Measure,
    /// Whether nothing changes by it on any record.
    pub exact: bool,
    /// The variance that it could not carry, where one was measured.
    pub residual_variance: Option<Measure>,
}

/// Weight that moved to the edge of a correlated survivor.
#[derive(Debug)]
pub struct WeightShareRecord {
    /// The survivor.
    pub from_uuid: String,
    /// The target it feeds.
    pub to_uuid: String,
    /// What was added to the weight.
    pub delta: Measure,
}

/// Why a target got nothing back.
#[derive(Clone, Copy, Debug, PartialEq, Eq, Structural)]
pub enum UncompensatedReason {
    /// Nothing was measured.
    NoStatistics,
    /// The target aggregates its terms.
    AggregateTarget,
}

/// A target that lost a term without compensation, as the engine reports it.
#[derive(Debug)]
pub struct Uncompensated {
    /// The target.
    pub target_uuid: String,
    /// The role of the lost edges.
    pub role: SynapseRole,
    /// The weight that was lost.
    pub weight_sum: Measure,
    /// The target's squash.
    pub squash: String,
    /// Why nothing came back.
    pub reason: UncompensatedReason,
}

/// A target that lost a term without compensation, as records carry it.
#[derive(Debug)]
pub struct UncompensatedRecord {
    /// The target.
    pub target_uuid: String,
    /// The name of the role of the lost edges.
    pub role: String,
    /// The weight that was lost.
    pub weight_sum: Measure,
    /// The target's squash.
    pub squash: String,
    /// `no-statistics` or `aggregate-target`.
    pub reason: String,
}

/// The record is of the loss.
pub open spec fn records_loss(record: UncompensatedRecord, loss: Uncompensated) -> bool {
    &&& record.target_uuid == loss.target_uuid
    &&& record.role@ == role_name(loss.role)
    &&& record.weight_sum == loss.weight_sum
    &&& record.squash == loss.squash
    &&& record.reason@ == match loss.reason {
        UncompensatedReason::NoStatistics => "no-statistics"@,
        UncompensatedReason::AggregateTarget => "aggregate-target"@,
    }
}

/// A conditional neuron whose condition no longer varies, as the engine
/// reports it.
#[derive(Debug)]
pub struct StaticIf {
    /// The neuron.
    pub uuid: String,
    /// The branch that it always takes.
    pub branch: SynapseRole,
}

/// A conditional neuron whose condition no longer varies, as records carry it.
#[derive(Debug)]
pub struct StaticIfRecord {
    /// The neuron.
    pub uuid: String,
    /// The name of the branch that it always takes.
    pub branch: String,
}

/// The record is of the neuron.
pub open spec fn records_branch(record: StaticIfRecord, fixed: StaticIf) -> bool {
    record.uuid == fixed.uuid && record.branch@ == role_name(fixed.branch)
}

/// Whether a rewrite preserves a creature's output.
#[derive(Clone, Copy, Debug, PartialEq, Eq, Structural)]
pub enum TransformClass {
    /// It does, on every record.
    Exact,
    /// It need not.
    Approximate,
}

/// What the engine reports of one request.
#[derive(Debug)]
pub struct PruneResult {
    /// Whether the rewrite preserves the output.
    pub transform: TransformClass,
    /// Cleanup passes that it took.
    pub passes: usize,
    /// The neuron that was requested.
    pub removed_neuron: Option<String>,
    /// The edges that were requested.
    pub removed_synapses: Vec<SynapseKey>,
    /// Neurons that the cleanup removed besides.
    pub cascade_neurons: Vec<String>,
    /// Edges that the cleanup removed besides.
    pub cascade_synapses: Vec<SynapseKey>,
    /// Neurons that the cleanup folded into constants.
    pub folded_neurons: Vec<String>,
    /// Conditional neurons that became plain ones.
    pub downgraded_if_neurons: Vec<String>,
    /// Conditional neurons that were replaced by one branch.
    pub static_if_neurons: Vec<StaticIf>,
    /// Edges added to give a conditional neuron an emptied role back.
    pub restored_if_roles: Vec<SynapseKey>,
    /// Compensations by bias.
    pub bias_folds: Vec<BiasFoldRecord>,
    /// Compensations by weight.
    pub weight_shares: Vec<WeightShareRecord>,
    /// Targets without compensation.
    pub uncompensated: Vec<Uncompensated>,
}

/// What is recorded of a transform, which may take several requests.
#[derive(Debug)]
pub struct PruneDetail {
    /// Whether the whole transform preserves the output.
    pub transform_class: TransformClass,
    /// Cleanup passes over all requests.
    pub passes: usize,
    /// The neurons that were requested, in order.
    pub requested_neurons: Vec<String>,
    /// The edges that were requested.
    pub removed_synapses: Vec<SynapseRef>,
    /// Neurons that the cleanup removed besides.
    pub cascade_neurons: Vec<String>,
    /// Edges that the cleanup removed besides.
    pub cascade_synapses: Vec<SynapseRef>,
    /// Neurons that the cleanup folded into constants.
    pub folded_neurons: Vec<String>,
    /// Conditional neurons that became plain ones.
    pub downgraded_if_neurons: Vec<String>,
    /// Conditional neurons that were replaced by one branch.
    pub static_if_neurons: Vec<StaticIfRecord>,
    /// Edges added to give a conditional neuron an emptied role back.
    pub restored_if_roles: Vec<SynapseRef>,
    /// Compensations by bias.
    pub bias_folds: Vec<BiasFoldRecord>,
    /// Compensations by weight.
    pub weight_shares: Vec<WeightShareRecord>,
    /// Targets without compensation.
    pub uncompensated: Vec<UncompensatedRecord>,
}

/// The list goes on with a record of each edge.
pub open spec fn goes_on_with_edges(
    before: Seq<SynapseRef>,
    keys: Seq<SynapseKey>,
    after: Seq<SynapseRef>,
) -> bool {
    &&& after.len() == before.len() + keys.len()
    &&& forall|i: int| 0 <= i < before.len() ==> (#[trigger] after[i]) == before[i]
    &&& forall|i: int| 0 <= i < keys.len() ==> refers(after[before.len() + i], #[trigger] keys[i])
}

/// The list goes on with a record of each fixed condition.
pub open spec fn goes_on_with_branches(
    before: Seq<StaticIfRecord>,
    fixed: Seq<StaticIf>,
    after: Seq<StaticIfRecord>,
) -> bool {
    &&& after.len() == before.len() + fixed.len()
    &&& forall|i: int| 0 <= i < before.len() ==> (#[trigger] after[i]) == before[i]
    &&& forall|i: int|
        0 <= i < fixed.len() ==> records_branch(after[before.len() + i], #[trigger] fixed[i])
}

/// The list goes on with a record of each loss.
pub open spec fn goes_on_with_losses(
    before: Seq<UncompensatedRecord>,
    losses: Seq<Uncompensated>,
    after: Seq<UncompensatedRecord>,
) -> bool {
    &&& after.len() == before.len() + losses.len()
    &&& forall|i: int| 0 <= i < before.len() ==> (#[trigger] after[i]) == before[i]
    &&& forall|i: int|
        0 <= i < losses.len() ==> records_loss(after[before.len() + i], #[trigger] losses[i])
}

fn add_edges(list: &mut Vec<SynapseRef>, keys: &Vec<SynapseKey>)
    ensures
        goes_on_with_edges(old(list)@, keys@, final(list)@),
{
    let ghost before = list@;
    let mut i: usize = 0;
    while i < keys.len()
        invariant
            i <= keys@.len(),
            goes_on_with_edges(before, keys@.take(i as int), list@),
        decreases keys.len() - i,
    {
        let ghost so_far = list@;
        list.push(SynapseRef::of(&keys[i]));
        proof {
            let head = keys@.take(i as int);
            let more = keys@.take(i + 1);
            assert forall|k: int| 0 <= k < more.len() implies refers(
                list@[before.len() + k],
                #[trigger] more[k],
            ) by {
                if k < i {
                    assert(more[k] == head[k]);
                    assert(list@[before.len() + k] == so_far[before.len() + k]);
                }
            }
        }
        i += 1;
    }
    assert(keys@.take(i as int) =~= keys@);
}

fn add_branches(list: &mut Vec<StaticIfRecord>, fixed: &Vec<StaticIf>)
    ensures
        goes_on_with_branches(old(list)@, fixed@, final(list)@),
{
    let ghost before = list@;
    let mut i: usize = 0;
    while i < fixed.len()
        invariant
            i <= fixed@.len(),
            goes_on_with_branches(before, fixed@.take(i as int), list@),
        decreases fixed.len() - i,
    {
        let ghost so_far = list@;
        list.push(
            StaticIfRecord {
                uuid: fixed[i].uuid.clone(),
                branch: text_of(role_label(fixed[i].branch)),
            },
        );
        proof {
            let head = fixed@.take(i as int);
            let more = fixed@.take(i + 1);
            assert forall|k: int| 0 <= k < more.len() implies records_branch(
                list@[before.len() + k],
                #[trigger] more[k],
            ) by {
                if k < i {
                    assert(more[k] == head[k]);
                    assert(list@[before.len() + k] == so_far[before.len() + k]);
                }
            }
        }
        i += 1;
    }
    assert(fixed@.take(i as int) =~= fixed@);
}

fn add_losses(list: &mut Vec<UncompensatedRecord>, losses: &Vec<Uncompensated>)
    ensures
        goes_on_with_losses(old(list)@, losses@, final(list)@),
{
    let ghost before = list@;
    let mut i: usize = 0;
    while i < losses.len()
        invariant
            i <= losses@.len(),
            goes_on_with_losses(before, losses@.take(i as int), list@),
        decreases losses.len() - i,
    {
        let ghost so_far = list@;
        let reason = match losses[i].reason {
            UncompensatedReason::NoStatistics => "no-statistics",
            UncompensatedReason::AggregateTarget => "aggregate-target",
        };
        list.push(
            UncompensatedRecord {
                target_uuid: losses[i].target_uuid.clone(),
                role: text_of(role_label(losses[i].role)),
                weight_sum: losses[i].weight_sum,
                squash: losses[i].squash.clone(),
                reason: text_of(reason),
            },
        );
        proof {
            let head = losses@.take(i as int);
            let more = losses@.take(i + 1);
            assert forall|k: int| 0 <= k < more.len() implies records_loss(
                list@[before.len() + k],
                #[trigger] more[k],
            ) by {
                if k < i {
                    assert(more[k] == head[k]);
                    assert(list@[before.len() + k] == so_far[before.len() + k]);
                }
            }
        }
        i += 1;
    }
    assert(losses@.take(i as int) =~= losses@);
}

impl Default for PruneDetail {
    /// A record of nothing.
    fn default() -> (r: PruneDetail)
        ensures
            r.blank(),
    {
        PruneDetail {
            transform_class: TransformClass::Exact,
            passes: 0,
            requested_neurons: Vec::new(),
            removed_synapses: Vec::new(),
            cascade_neurons: Vec::new(),
            cascade_synapses: Vec::new(),
            folded_neurons: Vec::new(),
            downgraded_if_neurons: Vec::new(),
            static_if_neurons: Vec::new(),
            restored_if_roles: Vec::new(),
            bias_folds: Vec::new(),
            weight_shares: Vec::new(),
            uncompensated: Vec::new(),
        }
    }
}

impl PruneDetail {
    /// Nothing is recorded yet.
    pub open spec fn blank(self) -> bool {
        &&& self.transform_class == TransformClass::Exact
        &&& self.passes == 0
        &&& self.requested_neurons@.len() == 0
        &&& self.removed_synapses@.len() == 0
        &&& self.cascade_neurons@.len() == 0
        &&& self.cascade_synapses@.len() == 0
        &&& self.folded_neurons@.len() == 0
        &&& self.downgraded_if_neurons@.len() == 0
        &&& self.static_if_neurons@.len() == 0
        &&& self.restored_if_roles@.len() == 0
        &&& self.bias_folds@.len() == 0
        &&& self.weight_shares@.len() == 0
        &&& self.uncompensated@.len() == 0
    }

    /// One request adds its report to a record: the whole is approximate as
    /// soon as one part is, passes add up, and the lists go on.
    pub open spec fn absorbed(before: PruneDetail, result: PruneResult, after: PruneDetail) -> bool {
        &&& after.transform_class == if result.transform == TransformClass::Approximate {
            TransformClass::Approximate
        } else {
            before.transform_class
        }
        &&& after.passes == before.passes + result.passes
        &&& after.requested_neurons@ == match result.removed_neuron {
            Some(uuid) => before.requested_neurons@.push(uuid),
            None => before.requested_neurons@,
        }
        &&& goes_on_with_edges(
            before.removed_synapses@,
            result.removed_synapses@,
            after.removed_synapses@,
        )
        &&& after.cascade_neurons@ == before.cascade_neurons@ + result.cascade_neurons@
        &&& goes_on_with_edges(
            before.cascade_synapses@,
            result.cascade_synapses@,
            after.cascade_synapses@,
        )
        &&& after.folded_neurons@ == before.folded_neurons@ + result.folded_neurons@
        &&& after.downgraded_if_neurons@ == before.downgraded_if_neurons@
            + result.downgraded_if_neurons@
        &&& goes_on_with_branches(
            before.static_if_neurons@,
            result.static_if_neurons@,
            after.static_if_neurons@,
        )
        &&& goes_on_with_edges(
            before.restored_if_roles@,
            result.restored_if_roles@,
            after.restored_if_roles@,
        )
        &&& after.bias_folds@ == before.bias_folds@ + result.bias_folds@
        &&& after.weight_shares@ == before.weight_shares@ + result.weight_shares@
        &&& goes_on_with_losses(
            before.uncompensated@,
            result.uncompensated@,
            after.uncompensated@,
        )
    }

    /// Takes the report of one more request in.
    pub fn absorb(&mut self, result: PruneResult)
        requires
            old(self).passes + result.passes <= usize::MAX,
        ensures
            PruneDetail::absorbed(*old(self), result, *final(self)),
    {
        if result.transform == TransformClass::Approximate {
            self.transform_class = TransformClass::Approximate;
        }
        self.passes += result.passes;
        add_edges(&mut self.removed_synapses, &result.removed_synapses);
        add_edges(&mut self.cascade_synapses, &result.cascade_synapses);
        add_branches(&mut self.static_if_neurons, &result.static_if_neurons);
        add_edges(&mut self.restored_if_roles, &result.restored_if_roles);
        add_losses(&mut self.uncompensated, &result.uncompensated);
        let mut cascade = result.cascade_neurons;
        self.cascade_neurons.append(&mut cascade);
        let mut folded = result.folded_neurons;
        self.folded_neurons.append(&mut folded);
        let mut downgraded = result.downgraded_if_neurons;
        self.downgraded_if_neurons.append(&mut downgraded);
        let mut folds = result.bias_folds;
        self.bias_folds.append(&mut folds);
        let mut shares = result.weight_shares;
        self.weight_shares.append(&mut shares);
        match result.removed_neuron {
            Some(uuid) => self.requested_neurons.push(uuid),
            None => {},
        }
    }

    /// The neurons that went besides the requested ones: those the cleanup
    /// removed, then those it folded, each once.
    pub open spec fn cascade(self) -> Seq<Seq<char>> {
        with_texts(Seq::empty(), texts(self.cascade_neurons@) + texts(self.folded_neurons@))
    }

    /// The neurons that went besides the requested ones.
    pub fn cascade_uuids(&self) -> (r: Vec<String>)
        ensures
            texts(r@) == self.cascade(),
    {
        let mut out: Vec<String> = Vec::new();
        let ghost first = texts(self.cascade_neurons@);
        let ghost all = first + texts(self.folded_neurons@);
        let mut i: usize = 0;
        assert(all.take(0) =~= Seq::empty());
        assert(texts(out@) =~= Seq::empty());
        while i < self.cascade_neurons.len()
            invariant
                i <= self.cascade_neurons@.len(),
                first == texts(self.cascade_neurons@),
                all == first + texts(self.folded_neurons@),
                texts(out@) == with_texts(Seq::empty(), all.take(i as int)),
            decreases self.cascade_neurons.len() - i,
        {
            proof {
                assert(all.take(i + 1).drop_last() =~= all.take(i as int));
                assert(all.take(i + 1).last() == self.cascade_neurons@[i as int]@);
            }
            note(&mut out, &self.cascade_neurons[i]);
            i += 1;
        }
        let mut k: usize = 0;
        while k < self.folded_neurons.len()
            invariant
                k <= self.folded_neurons@.len(),
                first == texts(self.cascade_neurons@),
                all == first + texts(self.folded_neurons@),
                texts(out@) == with_texts(Seq::empty(), all.take(first.len() + k)),
            decreases self.folded_neurons.len() - k,
        {
            proof {
                let at = first.len() + k;
                assert(all.take(at + 1).drop_last() =~= all.take(at));
                assert(all.take(at + 1).last() == self.folded_neurons@[k as int]@);
            }
            note(&mut out, &self.folded_neurons[k]);
            k += 1;
        }
        assert(all.take(first.len() + k) =~= all);
        out
    }

    /// Every neuron that went: the requested ones, then the others.
    pub fn removed_uuids(&self) -> (r: Vec<String>)
        ensures
            texts(r@) == texts(self.requested_neurons@) + self.cascade(),
    {
        let mut out: Vec<String> = Vec::new();
        let mut i: usize = 0;
        while i < self.requested_neurons.len()
            invariant
                i <= self.requested_neurons@.len(),
                out@ == self.requested_neurons@.take(i as int),
            decreases self.requested_neurons.len() - i,
        {
            out.push(self.requested_neurons[i].clone());
            assert(out@ =~= self.requested_neurons@.take(i + 1));
            i += 1;
        }
        let mut rest = self.cascade_uuids();
        let ghost tail = rest@;
        out.append(&mut rest);
        assert(texts(out@) =~= texts(self.requested_neurons@) + texts(tail));
        out
    }

    /// Whether every target that lost a term got something back.
    pub fn fully_compensated(&self) -> (r: bool)
        ensures
            r == (self.uncompensated@.len() == 0),
    {
        self.uncompensated.len() == 0
    }
}

/// The cascade names each neuron once, whether it was removed, folded, or
/// first the one and later the other.
pub proof fn law_cascade_names_each_neuron_once(detail: PruneDetail)
    ensures
        detail.cascade().no_duplicates(),
        forall|t: Seq<char>| #[trigger]
            detail.cascade().contains(t) <==> texts(detail.cascade_neurons@).contains(t) || texts(
                detail.folded_neurons@,
            ).contains(t),
{
    let first = texts(detail.cascade_neurons@);
    let second = texts(detail.folded_neurons@);
    let all = first + second;
    law_noted_texts_stand_once(Seq::empty(), all);
    assert forall|t: Seq<char>| #[trigger] detail.cascade().contains(t) <==> first.contains(t)
        || second.contains(t) by {
        if first.contains(t) {
            let k = choose|k: int| 0 <= k < first.len() && first[k] == t;
            assert(all[k] == t);
        }
        if second.contains(t) {
            let k = choose|k: int| 0 <= k < second.len() && second[k] == t;
            assert(all[first.len() + k] == t);
        }
        if all.contains(t) {
            let k = choose|k: int| 0 <= k < all.len() && all[k] == t;
            if k < first.len() {
                assert(first[k] == t);
            } else {
                assert(second[k - first.len()] == t);
            }
        }
    }
}

/// Requests make one transform: it is exact only if each of them was, and it
/// leaves no target uncompensated only if none of them did.
pub proof fn law_one_weak_request_weakens_the_whole(
    before: PruneDetail,
    result: PruneResult,
    after: PruneDetail,
)
    requires
        PruneDetail::absorbed(before, result, after),
    ensures
        after.transform_class == TransformClass::Exact <==> before.transform_class
            == TransformClass::Exact && result.transform == TransformClass::Exact,
        after.uncompensated@.len() == 0 <==> before.uncompensated@.len() == 0
            && result.uncompensated@.len() == 0,
{
}

/// Why the engine refused a request.
#[derive(Clone, Copy, Debug, PartialEq, Eq, Structural)]
pub enum PruneErrorKind {
    /// A statistic is not a number.
    NonFiniteStatistic,
    /// A variance is negative.
    NegativeVariance,
    /// A proxy does not vary.
    DegenerateProxy,
    /// A covariance does not fit its variances.
    InconsistentCovariance,
    /// A proxy is not there.
    UnknownProxy,
    /// A proxy does not feed the target.
    MissingProxyEdge,
    /// The neuron is not there.
    UnknownNeuron,
    /// The edge is not there.
    UnknownSynapse,
    /// The structure may not be removed.
    Protected,
    /// The neuron's type is not known.
    UnknownNeuronType,
    /// The cleanup failed.
    Cleanup,
}

/// The reason that a refusal is counted under: unusable statistics, structure
/// that may not go or is not there, or a defect of the engine.
pub open spec fn refusal_reason(kind: PruneErrorKind) -> BlockedReason {
    match kind {
        PruneErrorKind::NonFiniteStatistic => BlockedReason::MissingActivation,
        PruneErrorKind::NegativeVariance => BlockedReason::MissingActivation,
        PruneErrorKind::DegenerateProxy => BlockedReason::MissingActivation,
        PruneErrorKind::InconsistentCovariance => BlockedReason::MissingActivation,
        PruneErrorKind::UnknownProxy => BlockedReason::MissingActivation,
        PruneErrorKind::MissingProxyEdge => BlockedReason::MissingActivation,
        PruneErrorKind::UnknownNeuron => BlockedReason::UnsafeTopology,
        PruneErrorKind::UnknownSynapse => BlockedReason::UnsafeTopology,
        PruneErrorKind::Protected => BlockedReason::UnsafeTopology,
        PruneErrorKind::UnknownNeuronType => BlockedReason::UnsafeTopology,
        PruneErrorKind::Cleanup => BlockedReason::ValidationFailed,
    }
}

/// The reason that a refusal is counted under.
pub fn reason_for(kind: PruneErrorKind) -> (r: BlockedReason)
    ensures
        r == refusal_reason(kind),
{
    match kind {
        PruneErrorKind::NonFiniteStatistic
        | PruneErrorKind::NegativeVariance
        | PruneErrorKind::DegenerateProxy
        | PruneErrorKind::InconsistentCovariance
        | PruneErrorKind::UnknownProxy
        | PruneErrorKind::MissingProxyEdge => BlockedReason::MissingActivation,
        PruneErrorKind::UnknownNeuron
        | PruneErrorKind::UnknownSynapse
        | PruneErrorKind::Protected
        | PruneErrorKind::UnknownNeuronType => BlockedReason::UnsafeTopology,
        PruneErrorKind::Cleanup => BlockedReason::ValidationFailed,
    }
}

/// A refusal of the engine, with its own words.
#[derive(Debug)]
pub struct PruneError {
    /// Which refusal it is.
    pub kind: PruneErrorKind,
    /// What the engine says of it.
    pub message: String,
}

/// Why there is no candidate.
#[derive(Debug)]
pub struct PruneRefusal {
    /// The reason that the blocked visit is counted under.
    pub reason: BlockedReason,
    /// The refusal in words.
    pub detail: String,
}

impl PruneRefusal {
    /// The reason that the blocked visit is counted under.
    pub fn blocked_reason(&self) -> (r: BlockedReason)
        ensures
            r == self.reason,
    {
        self.reason
    }

    /// The refusal in words.
    pub fn message(&self) -> (r: String)
        ensures
            r@ == self.detail@,
    {
        self.detail.clone()
    }

    /// What the engine's refusal amounts to.
    pub fn of(error: &PruneError) -> (r: PruneRefusal)
        ensures
            r.reason == refusal_reason(error.kind),
            r.detail@ == error.message@,
    {
        PruneRefusal { reason: reason_for(error.kind), detail: error.message.clone() }
    }
}

/// What was measured about a neuron, as far as a rewrite is told of it.
#[derive(Clone, Copy, Debug, PartialEq, Eq, Structural)]
pub struct NeuronStats {
    /// Records that were read.
    pub count: u64,
    /// The variance over them.
    pub variance: Measure,
}

/// What a request says about the activation that goes.
#[derive(Clone, Copy, Debug, PartialEq, Eq, Structural)]
pub struct PruneStats {
    /// The value that stands in for it.
    pub mean_activation: Measure,
    /// Its variance, where one was measured.
    pub variance: Option<Measure>,
}

/// The variance that a request may carry: one measured over two records or
/// more, finite and not negative.
pub open spec fn usable_variance(stats: Option<NeuronStats>) -> Option<Measure> {
    match stats {
        Some(found) => if found.count >= 2 && found.variance.finite() && (Measure {
            bits: 0,
        }).at_most(found.variance) {
            Some(found.variance)
        } else {
            None
        },
        None => None,
    }
}

/// What a request says about a neuron.
pub fn hint(mean: Measure, stats: Option<NeuronStats>) -> (r: PruneStats)
    ensures
        r.mean_activation == mean,
        r.variance == usable_variance(stats),
{
    let variance = match stats {
        Some(found) => {
            if found.count >= 2 && found.variance.is_finite() && Measure::zero().le(found.variance) {
                Some(found.variance)
            } else {
                None
            }
        },
        None => None,
    };
    PruneStats { mean_activation: mean, variance }
}

/// A creature that a rewrite left, with what the rewrite was.
#[derive(Debug)]
pub struct PrunedCandidate {
    /// The creature.
    pub creature: Creature,
    /// The size before.
    pub before: Structure,
    /// The size after.
    pub after: Structure,
    /// The engine's report.
    pub detail: PruneDetail,
}

impl PrunedCandidate {
    /// Whether every target that lost a term got something back.
    pub fn fully_compensated(&self) -> (r: bool)
        ensures
            r == (self.detail.uncompensated@.len() == 0),
    {
        self.detail.fully_compensated()
    }
}

/// What the engine answers to a request, with what validation makes of the
/// creature that it returns.
#[derive(Debug)]
pub struct Rewrite {
    /// The engine's report.
    pub result: PruneResult,
    /// The creature that it returns.
    pub creature: Creature,
    /// What validation says of the creature.
    pub validation: Result<(), String>,
}

/// Lets a creature pass as a candidate only if it is valid.
fn guarded(
    before: Structure,
    detail: PruneDetail,
    creature: Creature,
    validation: Result<(), String>,
) -> (r: Result<PrunedCandidate, PruneRefusal>)
    ensures
        match r {
            Ok(made) => {
                &&& validation is Ok
                &&& made.creature == creature
                &&& made.before == before
                &&& made.after.measures(creature)
                &&& made.detail == detail
            },
            Err(refusal) => {
                &&& validation is Err
                &&& refusal.reason == BlockedReason::ValidationFailed
                &&& refusal.detail@ == "core prune returned a creature validation rejects: "@
                    + validation->Err_0@
            },
        },
{
    match validation {
        Ok(_) => {
            let after = Structure::of(&creature);
            Ok(PrunedCandidate { creature, before, after, detail })
        },
        Err(message) => {
            let mut words = text_of("core prune returned a creature validation rejects: ");
            words.append(message.as_str());
            Err(PruneRefusal { reason: BlockedReason::ValidationFailed, detail: words })
        },
    }
}

/// What one request to the engine amounts to.
pub open spec fn settles_request(
    incumbent: Creature,
    answer: Result<Rewrite, PruneError>,
    r: Result<PrunedCandidate, PruneRefusal>,
) -> bool {
    match answer {
        Err(error) => match r {
            Ok(_) => false,
            Err(refusal) => refusal.reason == refusal_reason(error.kind) && refusal.detail@
                == error.message@,
        },
        Ok(rewrite) => match (rewrite.validation, r) {
            (Ok(_), Ok(made)) => {
                &&& made.creature == rewrite.creature
                &&& made.before.measures(incumbent)
                &&& made.after.measures(rewrite.creature)
                &&& exists|start: PruneDetail| #[trigger]
                    start.blank() && PruneDetail::absorbed(start, rewrite.result, made.detail)
            },
            (Err(message), Err(refusal)) => {
                &&& refusal.reason == BlockedReason::ValidationFailed
                &&& refusal.detail@ == "core prune returned a creature validation rejects: "@
                    + message@
            },
            _ => false,
        },
    }
}

fn settle_request(incumbent: &Creature, answer: Result<Rewrite, PruneError>) -> (r: Result<
    PrunedCandidate,
    PruneRefusal,
>)
    ensures
        settles_request(*incumbent, answer, r),
{
    let before = Structure::of(incumbent);
    match answer {
        Ok(rewrite) => {
            let mut detail = PruneDetail::default();
            let ghost start = detail;
            assert(start.blank());
            detail.absorb(rewrite.result);
            assert(PruneDetail::absorbed(start, rewrite.result, detail));
            guarded(before, detail, rewrite.creature, rewrite.validation)
        },
        Err(error) => Err(PruneRefusal::of(&error)),
    }
}

/// Settles the request to remove one hidden neuron, by the engine's answer.
pub fn prune_hidden_neuron(incumbent: &Creature, answer: Result<Rewrite, PruneError>) -> (r: Result<
    PrunedCandidate,
    PruneRefusal,
>)
    ensures
        settles_request(*incumbent, answer, r),
{
    settle_request(incumbent, answer)
}

/// An edge of a creature with its role and weight.
#[derive(Debug)]
pub struct RoledEdge {
    /// Which edge it is.
    pub key: SynapseKey,
    /// Its weight.
    pub weight: Measure,
}

/// The edge runs from one to the other.
pub open spec fn joins(edge: RoledEdge, from: Seq<char>, to: Seq<char>) -> bool {
    edge.key.from_uuid@ == from && edge.key.to_uuid@ == to
}

/// The first edge between two ends is the one that a request names; without
/// one there is nothing to request.
pub fn edge_request(edges: &Vec<RoledEdge>, from_uuid: &str, to_uuid: &str) -> (r: Result<
    SynapseKey,
    PruneRefusal,
>)
    ensures
        match r {
            Ok(key) => exists|i: int|
                0 <= i < edges@.len() && joins(#[trigger] edges@[i], from_uuid@, to_uuid@)
                    && key.role == edges@[i].key.role && key.from_uuid@ == from_uuid@
                    && key.to_uuid@ == to_uuid@ && forall|k: int|
                    0 <= k < i ==> !joins(#[trigger] edges@[k], from_uuid@, to_uuid@),
            Err(refusal) => {
                &&& forall|k: int|
                    0 <= k < edges@.len() ==> !joins(#[trigger] edges@[k], from_uuid@, to_uuid@)
                &&& refusal.reason == BlockedReason::UnsafeTopology
                &&& refusal.detail@ == "no synapse `"@ + from_uuid@ + "`→`"@ + to_uuid@ + "`"@
            },
        },
{
    let mut i: usize = 0;
    while i < edges.len()
        invariant
            i <= edges@.len(),
            forall|k: int| 0 <= k < i ==> !joins(#[trigger] edges@[k], from_uuid@, to_uuid@),
        decreases edges.len() - i,
    {
        if same_text(edges[i].key.from_uuid.as_str(), from_uuid) && same_text(
            edges[i].key.to_uuid.as_str(),
            to_uuid,
        ) {
            let key = SynapseKey {
                from_uuid: text_of(from_uuid),
                to_uuid: text_of(to_uuid),
                role: edges[i].key.role,
            };
            assert(joins(edges@[i as int], from_uuid@, to_uuid@));
            return Ok(key);
        }
        i += 1;
    }
    let mut words = text_of("no synapse `");
    words.append(from_uuid);
    words.append("`→`");
    words.append(to_uuid);
    words.append("`");
    Err(PruneRefusal { reason: BlockedReason::UnsafeTopology, detail: words })
}

/// Settles the request to remove one edge, by the engine's answer.
pub fn prune_edge(incumbent: &Creature, answer: Result<Rewrite, PruneError>) -> (r: Result<
    PrunedCandidate,
    PruneRefusal,
>)
    ensures
        settles_request(*incumbent, answer, r),
{
    settle_request(incumbent, answer)
}

/// The edge is the one that the record names.
pub open spec fn named_by(edge: RoledEdge, record: SynapseRef) -> bool {
    joins(edge, record.from_uuid@, record.to_uuid@) && role_name(edge.key.role) == record.role@
}

/// The weights of the edges that a record names, in order.
pub open spec fn weights_under(edges: Seq<RoledEdge>, record: SynapseRef) -> Seq<Measure>
    decreases edges.len(),
{
    if edges.len() == 0 {
        Seq::empty()
    } else if named_by(edges.last(), record) {
        weights_under(edges.drop_last(), record).push(edges.last().weight)
    } else {
        weights_under(edges.drop_last(), record)
    }
}

/// The weights of all edges that records name, record by record.
pub open spec fn all_weights(edges: Seq<RoledEdge>, records: Seq<SynapseRef>) -> Seq<Measure>
    decreases records.len(),
{
    if records.len() == 0 {
        Seq::empty()
    } else {
        all_weights(edges, records.drop_last()) + weights_under(edges, records.last())
    }
}

/// The weights that a removal takes out of its targets, read from the creature
/// that the request was made against.
pub fn removed_weights(edges: &Vec<RoledEdge>, records: &Vec<SynapseRef>) -> (r: Vec<Measure>)
    ensures
        r@ == all_weights(edges@, records@),
{
    let mut out: Vec<Measure> = Vec::new();
    let mut i: usize = 0;
    assert(records@.take(0) =~= Seq::empty());
    while i < records.len()
        invariant
            i <= records@.len(),
            out@ == all_weights(edges@, records@.take(i as int)),
        decreases records.len() - i,
    {
        let ghost before = out@;
        let ghost record = records@[i as int];
        let mut k: usize = 0;
        assert(edges@.take(0) =~= Seq::empty());
        assert(before + Seq::<Measure>::empty() =~= before);
        while k < edges.len()
            invariant
                k <= edges@.len(),
                i < records@.len(),
                record == records@[i as int],
                out@ == before + weights_under(edges@.take(k as int), record),
            decreases edges.len() - k,
        {
            proof {
                assert(edges@.take(k + 1).drop_last() =~= edges@.take(k as int));
                assert(edges@.take(k + 1).last() == edges@[k as int]);
            }
            if same_text(edges[k].key.from_uuid.as_str(), records[i].from_uuid.as_str())
                && same_text(edges[k].key.to_uuid.as_str(), records[i].to_uuid.as_str())
                && same_text(role_label(edges[k].key.role), records[i].role.as_str()) {
                let ghost under = weights_under(edges@.take(k as int), record);
                let weight = edges[k].weight;
                assert((before + under).push(weight) =~= before + under.push(weight));
                out.push(weight);
            }
            k += 1;
        }
        proof {
            assert(edges@.take(k as int) =~= edges@);
            assert(records@.take(i + 1).drop_last() =~= records@.take(i as int));
            assert(records@.take(i + 1).last() == record);
        }
        i += 1;
    }
    assert(records@.take(i as int) =~= records@);
    out
}

/// One hidden neuron of a group, and the mean that stands in for it.
#[derive(Debug)]
pub struct GroupMember {
    /// The neuron.
    pub uuid: String,
    /// Its mean activation.
    pub mean: Measure,
}

/// Some member is the neuron.
pub open spec fn names_one(members: Seq<GroupMember>, uuid: Seq<char>) -> bool {
    exists|i: int| 0 <= i < members.len() && (#[trigger] members[i]).uuid@ == uuid
}

/// The members, each neuron once, as it is first named.
pub open spec fn first_named(members: Seq<GroupMember>) -> Seq<GroupMember>
    decreases members.len(),
{
    if members.len() == 0 {
        Seq::empty()
    } else {
        let before = first_named(members.drop_last());
        if names_one(before, members.last().uuid@) {
            before
        } else {
            before.push(members.last())
        }
    }
}

/// A neighbourhood that is cut by one request for each member. After each
/// request the engine's creature is the one that the next is made against.
#[derive(Debug)]
pub struct GroupCut {
    /// The members to request, each once.
    pub members: Vec<GroupMember>,
    /// How many of them are dealt with.
    pub at: usize,
    /// What the requests so far did.
    pub detail: PruneDetail,
    /// Whether there was a request.
    pub cut_any: bool,
}

/// An earlier request already took the member: it was hidden in the incumbent
/// and no longer is.
pub open spec fn already_gone(incumbent: Creature, working: Creature, uuid: Seq<char>) -> bool {
    carries_hidden(incumbent, uuid) && !carries_hidden(working, uuid)
}

/// The first member from `from` on that is still to be requested.
pub open spec fn next_wanted(
    members: Seq<GroupMember>,
    incumbent: Creature,
    working: Creature,
    from: int,
) -> int
    decreases members.len() - from,
{
    if from >= members.len() {
        members.len() as int
    } else if already_gone(incumbent, working, members[from].uuid@) {
        next_wanted(members, incumbent, working, from + 1)
    } else {
        from
    }
}

/// What a group cut comes to, given what its requests did and the creature that
/// the last of them left.
pub open spec fn ends_cut(
    cut_any: bool,
    detail: PruneDetail,
    incumbent: Creature,
    working: Creature,
    validation: Result<(), String>,
    r: Result<PrunedCandidate, PruneRefusal>,
) -> bool {
    match r {
        Ok(made) => {
            &&& cut_any
            &&& validation is Ok
            &&& made.creature == working
            &&& made.before.measures(incumbent)
            &&& made.after.measures(working)
            &&& made.detail == detail
        },
        Err(refusal) => refuses_cut(cut_any, validation, refusal),
    }
}

/// Why the cut of a group comes to nothing once its requests are made.
pub open spec fn refuses_cut(
    cut_any: bool,
    validation: Result<(), String>,
    refusal: PruneRefusal,
) -> bool {
    if !cut_any {
        &&& refusal.reason == BlockedReason::UnsafeTopology
        &&& refusal.detail@ == "group cut requested with no members the incumbent carries"@
    } else {
        &&& validation is Err
        &&& refusal.reason == BlockedReason::ValidationFailed
        &&& refusal.detail@ == "core prune returned a creature validation rejects: "@
            + validation->Err_0@
    }
}

/// An engine: what it answers to the request to remove a neuron of a creature.
pub type EngineModel = spec_fn(Creature, Seq<char>, PruneStats) -> Result<Rewrite, PruneError>;

/// Each record follows from the one before it by the report between them.
pub open spec fn follows_reports(details: Seq<PruneDetail>, reports: Seq<PruneResult>) -> bool {
    &&& details.len() == reports.len() + 1
    &&& details[0].blank()
    &&& forall|i: int|
        0 <= i < reports.len() ==> PruneDetail::absorbed(
            details[i],
            #[trigger] reports[i],
            details[i + 1],
        )
}

/// The record is what the reports add up to, in order.
pub open spec fn adds_up(reports: Seq<PruneResult>, detail: PruneDetail) -> bool {
    exists|details: Seq<PruneDetail>| #[trigger]
        follows_reports(details, reports) && details.last() == detail
}

/// The requests for the members from `at` on come to `r`: one for each member
/// that is still wanted, each made of the creature that the last one left, until
/// the engine refuses one or none is left.
pub open spec fn requests_come_to(
    engine: EngineModel,
    incumbent: Creature,
    members: Seq<GroupMember>,
    at: int,
    working: Creature,
    reports: Seq<PruneResult>,
    validation: Result<(), String>,
    r: Result<PrunedCandidate, PruneRefusal>,
) -> bool
    decreases members.len() - at,
{
    let next = next_wanted(members, incumbent, working, at);
    if at < 0 || at >= members.len() || next < at || next >= members.len() {
        match r {
            Ok(made) => adds_up(reports, made.detail) && ends_cut(
                reports.len() > 0,
                made.detail,
                incumbent,
                working,
                validation,
                r,
            ),
            Err(refusal) => refuses_cut(reports.len() > 0, validation, refusal),
        }
    } else {
        let stats = PruneStats { mean_activation: members[next].mean, variance: None };
        match engine(working, members[next].uuid@, stats) {
            Err(error) => match r {
                Ok(_) => false,
                Err(refusal) => refusal.reason == refusal_reason(error.kind) && refusal.detail@
                    == error.message@,
            },
            Ok(rewrite) => requests_come_to(
                engine,
                incumbent,
                members,
                next + 1,
                rewrite.creature,
                reports.push(rewrite.result),
                rewrite.validation,
                r,
            ),
        }
    }
}

/// Cutting the group comes to `r`.
pub open spec fn group_comes_to(
    engine: EngineModel,
    incumbent: Creature,
    members: Seq<GroupMember>,
    r: Result<PrunedCandidate, PruneRefusal>,
) -> bool {
    if members.len() == 0 {
        r matches Err(refusal) && refusal.reason == BlockedReason::UnsafeTopology
            && refusal.detail@ == "group cut requested with no members"@
    } else {
        requests_come_to(
            engine,
            incumbent,
            first_named(members),
            0,
            incumbent,
            Seq::empty(),
            Ok(()),
            r,
        )
    }
}

impl GroupCut {
    /// No more members are dealt with than there are.
    pub open spec fn well_formed(self) -> bool {
        self.at <= self.members@.len()
    }

    /// The cut of the group is under way: `reports` are in, the last of them left
    /// `working`, and what the rest of the requests comes to is what the whole
    /// group comes to.
    pub open spec fn under_way(
        self,
        engine: EngineModel,
        incumbent: Creature,
        members: Seq<GroupMember>,
        working: Creature,
        validation: Result<(), String>,
        reports: Seq<PruneResult>,
    ) -> bool {
        &&& self.well_formed()
        &&& self.cut_any == (reports.len() > 0)
        &&& adds_up(reports, self.detail)
        &&& forall|r: Result<PrunedCandidate, PruneRefusal>| #[trigger]
            group_comes_to(engine, incumbent, members, r) == requests_come_to(
                engine,
                incumbent,
                self.members@,
                self.at as int,
                working,
                reports,
                validation,
                r,
            )
    }

    /// Starts a group cut. A group of nothing is refused, for a candidate that
    /// removes nothing is none.
    pub fn new(members: &Vec<GroupMember>) -> (r: Result<GroupCut, PruneRefusal>)
        ensures
            match r {
                Ok(cut) => {
                    &&& members@.len() > 0
                    &&& cut.well_formed()
                    &&& cut.members@ == first_named(members@)
                    &&& cut.members@.len() > 0
                    &&& cut.at == 0
                    &&& cut.detail.blank()
                    &&& !cut.cut_any
                },
                Err(refusal) => {
                    &&& members@.len() == 0
                    &&& refusal.reason == BlockedReason::UnsafeTopology
                    &&& refusal.detail@ == "group cut requested with no members"@
                },
            },
    {
        if members.len() == 0 {
            return Err(
                PruneRefusal {
                    reason: BlockedReason::UnsafeTopology,
                    detail: text_of("group cut requested with no members"),
                },
            );
        }
        let mut seen: Vec<String> = Vec::new();
        let mut wanted: Vec<GroupMember> = Vec::new();
        let mut i: usize = 0;
        assert(members@.take(0) =~= Seq::empty());
        while i < members.len()
            invariant
                i <= members@.len(),
                wanted@ == first_named(members@.take(i as int)),
                seen@.len() == wanted@.len(),
                forall|k: int| 0 <= k < seen@.len() ==> (#[trigger] seen@[k]) == wanted@[k].uuid,
                i > 0 ==> wanted@.len() > 0,
            decreases members.len() - i,
        {
            let ghost before = wanted@;
            proof {
                assert(members@.take(i + 1).drop_last() =~= members@.take(i as int));
                assert(members@.take(i + 1).last() == members@[i as int]);
                let uuid = members@[i as int].uuid@;
                if texts(seen@).contains(uuid) {
                    let k = choose|k: int| 0 <= k < texts(seen@).len() && texts(seen@)[k] == uuid;
                    assert(seen@[k] == wanted@[k].uuid);
                    assert(wanted@[k].uuid@ == uuid);
                }
                if names_one(wanted@, uuid) {
                    let k = choose|k: int|
                        0 <= k < wanted@.len() && (#[trigger] wanted@[k]).uuid@ == uuid;
                    assert(seen@[k] == wanted@[k].uuid);
                    assert(texts(seen@)[k] == uuid);
                }
            }
            if !holds(&seen, &members[i].uuid) {
                seen.push(members[i].uuid.clone());
                wanted.push(GroupMember { uuid: members[i].uuid.clone(), mean: members[i].mean });
            }
            i += 1;
        }
        assert(members@.take(i as int) =~= members@);
        Ok(GroupCut { members: wanted, at: 0, detail: PruneDetail::default(), cut_any: false })
    }

    /// The next member to request, given the creature that the group is cut
    /// from and the one that the last request left. Members that an earlier
    /// request took are stepped over; every other is requested, whether the
    /// creature carries it or not.
    pub fn next(&mut self, incumbent: &Creature, working: &Creature) -> (r: Option<PruneStats>)
        requires
            old(self).well_formed(),
        ensures
            final(self).well_formed(),
            final(self).members == old(self).members,
            final(self).detail == old(self).detail,
            final(self).cut_any == old(self).cut_any,
            final(self).at == next_wanted(
                old(self).members@,
                *incumbent,
                *working,
                old(self).at as int,
            ),
            match r {
                Some(stats) => {
                    &&& final(self).at < final(self).members@.len()
                    &&& stats.mean_activation == final(self).members@[final(self).at as int].mean
                    &&& stats.variance is None
                },
                None => final(self).at == final(self).members@.len(),
            },
    {
        let ghost start = self.at as int;
        while self.at < self.members.len()
            invariant
                start == old(self).at,
                self.at <= self.members@.len(),
                self.members == old(self).members,
                self.detail == old(self).detail,
                self.cut_any == old(self).cut_any,
                next_wanted(self.members@, *incumbent, *working, start) == next_wanted(
                    self.members@,
                    *incumbent,
                    *working,
                    self.at as int,
                ),
            decreases self.members@.len() - self.at,
        {
            let member = &self.members[self.at];
            if is_hidden(incumbent, member.uuid.as_str()) && !is_hidden(
                working,
                member.uuid.as_str(),
            ) {
                self.at += 1;
            } else {
                return Some(hint(member.mean, None));
            }
        }
        None
    }

    /// Takes the engine's report on the current member in.
    pub fn settle(&mut self, result: PruneResult)
        requires
            old(self).at < old(self).members@.len(),
            old(self).detail.passes + result.passes <= usize::MAX,
        ensures
            final(self).well_formed(),
            final(self).members == old(self).members,
            final(self).at == old(self).at + 1,
            final(self).cut_any,
            PruneDetail::absorbed(old(self).detail, result, final(self).detail),
    {
        let count: usize = self.members.len();
        assert(self.at < count);
        self.detail.absorb(result);
        self.at += 1;
        self.cut_any = true;
    }

    /// Ends the cut with the creature that the last request left.
    pub fn finish(
        self,
        incumbent: &Creature,
        working: Creature,
        validation: Result<(), String>,
    ) -> (r: Result<PrunedCandidate, PruneRefusal>)
        ensures
            ends_cut(self.cut_any, self.detail, *incumbent, working, validation, r),
    {
        if !self.cut_any {
            return Err(
                PruneRefusal {
                    reason: BlockedReason::UnsafeTopology,
                    detail: text_of("group cut requested with no members the incumbent carries"),
                },
            );
        }
        let before = Structure::of(incumbent);
        guarded(before, self.detail, working, validation)
    }
}

/// Each neuron of a group is requested once at most, and every neuron that the
/// group names is among the members.
pub proof fn law_group_members_are_distinct(members: Seq<GroupMember>)
    ensures
        forall|i: int, j: int|
            #![trigger first_named(members)[i], first_named(members)[j]]
            0 <= i < j < first_named(members).len() ==> first_named(members)[i].uuid@
                != first_named(members)[j].uuid@,
        forall|i: int|
            0 <= i < members.len() ==> names_one(
                first_named(members),
                (#[trigger] members[i]).uuid@,
            ),
    decreases members.len(),
{
    if members.len() > 0 {
        let init = members.drop_last();
        law_group_members_are_distinct(init);
        let before = first_named(init);
        let after = first_named(members);
        assert forall|i: int, j: int|
            #![trigger after[i], after[j]]
            0 <= i < j < after.len() implies after[i].uuid@ != after[j].uuid@ by {
            assert(after[i] == before[i]);
            if j < before.len() {
                assert(after[j] == before[j]);
            }
        }
        assert forall|i: int| 0 <= i < members.len() implies names_one(
            after,
            (#[trigger] members[i]).uuid@,
        ) by {
            if i < init.len() {
                assert(init[i] == members[i]);
                let k = choose|k: int|
                    0 <= k < before.len() && (#[trigger] before[k]).uuid@ == members[i].uuid@;
                assert(after[k] == before[k]);
            } else if !names_one(before, members[i].uuid@) {
                assert(after[before.len() as int].uuid@ == members[i].uuid@);
            }
        }
    }
}

/// The first member of a group is always requested: nothing has gone yet.
pub proof fn law_first_member_is_requested(members: Seq<GroupMember>, incumbent: Creature)
    requires
        members.len() > 0,
    ensures
        next_wanted(members, incumbent, incumbent, 0) == 0,
{
}

/// A member that is stepped over was taken by an earlier request, and the one
/// that comes next was not.
pub proof fn law_only_taken_members_are_stepped_over(
    members: Seq<GroupMember>,
    incumbent: Creature,
    working: Creature,
    from: int,
)
    requires
        0 <= from <= members.len(),
    ensures
        from <= next_wanted(members, incumbent, working, from) <= members.len(),
        forall|i: int|
            from <= i < next_wanted(members, incumbent, working, from) ==> already_gone(
                incumbent,
                working,
                (#[trigger] members[i]).uuid@,
            ),
        next_wanted(members, incumbent, working, from) < members.len() ==> !already_gone(
            incumbent,
            working,
            members[next_wanted(members, incumbent, working, from)].uuid@,
        ),
    decreases members.len() - from,
{
    if from < members.len() && already_gone(incumbent, working, members[from].uuid@) {
        law_only_taken_members_are_stepped_over(members, incumbent, working, from + 1);
    }
}

/// Taking in the report of one more request keeps a record what the reports add
/// up to.
pub proof fn law_reports_add_up(
    reports: Seq<PruneResult>,
    before: PruneDetail,
    result: PruneResult,
    after: PruneDetail,
)
    requires
        adds_up(reports, before),
        PruneDetail::absorbed(before, result, after),
    ensures
        adds_up(reports.push(result), after),
{
    let details = choose|details: Seq<PruneDetail>| #[trigger]
        follows_reports(details, reports) && details.last() == before;
    let more = details.push(after);
    let all = reports.push(result);
    assert(follows_reports(more, all)) by {
        assert forall|i: int| 0 <= i < all.len() implies PruneDetail::absorbed(
            more[i],
            #[trigger] all[i],
            more[i + 1],
        ) by {
            if i < reports.len() {
                assert(all[i] == reports[i]);
            }
        }
    }
}

proof fn lemma_wanted_stays_wanted(
    members: Seq<GroupMember>,
    incumbent: Creature,
    working: Creature,
    from: int,
)
    requires
        0 <= from <= members.len(),
    ensures
        ({
            let next = next_wanted(members, incumbent, working, from);
            next_wanted(members, incumbent, working, next) == next
        }),
    decreases members.len() - from,
{
    if from < members.len() && already_gone(incumbent, working, members[from].uuid@) {
        lemma_wanted_stays_wanted(members, incumbent, working, from + 1);
    }
}

/// A cut that was just started is under way, with nothing reported.
pub proof fn law_group_cut_sets_out(
    engine: EngineModel,
    incumbent: Creature,
    members: Seq<GroupMember>,
    cut: GroupCut,
)
    requires
        members.len() > 0,
        cut.members@ == first_named(members),
        cut.at == 0,
        cut.detail.blank(),
        !cut.cut_any,
    ensures
        cut.under_way(engine, incumbent, members, incumbent, Ok(()), Seq::empty()),
{
    let details = seq![cut.detail];
    assert(follows_reports(details, Seq::empty()));
}

/// Finding the next member keeps a cut under way. If the engine then refuses the
/// member, the group comes to that refusal; if it answers, the cut that took the
/// report in is under way.
pub proof fn law_group_cut_stays_under_way(
    engine: EngineModel,
    incumbent: Creature,
    members: Seq<GroupMember>,
    working: Creature,
    validation: Result<(), String>,
    reports: Seq<PruneResult>,
    before: GroupCut,
    found: GroupCut,
    after: GroupCut,
)
    requires
        before.under_way(engine, incumbent, members, working, validation, reports),
        found.members == before.members,
        found.detail == before.detail,
        found.cut_any == before.cut_any,
        found.at == next_wanted(before.members@, incumbent, working, before.at as int),
        found.at < found.members@.len(),
        after.members == found.members,
        after.at == found.at + 1,
        after.cut_any,
    ensures
        found.under_way(engine, incumbent, members, working, validation, reports),
        ({
            let member = found.members@[found.at as int];
            let stats = PruneStats { mean_activation: member.mean, variance: None };
            match engine(working, member.uuid@, stats) {
                Err(error) => forall|r: Result<PrunedCandidate, PruneRefusal>| #[trigger]
                    group_comes_to(engine, incumbent, members, r) == (r matches Err(refusal)
                        && refusal.reason == refusal_reason(error.kind) && refusal.detail@
                        == error.message@),
                Ok(rewrite) => PruneDetail::absorbed(found.detail, rewrite.result, after.detail)
                    ==> after.under_way(
                    engine,
                    incumbent,
                    members,
                    rewrite.creature,
                    rewrite.validation,
                    reports.push(rewrite.result),
                ),
            }
        }),
{
    law_only_taken_members_are_stepped_over(
        before.members@,
        incumbent,
        working,
        before.at as int,
    );
    lemma_wanted_stays_wanted(before.members@, incumbent, working, before.at as int);
    let member = found.members@[found.at as int];
    let stats = PruneStats { mean_activation: member.mean, variance: None };
    if let Ok(rewrite) = engine(working, member.uuid@, stats) {
        if PruneDetail::absorbed(found.detail, rewrite.result, after.detail) {
            law_reports_add_up(reports, found.detail, rewrite.result, after.detail);
        }
    }
}

/// Once no member is left, what ends the cut is what the group comes to.
pub proof fn law_group_cut_arrives(
    engine: EngineModel,
    incumbent: Creature,
    members: Seq<GroupMember>,
    working: Creature,
    validation: Result<(), String>,
    reports: Seq<PruneResult>,
    cut: GroupCut,
    r: Result<PrunedCandidate, PruneRefusal>,
)
    requires
        cut.under_way(engine, incumbent, members, working, validation, reports),
        next_wanted(cut.members@, incumbent, working, cut.at as int) == cut.members@.len(),
        ends_cut(cut.cut_any, cut.detail, incumbent, working, validation, r),
    ensures
        group_comes_to(engine, incumbent, members, r),
{
}

proof fn lemma_first_named_again(members: Seq<GroupMember>)
    ensures
        first_named(first_named(members)) == first_named(members),
        members.len() > 0 ==> first_named(members).len() > 0,
    decreases members.len(),
{
    if members.len() > 0 {
        let init = members.drop_last();
        let before = first_named(init);
        lemma_first_named_again(init);
        if !names_one(before, members.last().uuid@) {
            let after = first_named(members);
            assert(after.drop_last() =~= before);
        }
    }
}

/// Naming a neuron of a group again changes nothing.
pub proof fn law_group_cuts_ignore_repeats(
    engine: EngineModel,
    incumbent: Creature,
    members: Seq<GroupMember>,
    r: Result<PrunedCandidate, PruneRefusal>,
)
    ensures
        group_comes_to(engine, incumbent, members, r) <==> group_comes_to(
            engine,
            incumbent,
            first_named(members),
            r,
        ),
{
    lemma_first_named_again(members);
}

/// A group of one neuron comes to what the cut of that neuron comes to, a
/// refusal included.
pub proof fn law_group_of_one_is_a_single_cut(
    engine: EngineModel,
    incumbent: Creature,
    members: Seq<GroupMember>,
    member: GroupMember,
    r: Result<PrunedCandidate, PruneRefusal>,
)
    requires
        first_named(members) == seq![member],
    ensures
        group_comes_to(engine, incumbent, members, r) <==> settles_request(
            incumbent,
            engine(
                incumbent,
                member.uuid@,
                PruneStats { mean_activation: member.mean, variance: None },
            ),
            r,
        ),
{
    let one = seq![member];
    let stats = PruneStats { mean_activation: member.mean, variance: None };
    assert(members.len() > 0) by {
        assert(first_named(members).len() == 1);
    }
    assert(next_wanted(one, incumbent, incumbent, 0) == 0);
    match engine(incumbent, member.uuid@, stats) {
        Err(error) => {},
        Ok(rewrite) => {
            let reports = Seq::<PruneResult>::empty().push(rewrite.result);
            assert(group_comes_to(engine, incumbent, members, r) == requests_come_to(
                engine,
                incumbent,
                one,
                1,
                rewrite.creature,
                reports,
                rewrite.validation,
                r,
            ));
            match r {
                Ok(made) => {
                    if adds_up(reports, made.detail) {
                        let details = choose|details: Seq<PruneDetail>| #[trigger]
                            follows_reports(details, reports) && details.last() == made.detail;
                        assert(reports[0] == rewrite.result);
                        assert(details[0].blank());
                        assert(PruneDetail::absorbed(details[0], reports[0], details[1]));
                    }
                    if exists|start: PruneDetail| #[trigger]
                        start.blank() && PruneDetail::absorbed(start, rewrite.result, made.detail) {
                        let start = choose|start: PruneDetail| #[trigger]
                            start.blank() && PruneDetail::absorbed(
                                start,
                                rewrite.result,
                                made.detail,
                            );
                        let details = seq![start, made.detail];
                        assert(follows_reports(details, reports));
                    }
                },
                Err(_) => {},
            }
        },
    }
}

/// The weights under a record are those of the edges with its ends and its role, in
/// order.
pub proof fn law_named_weights_are_read_in_order(
    edges: Seq<RoledEdge>,
    record: SynapseRef,
    marks: Seq<bool>,
)
    requires
        marks.len() == edges.len(),
        forall|i: int| 0 <= i < marks.len() ==> (#[trigger] marks[i]
            <==> (edges[i].key.from_uuid@ == record.from_uuid@
                && edges[i].key.to_uuid@ == record.to_uuid@ && role_name(edges[i].key.role)
                    == record.role@)),
    ensures
        weights_under(edges, record).len() == true_places(marks).len(),
        forall|k: int|
            0 <= k < true_places(marks).len() ==> (#[trigger] weights_under(edges, record)[k])
                == edges[true_places(marks)[k]].weight,
    decreases edges.len(),
{
    if edges.len() > 0 {
        let init = edges.drop_last();
        let some = marks.drop_last();
        let n = edges.len() - 1;
        assert forall|i: int| 0 <= i < some.len() implies (#[trigger] some[i]
            <==> (init[i].key.from_uuid@ == record.from_uuid@
                && init[i].key.to_uuid@ == record.to_uuid@ && role_name(init[i].key.role)
                    == record.role@)) by {
            assert(some[i] == marks[i]);
            assert(init[i] == edges[i]);
        }
        law_named_weights_are_read_in_order(init, record, some);
        assert(marks[n] <==> (edges[n].key.from_uuid@ == record.from_uuid@
            && edges[n].key.to_uuid@ == record.to_uuid@ && role_name(edges[n].key.role)
                == record.role@));
        law_true_places_ascend(some);
        let before = weights_under(init, record);
        let after = weights_under(edges, record);
        let was = true_places(some);
        let now = true_places(marks);
        assert forall|k: int| 0 <= k < now.len() implies (#[trigger] after[k])
            == edges[now[k]].weight by {
            if k < was.len() {
                assert(now[k] == was[k]);
                assert(0 <= was[k] < some.len());
                assert(init[was[k]] == edges[was[k]]);
                assert(after[k] == before[k]);
            }
        }
    }
}

/// Each neuron of a group is requested as it is first named, in order.
pub proof fn law_members_are_requested_as_first_named(members: Seq<GroupMember>, marks: Seq<bool>)
    requires
        marks.len() == members.len(),
        forall|i: int| 0 <= i < marks.len() ==> (#[trigger] marks[i]
            <==> (forall|j: int| 0 <= j < i ==> (#[trigger] members[j]).uuid@ != members[i].uuid@)),
    ensures
        first_named(members).len() == true_places(marks).len(),
        forall|k: int|
            0 <= k < true_places(marks).len() ==> (#[trigger] first_named(members)[k])
                == members[true_places(marks)[k]],
    decreases members.len(),
{
    if members.len() > 0 {
        let init = members.drop_last();
        let some = marks.drop_last();
        let n = members.len() - 1;
        assert forall|i: int| 0 <= i < some.len() implies (#[trigger] some[i]
            <==> (forall|j: int| 0 <= j < i ==> (#[trigger] init[j]).uuid@ != init[i].uuid@)) by {
            assert(some[i] == marks[i]);
            assert(init[i] == members[i]);
            assert(forall|j: int| 0 <= j < i ==> #[trigger] init[j] == members[j]);
            assert(forall|j: int| 0 <= j < i ==> #[trigger] members[j] == init[j]);
        }
        law_members_are_requested_as_first_named(init, some);
        lemma_named_before(init, members[n].uuid@);
        assert(forall|j: int| 0 <= j < n ==> #[trigger] init[j] == members[j]);
        assert(forall|j: int| 0 <= j < n ==> #[trigger] members[j] == init[j]);
        assert(marks[n] <==> (forall|j: int| 0 <= j < n
            ==> (#[trigger] members[j]).uuid@ != members[n].uuid@));
        law_true_places_ascend(some);
        let before = first_named(init);
        let after = first_named(members);
        let was = true_places(some);
        let now = true_places(marks);
        assert forall|k: int| 0 <= k < now.len() implies (#[trigger] after[k])
            == members[now[k]] by {
            if k < was.len() {
                assert(now[k] == was[k]);
                assert(0 <= was[k] < some.len());
                assert(init[was[k]] == members[was[k]]);
                assert(after[k] == before[k]);
            }
        }
    }
}

proof fn lemma_named_before(members: Seq<GroupMember>, uuid: Seq<char>)
    ensures
        names_one(first_named(members), uuid) <==> exists|j: int|
            0 <= j < members.len() && (#[trigger] members[j]).uuid@ == uuid,
    decreases members.len(),
{
    if members.len() > 0 {
        let init = members.drop_last();
        lemma_named_before(init, uuid);
        lemma_named_before(init, members.last().uuid@);
        let before = first_named(init);
        let after = first_named(members);
        let n = members.len() - 1;
        assert(members[n] == members.last());
        if names_one(before, uuid) {
            let j = choose|j: int| 0 <= j < init.len() && (#[trigger] init[j]).uuid@ == uuid;
            assert(members[j].uuid@ == uuid);
            let k = choose|k: int| 0 <= k < before.len() && (#[trigger] before[k]).uuid@ == uuid;
            assert(after[k].uuid@ == uuid);
        }
        if names_one(after, uuid) && !names_one(before, uuid) {
            let k = choose|k: int| 0 <= k < after.len() && (#[trigger] after[k]).uuid@ == uuid;
            if k < before.len() {
                assert(before[k].uuid@ == uuid);
            }
            assert(members[n].uuid@ == uuid);
        }
        if exists|j: int| 0 <= j < members.len() && (#[trigger] members[j]).uuid@ == uuid {
            let j = choose|j: int| 0 <= j < members.len() && (#[trigger] members[j]).uuid@ == uuid;
            if j < n {
                assert(init[j].uuid@ == uuid);
            } else if !names_one(before, uuid) {
                assert(after[before.len() as int].uuid@ == uuid);
            }
        }
    }
}

/// The weights under several records are those under each, record by record.
pub proof fn law_weights_come_record_by_record(
    edges: Seq<RoledEdge>,
    records: Seq<SynapseRef>,
    record: SynapseRef,
)
    ensures
        all_weights(edges, Seq::empty()) == Seq::<Measure>::empty(),
        all_weights(edges, records.push(record)) == all_weights(edges, records) + weights_under(
            edges,
            record,
        ),
{
    assert(records.push(record).drop_last() =~= records);
}

/// Taking a report in keeps what was recorded and adds all of the report at the end:
/// passes add up, the requested neuron is named, every neuron, synapse, fold and
/// share is listed, and the whole stays exact only if the request was.
pub proof fn law_reports_are_recorded_in_full(
    before: PruneDetail,
    result: PruneResult,
    after: PruneDetail,
    i: int,
)
    requires
        PruneDetail::absorbed(before, result, after),
        0 <= i,
    ensures
        after.passes == before.passes + result.passes,
        after.transform_class == TransformClass::Approximate <==> before.transform_class
            == TransformClass::Approximate || result.transform == TransformClass::Approximate,
        result.removed_neuron matches Some(uuid) ==> after.requested_neurons@
            == before.requested_neurons@.push(uuid),
        result.removed_neuron is None ==> after.requested_neurons@ == before.requested_neurons@,
        after.cascade_neurons@ == before.cascade_neurons@ + result.cascade_neurons@,
        after.folded_neurons@ == before.folded_neurons@ + result.folded_neurons@,
        after.downgraded_if_neurons@ == before.downgraded_if_neurons@
            + result.downgraded_if_neurons@,
        after.bias_folds@ == before.bias_folds@ + result.bias_folds@,
        after.weight_shares@ == before.weight_shares@ + result.weight_shares@,
        after.removed_synapses@.len() == before.removed_synapses@.len()
            + result.removed_synapses@.len(),
        i < before.removed_synapses@.len() ==> after.removed_synapses@[i]
            == before.removed_synapses@[i],
        i < result.removed_synapses@.len() ==> {
            let record = after.removed_synapses@[before.removed_synapses@.len() + i];
            let edge = result.removed_synapses@[i];
            record.from_uuid == edge.from_uuid && record.to_uuid == edge.to_uuid && record.role@
                == role_name(edge.role)
        },
        after.cascade_synapses@.len() == before.cascade_synapses@.len()
            + result.cascade_synapses@.len(),
        i < before.cascade_synapses@.len() ==> after.cascade_synapses@[i]
            == before.cascade_synapses@[i],
        i < result.cascade_synapses@.len() ==> {
            let record = after.cascade_synapses@[before.cascade_synapses@.len() + i];
            let edge = result.cascade_synapses@[i];
            record.from_uuid == edge.from_uuid && record.to_uuid == edge.to_uuid && record.role@
                == role_name(edge.role)
        },
        after.restored_if_roles@.len() == before.restored_if_roles@.len()
            + result.restored_if_roles@.len(),
        i < before.restored_if_roles@.len() ==> after.restored_if_roles@[i]
            == before.restored_if_roles@[i],
        i < result.restored_if_roles@.len() ==> {
            let record = after.restored_if_roles@[before.restored_if_roles@.len() + i];
            let edge = result.restored_if_roles@[i];
            record.from_uuid == edge.from_uuid && record.to_uuid == edge.to_uuid && record.role@
                == role_name(edge.role)
        },
        after.static_if_neurons@.len() == before.static_if_neurons@.len()
            + result.static_if_neurons@.len(),
        i < before.static_if_neurons@.len() ==> after.static_if_neurons@[i]
            == before.static_if_neurons@[i],
        i < result.static_if_neurons@.len() ==> {
            let record = after.static_if_neurons@[before.static_if_neurons@.len() + i];
            record.uuid == result.static_if_neurons@[i].uuid && record.branch@ == role_name(
                result.static_if_neurons@[i].branch,
            )
        },
        after.uncompensated@.len() == before.uncompensated@.len() + result.uncompensated@.len(),
        i < before.uncompensated@.len() ==> after.uncompensated@[i] == before.uncompensated@[i],
        i < result.uncompensated@.len() ==> {
            let record = after.uncompensated@[before.uncompensated@.len() + i];
            let loss = result.uncompensated@[i];
            &&& record.target_uuid == loss.target_uuid
            &&& record.weight_sum == loss.weight_sum
            &&& record.squash == loss.squash
            &&& record.role@ == role_name(loss.role)
            &&& record.reason@ == if loss.reason == UncompensatedReason::NoStatistics {
                "no-statistics"@
            } else {
                "aggregate-target"@
            }
        },
{
    if i < result.removed_synapses@.len() {
        assert(refers(
            after.removed_synapses@[before.removed_synapses@.len() + i],
            result.removed_synapses@[i],
        ));
    }
    if i < result.cascade_synapses@.len() {
        assert(refers(
            after.cascade_synapses@[before.cascade_synapses@.len() + i],
            result.cascade_synapses@[i],
        ));
    }
    if i < result.restored_if_roles@.len() {
        assert(refers(
            after.restored_if_roles@[before.restored_if_roles@.len() + i],
            result.restored_if_roles@[i],
        ));
    }
    if i < result.static_if_neurons@.len() {
        assert(records_branch(
            after.static_if_neurons@[before.static_if_neurons@.len() + i],
            result.static_if_neurons@[i],
        ));
    }
    if i < result.uncompensated@.len() {
        assert(records_loss(
            after.uncompensated@[before.uncompensated@.len() + i],
            result.uncompensated@[i],
        ));
    }
}

/// A refusal counts as an unusable statistic, as structure that may not go or is not
/// there, or as a defect of the engine, by what the engine says.
pub proof fn law_refusals_are_classed(kind: PruneErrorKind)
    ensures
        refusal_reason(kind) == BlockedReason::ValidationFailed <==> kind
            == PruneErrorKind::Cleanup,
        refusal_reason(kind) == BlockedReason::UnsafeTopology <==> kind
            == PruneErrorKind::UnknownNeuron || kind == PruneErrorKind::UnknownSynapse || kind
            == PruneErrorKind::Protected || kind == PruneErrorKind::UnknownNeuronType,
        refusal_reason(kind) == BlockedReason::MissingActivation <==> kind
            == PruneErrorKind::NonFiniteStatistic || kind == PruneErrorKind::NegativeVariance
            || kind == PruneErrorKind::DegenerateProxy || kind
            == PruneErrorKind::InconsistentCovariance || kind == PruneErrorKind::UnknownProxy
            || kind == PruneErrorKind::MissingProxyEdge,
{
}

/// A variance is told exactly if it was measured over two records or more and is a
/// finite number of at least nothing.
pub proof fn law_only_measured_variances_are_told(stats: Option<NeuronStats>)
    ensures
        usable_variance(stats) is Some <==> stats is Some && stats->0.count >= 2
            && stats->0.variance.magnitude() < 0x7FF0_0000_0000_0000
            && stats->0.variance.position() >= 0,
        usable_variance(stats) matches Some(variance) ==> variance == stats->0.variance,
{
}

/// A single request makes a candidate exactly if the engine answers with a creature
/// that is valid: then the candidate is that creature, measured against the one
/// that it was cut from. An invalid one counts as failed validation, and the
/// engine's own refusal as what it says.
pub proof fn law_requests_make_what_the_engine_answers(
    incumbent: Creature,
    answer: Result<Rewrite, PruneError>,
    r: Result<PrunedCandidate, PruneRefusal>,
)
    requires
        settles_request(incumbent, answer, r),
    ensures
        r is Ok <==> answer is Ok && answer->Ok_0.validation is Ok,
        r matches Ok(made) ==> {
            &&& made.creature == answer->Ok_0.creature
            &&& made.before.measures(incumbent)
            &&& made.after.measures(made.creature)
            &&& made.detail.passes == answer->Ok_0.result.passes
            &&& made.detail.transform_class == answer->Ok_0.result.transform
        },
        r matches Err(refusal) ==> {
            &&& answer matches Err(error) ==> refusal.reason == refusal_reason(error.kind)
                && refusal.detail@ == error.message@
            &&& answer is Ok ==> refusal.reason == BlockedReason::ValidationFailed
        },
{
    if let (Ok(made), Ok(rewrite)) = (r, answer) {
        let start = choose|start: PruneDetail| #[trigger]
            start.blank() && PruneDetail::absorbed(start, rewrite.result, made.detail);
        assert(PruneDetail::absorbed(start, rewrite.result, made.detail));
    }
}

/// A member is stepped over exactly if the incumbent carried it as a hidden neuron
/// and the working creature no longer does.
pub proof fn law_gone_members_are_stepped_over(
    incumbent: Creature,
    working: Creature,
    uuid: Seq<char>,
)
    ensures
        already_gone(incumbent, working, uuid) <==> (exists|i: int|
            0 <= i < incumbent.neurons@.len() && (#[trigger] incumbent.neurons@[i]).uuid@ == uuid
                && incumbent.neurons@[i].neuron_type@ == "hidden"@) && !(exists|i: int|
            0 <= i < working.neurons@.len() && (#[trigger] working.neurons@[i]).uuid@ == uuid
                && working.neurons@[i].neuron_type@ == "hidden"@),
{
}

/// Records know each role by its own name.
pub proof fn law_roles_have_their_names()
    ensures
        role_name(SynapseRole::Standard) == "standard"@,
        role_name(SynapseRole::Positive) == "positive"@,
        role_name(SynapseRole::Negative) == "negative"@,
        role_name(SynapseRole::Condition) == "condition"@,
{
}

} // verus!
