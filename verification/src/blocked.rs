//! Why a neuron could not be proposed for a cut.
use vstd::prelude::*;

use crate::sort::{
    law_sorted_is_a_permutation, law_sorted_is_in_order, law_sorted_is_stable, sorted, stable_sort,
    well_ranked, Ranked,
};
use crate::text::{decimal, decimal_text, join, joined, text_of, texts};

verus! {

/// The reason that a visit produced no candidate.
#[derive(Clone, Copy, Debug, PartialEq, Eq, Structural)]
pub enum BlockedReason {
    /// The neuron feeds or is an aggregate squash.
    AggregateSquash,
    /// No usable activation statistic was measured.
    MissingActivation,
    /// The structure around the neuron forbids the cut.
    UnsafeTopology,
    /// The cut creature failed validation.
    ValidationFailed,
    /// A record that does not say why.
    Unrecorded,
    /// An explicit reason with no category of its own.
    Other,
}

/// The code that reports carry for a reason.
pub open spec fn reason_code(reason: BlockedReason) -> Seq<char> {
    match reason {
        BlockedReason::AggregateSquash => "aggregate-squash"@,
        BlockedReason::MissingActivation => "missing-activation"@,
        BlockedReason::UnsafeTopology => "unsafe-topology"@,
        BlockedReason::ValidationFailed => "validation-failed"@,
        BlockedReason::Unrecorded => "unrecorded"@,
        BlockedReason::Other => "other"@,
    }
}

impl BlockedReason {
    /// The code that reports carry.
    pub fn code(self) -> (r: &'static str)
        ensures
            r@ == reason_code(self),
    {
        match self {
            BlockedReason::AggregateSquash => "aggregate-squash",
            BlockedReason::MissingActivation => "missing-activation",
            BlockedReason::UnsafeTopology => "unsafe-topology",
            BlockedReason::ValidationFailed => "validation-failed",
            BlockedReason::Unrecorded => "unrecorded",
            BlockedReason::Other => "other",
        }
    }
}

/// Where a reason stands in the list.
pub open spec fn reason_place(reason: BlockedReason) -> int {
    match reason {
        BlockedReason::AggregateSquash => 0,
        BlockedReason::MissingActivation => 1,
        BlockedReason::UnsafeTopology => 2,
        BlockedReason::ValidationFailed => 3,
        BlockedReason::Unrecorded => 4,
        BlockedReason::Other => 5,
    }
}

/// A reason with the number of neurons that are blocked for it.
#[derive(Clone, Copy, Debug, PartialEq, Eq, Structural)]
pub struct ReasonCount {
    /// The reason.
    pub reason: BlockedReason,
    /// How many neurons.
    pub count: usize,
}

impl Ranked for ReasonCount {
    open spec fn before(self, other: ReasonCount) -> bool {
        self.count > other.count
    }

    fn is_before(&self, other: &ReasonCount) -> (b: bool) {
        self.count > other.count
    }
}

/// Every reason, in the order of the list.
pub open spec fn all_reasons() -> Seq<BlockedReason> {
    seq![
        BlockedReason::AggregateSquash,
        BlockedReason::MissingActivation,
        BlockedReason::UnsafeTopology,
        BlockedReason::ValidationFailed,
        BlockedReason::Unrecorded,
        BlockedReason::Other,
    ]
}

/// The first `n` reasons with their counts, without those that block nothing.
pub open spec fn listed(breakdown: BlockedBreakdown, n: int) -> Seq<ReasonCount>
    decreases n,
{
    if n <= 0 {
        Seq::empty()
    } else {
        let reason = all_reasons()[n - 1];
        let before = listed(breakdown, n - 1);
        if breakdown.of(reason) > 0 {
            before.push(ReasonCount { reason, count: breakdown.of(reason) })
        } else {
            before
        }
    }
}

/// The counts in words, each with its share.
pub open spec fn count_texts(counts: Seq<ReasonCount>, shares: Seq<Seq<char>>) -> Seq<Seq<char>> {
    Seq::new(
        counts.len(),
        |i: int|
            reason_code(counts[i].reason) + " "@ + decimal(counts[i].count as nat) + " ("@
                + shares[i] + "%)"@,
    )
}

/// How many neurons are blocked for each reason.
#[derive(Clone, Copy, Debug, PartialEq, Eq, Structural)]
pub struct BlockedBreakdown {
    /// Blocked by an aggregate squash.
    pub aggregate_squash: usize,
    /// Blocked by a missing statistic.
    pub missing_activation: usize,
    /// Blocked by the structure around the neuron.
    pub unsafe_topology: usize,
    /// Blocked by validation.
    pub validation_failed: usize,
    /// Blocked for a reason that was not recorded.
    pub unrecorded: usize,
    /// Blocked for some other reason.
    pub other: usize,
}

impl Default for BlockedBreakdown {
    fn default() -> (r: BlockedBreakdown)
        ensures
            forall|reason: BlockedReason| #[trigger] r.of(reason) == 0,
            r.sum() == 0,
    {
        BlockedBreakdown {
            aggregate_squash: 0,
            missing_activation: 0,
            unsafe_topology: 0,
            validation_failed: 0,
            unrecorded: 0,
            other: 0,
        }
    }
}

impl BlockedBreakdown {
    /// The number of neurons over all reasons.
    pub open spec fn sum(self) -> int {
        self.aggregate_squash + self.missing_activation + self.unsafe_topology
            + self.validation_failed + self.unrecorded + self.other
    }

    /// The number of neurons blocked for one reason.
    pub open spec fn of(self, reason: BlockedReason) -> usize {
        match reason {
            BlockedReason::AggregateSquash => self.aggregate_squash,
            BlockedReason::MissingActivation => self.missing_activation,
            BlockedReason::UnsafeTopology => self.unsafe_topology,
            BlockedReason::ValidationFailed => self.validation_failed,
            BlockedReason::Unrecorded => self.unrecorded,
            BlockedReason::Other => self.other,
        }
    }

    /// The reason is the commonest, and of equals the one listed first.
    pub open spec fn led_by(self, reason: BlockedReason) -> bool {
        &&& self.of(reason) > 0
        &&& forall|other: BlockedReason| #[trigger]
            self.of(other) < self.of(reason) || (self.of(other) == self.of(reason)
                && reason_place(reason) <= reason_place(other))
    }

    /// The number of neurons over all reasons.
    pub fn total(&self) -> (r: usize)
        requires
            self.sum() <= usize::MAX,
        ensures
            r == self.sum(),
    {
        self.aggregate_squash + self.missing_activation + self.unsafe_topology
            + self.validation_failed + self.unrecorded + self.other
    }

    /// The number of neurons over all reasons, if a count can hold it.
    pub fn checked_total(&self) -> (r: Option<usize>)
        ensures
            r == if self.sum() <= usize::MAX {
                Some(self.sum() as usize)
            } else {
                None
            },
    {
        let a: usize = match self.aggregate_squash.checked_add(self.missing_activation) {
            Some(n) => n,
            None => return None,
        };
        let b: usize = match a.checked_add(self.unsafe_topology) {
            Some(n) => n,
            None => return None,
        };
        let c: usize = match b.checked_add(self.validation_failed) {
            Some(n) => n,
            None => return None,
        };
        let d: usize = match c.checked_add(self.unrecorded) {
            Some(n) => n,
            None => return None,
        };
        d.checked_add(self.other)
    }

    /// The number of neurons blocked for one reason.
    pub fn count(&self, reason: BlockedReason) -> (r: usize)
        ensures
            r == self.of(reason),
    {
        match reason {
            BlockedReason::AggregateSquash => self.aggregate_squash,
            BlockedReason::MissingActivation => self.missing_activation,
            BlockedReason::UnsafeTopology => self.unsafe_topology,
            BlockedReason::ValidationFailed => self.validation_failed,
            BlockedReason::Unrecorded => self.unrecorded,
            BlockedReason::Other => self.other,
        }
    }

    /// Counts one more neuron.
    pub fn add(&mut self, reason: BlockedReason)
        requires
            old(self).of(reason) < usize::MAX,
        ensures
            final(self).of(reason) == old(self).of(reason) + 1,
            forall|other: BlockedReason|
                other != reason ==> #[trigger] final(self).of(other) == old(self).of(other),
    {
        match reason {
            BlockedReason::AggregateSquash => self.aggregate_squash += 1,
            BlockedReason::MissingActivation => self.missing_activation += 1,
            BlockedReason::UnsafeTopology => self.unsafe_topology += 1,
            BlockedReason::ValidationFailed => self.validation_failed += 1,
            BlockedReason::Unrecorded => self.unrecorded += 1,
            BlockedReason::Other => self.other += 1,
        }
    }

    /// The reasons that block anything, the commonest first, and of equals the
    /// one listed first.
    pub open spec fn by_count(self) -> Seq<ReasonCount> {
        sorted(listed(self, 6))
    }

    fn list_one(&self, list: &mut Vec<ReasonCount>, reason: BlockedReason)
        ensures
            final(list)@ == if self.of(reason) > 0 {
                old(list)@.push(ReasonCount { reason, count: self.of(reason) })
            } else {
                old(list)@
            },
    {
        let count = self.count(reason);
        if count > 0 {
            list.push(ReasonCount { reason, count });
        }
    }

    /// The reasons that block anything, the commonest first.
    pub fn ranked(&self) -> (r: Vec<ReasonCount>)
        ensures
            r@ == self.by_count(),
    {
        let mut list: Vec<ReasonCount> = Vec::new();
        proof {
            reveal_with_fuel(listed, 7);
            assert(list@ =~= listed(*self, 0));
        }
        self.list_one(&mut list, BlockedReason::AggregateSquash);
        self.list_one(&mut list, BlockedReason::MissingActivation);
        self.list_one(&mut list, BlockedReason::UnsafeTopology);
        self.list_one(&mut list, BlockedReason::ValidationFailed);
        self.list_one(&mut list, BlockedReason::Unrecorded);
        self.list_one(&mut list, BlockedReason::Other);
        stable_sort(list)
    }

    /// The breakdown in words, the commonest reason first:
    /// `aggregate-squash 380 (92.2%) · missing-activation 32 (7.8%)`. The
    /// shares are those of the ranked reasons, in per cent.
    pub fn summary(&self, shares: &Vec<String>) -> (r: String)
        requires
            shares@.len() == self.by_count().len(),
        ensures
            r@ == joined(count_texts(self.by_count(), texts(shares@)), " · "@),
            self.sum() == 0 ==> r@.len() == 0,
    {
        proof {
            reveal_with_fuel(listed, 7);
        }
        let ranked = self.ranked();
        let ghost words = count_texts(ranked@, texts(shares@));
        let mut parts: Vec<String> = Vec::new();
        let mut i: usize = 0;
        while i < ranked.len()
            invariant
                i <= ranked@.len(),
                shares@.len() == ranked@.len(),
                words == count_texts(ranked@, texts(shares@)),
                parts@.len() == i,
                forall|k: int| 0 <= k < i ==> (#[trigger] parts@[k])@ == words[k],
            decreases ranked.len() - i,
        {
            let number = decimal_text(ranked[i].count as u64);
            let mut part = text_of(ranked[i].reason.code());
            part.append(" ");
            part.append(number.as_str());
            part.append(" (");
            part.append(shares[i].as_str());
            part.append("%)");
            assert(part@ == words[i as int]);
            parts.push(part);
            i += 1;
        }
        assert(texts(parts@) =~= words);
        join(&parts, " · ")
    }

    /// The commonest reason with its count; of equals the one listed first.
    pub fn dominant(&self) -> (r: Option<(BlockedReason, usize)>)
        ensures
            match r {
                Some((reason, count)) => count == self.of(reason) && self.led_by(reason),
                None => self.sum() == 0,
            },
    {
        let mut best: (BlockedReason, usize) = (
            BlockedReason::AggregateSquash,
            self.aggregate_squash,
        );
        if self.missing_activation > best.1 {
            best = (BlockedReason::MissingActivation, self.missing_activation);
        }
        if self.unsafe_topology > best.1 {
            best = (BlockedReason::UnsafeTopology, self.unsafe_topology);
        }
        if self.validation_failed > best.1 {
            best = (BlockedReason::ValidationFailed, self.validation_failed);
        }
        if self.unrecorded > best.1 {
            best = (BlockedReason::Unrecorded, self.unrecorded);
        }
        if self.other > best.1 {
            best = (BlockedReason::Other, self.other);
        }
        if best.1 > 0 {
            Some(best)
        } else {
            None
        }
    }
}

/// Reasons are listed with their own counts, those that block most first, and
/// without those that block nothing; each once.
pub proof fn law_reasons_are_ranked_by_count(breakdown: BlockedBreakdown, reason: BlockedReason)
    ensures
        forall|i: int, j: int|
            #![trigger breakdown.by_count()[i], breakdown.by_count()[j]]
            0 <= i < j < breakdown.by_count().len() ==> breakdown.by_count()[i].count
                >= breakdown.by_count()[j].count,
        forall|i: int|
            0 <= i < breakdown.by_count().len() ==> (#[trigger] breakdown.by_count()[i]).count
                == breakdown.of(breakdown.by_count()[i].reason) && breakdown.by_count()[i].count
                > 0,
        breakdown.of(reason) > 0 ==> exists|i: int|
            0 <= i < breakdown.by_count().len() && (#[trigger] breakdown.by_count()[i]).reason
                == reason,
{
    let all = listed(breakdown, 6);
    let out = sorted(all);
    law_sorted_is_a_permutation(all);
    lemma_counts_are_well_ranked(all);
    law_sorted_is_in_order(all);
    lemma_listed_counts(breakdown, 6);
    assert forall|i: int| 0 <= i < out.len() implies (#[trigger] out[i]).count == breakdown.of(
        out[i].reason,
    ) && out[i].count > 0 by {
        assert(out.contains(out[i]));
        assert(all.contains(out[i]));
        let k = choose|k: int| 0 <= k < all.len() && all[k] == out[i];
        assert(all[k].count > 0);
    }
    assert forall|i: int, j: int|
        #![trigger out[i], out[j]]
        0 <= i < j < out.len() implies out[i].count >= out[j].count by {
        assert(!out[j].before(out[i]));
    }
    if breakdown.of(reason) > 0 {
        let entry = ReasonCount { reason, count: breakdown.of(reason) };
        lemma_listed(breakdown, reason_place(reason) + 1, 6, reason);
        assert(all.contains(entry));
        assert(out.contains(entry));
        let i = choose|i: int| 0 <= i < out.len() && out[i] == entry;
        assert(out[i].reason == reason);
    }
}

proof fn lemma_counts_are_well_ranked(list: Seq<ReasonCount>)
    ensures
        well_ranked(list),
{
}

proof fn lemma_listed_counts(breakdown: BlockedBreakdown, n: int)
    ensures
        forall|i: int|
            0 <= i < listed(breakdown, n).len() ==> (#[trigger] listed(breakdown, n)[i]).count
                == breakdown.of(listed(breakdown, n)[i].reason) && listed(breakdown, n)[i].count
                > 0,
    decreases n,
{
    if n > 0 {
        lemma_listed_counts(breakdown, n - 1);
        let before = listed(breakdown, n - 1);
        let after = listed(breakdown, n);
        assert forall|i: int| 0 <= i < after.len() implies (#[trigger] after[i]).count
            == breakdown.of(after[i].reason) && after[i].count > 0 by {
            if i < before.len() {
                assert(after[i] == before[i]);
            }
        }
    }
}

proof fn lemma_listed(breakdown: BlockedBreakdown, from: int, n: int, reason: BlockedReason)
    requires
        from == reason_place(reason) + 1,
        from <= n,
        breakdown.of(reason) > 0,
    ensures
        listed(breakdown, n).contains(ReasonCount { reason, count: breakdown.of(reason) }),
    decreases n,
{
    let entry = ReasonCount { reason, count: breakdown.of(reason) };
    let before = listed(breakdown, n - 1);
    let after = listed(breakdown, n);
    if n == from {
        assert(all_reasons()[n - 1] == reason);
        assert(after[before.len() as int] == entry);
    } else {
        lemma_listed(breakdown, from, n - 1, reason);
        let k = choose|k: int| 0 <= k < before.len() && before[k] == entry;
        assert(after[k] == entry);
    }
}

/// Every reason has a count of its own, and all of them make up the sum.
pub proof fn law_reasons_make_up_the_sum(breakdown: BlockedBreakdown)
    ensures
        breakdown.sum() == breakdown.of(BlockedReason::AggregateSquash) + breakdown.of(
            BlockedReason::MissingActivation,
        ) + breakdown.of(BlockedReason::UnsafeTopology) + breakdown.of(
            BlockedReason::ValidationFailed,
        ) + breakdown.of(BlockedReason::Unrecorded) + breakdown.of(BlockedReason::Other),
        breakdown.of(BlockedReason::AggregateSquash) == breakdown.aggregate_squash,
        breakdown.of(BlockedReason::MissingActivation) == breakdown.missing_activation,
        breakdown.of(BlockedReason::UnsafeTopology) == breakdown.unsafe_topology,
        breakdown.of(BlockedReason::ValidationFailed) == breakdown.validation_failed,
        breakdown.of(BlockedReason::Unrecorded) == breakdown.unrecorded,
        breakdown.of(BlockedReason::Other) == breakdown.other,
{
}

/// The reason that leads blocks most, and of several that block as much it is the one
/// listed first; the list runs from aggregate squashes over missing statistics,
/// structure, validation and what was not recorded to anything else.
pub proof fn law_the_commonest_reason_leads(
    breakdown: BlockedBreakdown,
    reason: BlockedReason,
    other: BlockedReason,
)
    requires
        breakdown.led_by(reason),
    ensures
        breakdown.of(reason) > 0,
        breakdown.of(other) <= breakdown.of(reason),
        breakdown.of(other) == breakdown.of(reason) ==> reason_place(reason) <= reason_place(
            other,
        ),
        breakdown.aggregate_squash == breakdown.of(reason) ==> reason
            == BlockedReason::AggregateSquash,
        breakdown.other == breakdown.of(reason) && reason == BlockedReason::Other
            ==> breakdown.unrecorded < breakdown.other && breakdown.validation_failed
            < breakdown.other,
{
    assert(breakdown.of(BlockedReason::AggregateSquash) <= breakdown.of(reason));
    assert(breakdown.of(BlockedReason::Unrecorded) <= breakdown.of(reason));
    assert(breakdown.of(BlockedReason::ValidationFailed) <= breakdown.of(reason));
}

/// Reports know each reason by its own code.
pub proof fn law_reasons_have_their_codes()
    ensures
        reason_code(BlockedReason::AggregateSquash) == "aggregate-squash"@,
        reason_code(BlockedReason::MissingActivation) == "missing-activation"@,
        reason_code(BlockedReason::UnsafeTopology) == "unsafe-topology"@,
        reason_code(BlockedReason::ValidationFailed) == "validation-failed"@,
        reason_code(BlockedReason::Unrecorded) == "unrecorded"@,
        reason_code(BlockedReason::Other) == "other"@,
{
}

/// A reason is worded with its code, its count and its share, and no other's.
pub proof fn law_reasons_are_worded_with_their_share(
    counts: Seq<ReasonCount>,
    shares: Seq<Seq<char>>,
    i: int,
)
    requires
        0 <= i < counts.len(),
    ensures
        count_texts(counts, shares).len() == counts.len(),
        count_texts(counts, shares)[i] == reason_code(counts[i].reason) + " "@ + decimal(
            counts[i].count as nat,
        ) + " ("@ + shares[i] + "%)"@,
{
}

proof fn lemma_listed_in_order(breakdown: BlockedBreakdown, n: int)
    requires
        n <= 6,
    ensures
        forall|i: int|
            0 <= i < listed(breakdown, n).len() ==> reason_place(
                (#[trigger] listed(breakdown, n)[i]).reason,
            ) < n,
        forall|i: int, j: int|
            #![trigger listed(breakdown, n)[i], listed(breakdown, n)[j]]
            0 <= i < j < listed(breakdown, n).len() ==> reason_place(
                listed(breakdown, n)[i].reason,
            ) < reason_place(listed(breakdown, n)[j].reason),
    decreases n,
{
    if n > 0 {
        lemma_listed_in_order(breakdown, n - 1);
        let before = listed(breakdown, n - 1);
        let after = listed(breakdown, n);
        assert(reason_place(all_reasons()[n - 1]) == n - 1);
        assert forall|i: int| 0 <= i < after.len() implies reason_place(
            (#[trigger] after[i]).reason,
        ) < n by {
            if i < before.len() {
                assert(after[i] == before[i]);
            }
        }
        assert forall|i: int, j: int|
            #![trigger after[i], after[j]]
            0 <= i < j < after.len() implies reason_place(after[i].reason) < reason_place(
            after[j].reason,
        ) by {
            assert(after[i] == before[i]);
            if j < before.len() {
                assert(after[j] == before[j]);
            }
        }
    }
}

/// Of reasons that block as much the one listed first comes first.
pub proof fn law_level_reasons_keep_their_order(breakdown: BlockedBreakdown, i: int, j: int)
    requires
        0 <= i < j < breakdown.by_count().len(),
        breakdown.by_count()[i].count == breakdown.by_count()[j].count,
    ensures
        reason_place(breakdown.by_count()[i].reason) < reason_place(
            breakdown.by_count()[j].reason,
        ),
{
    let all = listed(breakdown, 6);
    lemma_counts_are_well_ranked(all);
    lemma_listed_in_order(breakdown, 6);
    let places = law_sorted_is_stable(all);
    let out = sorted(all);
    assert(!out[i].before(out[j]));
    assert(places[i] < places[j]);
    assert(out[i] == all[places[i]] && out[j] == all[places[j]]);
}

} // verus!
