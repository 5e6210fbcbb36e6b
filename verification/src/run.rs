//! What a run carries from batch to batch, files and says.
use vstd::prelude::*;

use crate::judge::{FullCandidate, FullOutcome};
use crate::list::{law_filter_picks_in_order, lemma_marked_is_filter, retain_marked, stands_at};
use crate::measure::Measure;
use crate::promote::{copy_members, law_members_are_well_ranked, BundleMember};
use crate::screening::{total_records, ProgressiveScreen, StageRecord};
use crate::sort::{
    in_order, law_sorted_is_a_permutation, law_sorted_is_in_order, sorted, stable_sort, Ranked,
};
use crate::sweep::{CandidateKind, SampledWinner, ScreenRejection};
use crate::text::{
    decimal, decimal_text, holds, join, joined, law_text_order_is_total, text_below, text_of, texts,
};

verus! {

/// Most confirmed winners that are carried between batches.
pub const MAX_CONFIRMED_POOL: usize = 64;

/// The bits of `2.0`.
pub const TWO_BITS: u64 = 0x4000_0000_0000_0000;

/// How big a cohort the time that is left can pay for.
#[derive(Clone, Copy, Debug, PartialEq, Eq, Structural)]
pub enum CohortBudget {
    /// Nothing was measured yet: the cohort is not trimmed.
    Unmeasured,
    /// At most this many entries besides the incumbent.
    Entries(usize),
    /// Not even a minimal cohort fits.
    TooSmall,
}

/// The size of a cohort, given the time for a creature and how many creatures the
/// usable time can score.
pub open spec fn sized(
    per_creature_ms: Option<Measure>,
    creatures: Measure,
    whole: usize,
) -> CohortBudget {
    if per_creature_ms is None || !(Measure { bits: 0 }).below(per_creature_ms->0) {
        CohortBudget::Unmeasured
    } else if !creatures.finite() || creatures.below(Measure { bits: TWO_BITS }) {
        CohortBudget::TooSmall
    } else {
        CohortBudget::Entries((whole - 1) as usize)
    }
}

/// A cohort is not trimmed while nothing was measured. Else it is scored exactly if
/// two creatures or more can be paid for, and one of them is the incumbent.
pub proof fn law_cohorts_leave_room_for_the_incumbent(
    per_creature_ms: Option<Measure>,
    creatures: Measure,
    whole: usize,
)
    requires
        whole > 0,
    ensures
        ({
            let measured = per_creature_ms is Some && !per_creature_ms->0.nan()
                && per_creature_ms->0.position() > 0;
            let payable = creatures.magnitude() < 0x7FF0_0000_0000_0000 && creatures.position()
                >= 0x4000_0000_0000_0000;
            let r = sized(per_creature_ms, creatures, whole);
            &&& r == CohortBudget::Unmeasured <==> !measured
            &&& r == CohortBudget::TooSmall <==> measured && !payable
            &&& r is Entries <==> measured && payable
            &&& r matches CohortBudget::Entries(n) ==> n + 1 == whole
        }),
{
}

/// Sizes a cohort. `creatures` is how many creatures the usable time can
/// score, and `whole` is that number as a count; one of them is the incumbent.
pub fn cohort_budget(per_creature_ms: Option<Measure>, creatures: Measure, whole: usize) -> (r:
    CohortBudget)
    requires
        creatures.finite() && !creatures.below(Measure { bits: TWO_BITS }) ==> whole > 0,
    ensures
        r == match per_creature_ms {
            Some(ms) => if !(Measure { bits: 0 }).below(ms) {
                CohortBudget::Unmeasured
            } else if !creatures.finite() || creatures.below(Measure { bits: TWO_BITS }) {
                CohortBudget::TooSmall
            } else {
                CohortBudget::Entries((whole - 1) as usize)
            },
            None => CohortBudget::Unmeasured,
        },
        r == sized(per_creature_ms, creatures, whole),
        r is Unmeasured <==> per_creature_ms is None || per_creature_ms->0.nan()
            || per_creature_ms->0.position() <= 0,
        r matches CohortBudget::Entries(n) ==> n + 1 == whole && !creatures.nan()
            && creatures.position() >= 0x4000_0000_0000_0000,
        r is TooSmall ==> creatures.nan() || creatures.magnitude() >= 0x7FF0_0000_0000_0000
            || creatures.position() < 0x4000_0000_0000_0000,
{
    match per_creature_ms {
        Some(ms) => {
            if !Measure::zero().lt(ms) {
                return CohortBudget::Unmeasured;
            }
        },
        None => {
            return CohortBudget::Unmeasured;
        },
    }
    if !creatures.is_finite() || creatures.lt(Measure { bits: TWO_BITS }) {
        return CohortBudget::TooSmall;
    }
    CohortBudget::Entries(whole - 1)
}

/// The time that is left is reserved for a screening batch.
pub open spec fn reserved(
    screened_batches: u64,
    batch_ms: Option<Measure>,
    cap_ms: Measure,
    remaining_ms: Measure,
) -> bool {
    screened_batches == 0 && batch_ms is Some && batch_ms->0.at_most(cap_ms)
        && remaining_ms.at_most(batch_ms->0)
}

/// Time is reserved exactly if nothing was screened yet and no more is left than a
/// batch takes, which is no more than its cap.
pub proof fn law_the_last_batch_is_reserved(
    screened_batches: u64,
    batch_ms: Option<Measure>,
    cap_ms: Measure,
    remaining_ms: Measure,
)
    requires
        !cap_ms.nan(),
        !remaining_ms.nan(),
        batch_ms matches Some(batch) ==> !batch.nan(),
    ensures
        reserved(screened_batches, batch_ms, cap_ms, remaining_ms) <==> screened_batches == 0
            && batch_ms is Some && remaining_ms.position() <= batch_ms->0.position()
            <= cap_ms.position(),
{
}

/// Whether the time that is left is reserved for a screening batch: nothing
/// was screened yet, a batch takes no more than its cap, and no more than a
/// batch is left.
pub fn reserve_stands(
    screened_batches: u64,
    batch_ms: Option<Measure>,
    cap_ms: Measure,
    remaining_ms: Measure,
) -> (r: bool)
    ensures
        r == (screened_batches == 0 && match batch_ms {
            Some(batch) => batch.at_most(cap_ms) && remaining_ms.at_most(batch),
            None => false,
        }),
        r == reserved(screened_batches, batch_ms, cap_ms, remaining_ms),
        r ==> screened_batches == 0 && batch_ms is Some && remaining_ms.position()
            <= batch_ms->0.position() <= cap_ms.position(),
        screened_batches == 0 && batch_ms is Some && !batch_ms->0.nan() && !cap_ms.nan()
            && !remaining_ms.nan() && remaining_ms.position() <= batch_ms->0.position()
            <= cap_ms.position() ==> r,
{
    if screened_batches > 0 {
        return false;
    }
    match batch_ms {
        Some(batch) => batch.le(cap_ms) && remaining_ms.le(batch),
        None => false,
    }
}

/// The line that announces a cohort.
pub open spec fn scoring_text(max_full: Option<usize>, sampled: usize, carried: usize) -> Seq<
    char,
> {
    let individuals = match max_full {
        Some(cap) => if cap < sampled {
            cap
        } else {
            sampled
        },
        None => sampled,
    };
    let bundled = decimal((sampled + carried) as nat);
    if individuals < sampled {
        "full-scoring "@ + decimal(individuals as nat) + " of "@ + decimal(sampled as nat)
            + " sampled winners individually; bundling all "@ + bundled
    } else if carried == 0 {
        "full-scoring "@ + decimal(sampled as nat) + " sampled winners plus bundles"@
    } else {
        "full-scoring "@ + decimal(sampled as nat)
            + " sampled winners individually; bundling all "@ + bundled + " ("@ + decimal(
            carried as nat,
        ) + " carried)"@
    }
}

/// The line that announces a cohort: how many winners are scored on their own,
/// and how many bundles draw on.
pub fn full_scoring_line(max_full: Option<usize>, sampled: usize, carried: usize) -> (r: String)
    requires
        sampled + carried <= usize::MAX,
    ensures
        r@ == scoring_text(max_full, sampled, carried),
{
    let individuals: usize = match max_full {
        Some(cap) => if cap < sampled {
            cap
        } else {
            sampled
        },
        None => sampled,
    };
    let all = decimal_text(sampled as u64);
    let bundled = decimal_text((sampled + carried) as u64);
    let mut out = text_of("full-scoring ");
    if individuals < sampled {
        let few = decimal_text(individuals as u64);
        out.append(few.as_str());
        out.append(" of ");
        out.append(all.as_str());
        out.append(" sampled winners individually; bundling all ");
        out.append(bundled.as_str());
        return out;
    }
    out.append(all.as_str());
    if carried == 0 {
        out.append(" sampled winners plus bundles");
        return out;
    }
    let waiting = decimal_text(carried as u64);
    out.append(" sampled winners individually; bundling all ");
    out.append(bundled.as_str());
    out.append(" (");
    out.append(waiting.as_str());
    out.append(" carried)");
    out
}

/// What a line says of one stage; `percent` is its share as it is written.
pub open spec fn rung_text(percent: Seq<char>, stage: StageRecord) -> Seq<char> {
    percent + "%: "@ + decimal(stage.entered as nat) + " in, "@ + decimal(stage.rejected as nat)
        + " rejected, "@ + decimal(stage.ms as nat) + "ms"@
}

/// What a line says of the stages.
pub open spec fn rung_texts(percents: Seq<Seq<char>>, stages: Seq<StageRecord>) -> Seq<Seq<char>> {
    Seq::new(stages.len(), |i: int| rung_text(percents[i], stages[i]))
}

/// The line that sums up a progressive screen.
pub open spec fn ladder_text(
    screen: ProgressiveScreen,
    percents: Seq<Seq<char>>,
    candidates: usize,
) -> Seq<char> {
    let records = total_records(screen.stages@);
    let each = if candidates == 0 {
        0
    } else {
        records / candidates as int
    };
    "ladder: "@ + joined(rung_texts(percents, screen.stages@), " -> "@) + " | "@ + decimal(
        records as nat,
    ) + " records over "@ + decimal(candidates as nat) + " candidate(s) ("@ + decimal(each as nat)
        + "/candidate); rejected "@ + decimal(
        crate::screening::rejected_for(screen.losers@, ScreenRejection::ClearlyWorse),
    ) + " clearly-worse, "@ + decimal(
        crate::screening::rejected_for(screen.losers@, ScreenRejection::BelowThreshold),
    ) + " below-threshold"@
}

fn rung_line(percent: &String, stage: &StageRecord) -> (r: String)
    ensures
        r@ == rung_text(percent@, *stage),
{
    let entered = decimal_text(stage.entered as u64);
    let rejected = decimal_text(stage.rejected as u64);
    let ms = decimal_text(stage.ms);
    let mut out = percent.clone();
    out.append("%: ");
    out.append(entered.as_str());
    out.append(" in, ");
    out.append(rejected.as_str());
    out.append(" rejected, ");
    out.append(ms.as_str());
    out.append("ms");
    out
}

/// The line that sums up a progressive screen; `percents` are the shares of
/// its stages as they are written.
pub fn screen_ladder_line(
    screen: &ProgressiveScreen,
    percents: &Vec<String>,
    candidates: usize,
) -> (r: String)
    requires
        percents@.len() == screen.stages@.len(),
        total_records(screen.stages@) <= u64::MAX,
    ensures
        r@ == ladder_text(*screen, texts(percents@), candidates),
{
    let mut rungs: Vec<String> = Vec::new();
    let mut i: usize = 0;
    while i < screen.stages.len()
        invariant
            i <= screen.stages@.len(),
            percents@.len() == screen.stages@.len(),
            rungs@.len() == i,
            forall|k: int|
                0 <= k < i ==> (#[trigger] rungs@[k])@ == rung_text(
                    percents@[k]@,
                    screen.stages@[k],
                ),
        decreases screen.stages.len() - i,
    {
        rungs.push(rung_line(&percents[i], &screen.stages[i]));
        i += 1;
    }
    assert(texts(rungs@) =~= rung_texts(texts(percents@), screen.stages@));
    let records: u64 = screen.records_scored();
    let each: u64 = if candidates == 0 {
        0
    } else {
        records / candidates as u64
    };
    let (worse, below) = screen.rejection_tally();
    let line = join(&rungs, " -> ");
    let records_text = decimal_text(records);
    let candidates_text = decimal_text(candidates as u64);
    let each_text = decimal_text(each);
    let worse_text = decimal_text(worse as u64);
    let below_text = decimal_text(below as u64);
    let mut out = text_of("ladder: ");
    out.append(line.as_str());
    out.append(" | ");
    out.append(records_text.as_str());
    out.append(" records over ");
    out.append(candidates_text.as_str());
    out.append(" candidate(s) (");
    out.append(each_text.as_str());
    out.append("/candidate); rejected ");
    out.append(worse_text.as_str());
    out.append(" clearly-worse, ");
    out.append(below_text.as_str());
    out.append(" below-threshold");
    out
}

/// The line that says what a budget left out; `seconds_each` is the estimate
/// per creature as it is written.
pub fn budget_trim_line(remaining_secs: u64, seconds_each: &str, full: &FullOutcome) -> (r: String)
    requires
        full.individuals@.len() + full.bundles@.len() + full.groups@.len()
            + full.dropped_individuals + full.dropped_bundles <= usize::MAX,
    ensures
        ({
            let scored = full.individuals@.len() + full.bundles@.len() + full.groups@.len();
            let dropped = full.dropped_individuals + full.dropped_bundles;
            r@ == "full: budget "@ + decimal(remaining_secs as nat) + "s, est "@ + seconds_each@
                + "s/creature → "@ + decimal(scored) + " of "@ + decimal(
                (scored + dropped) as nat,
            ) + " entries; dropped "@ + decimal(dropped as nat) + " ("@ + decimal(
                full.dropped_individuals as nat,
            ) + " individual, "@ + decimal(full.dropped_bundles as nat) + " bundle)"@
        }),
{
    let scored: usize = full.entries();
    let dropped: usize = full.dropped();
    let secs_text = decimal_text(remaining_secs);
    let scored_text = decimal_text(scored as u64);
    let all_text = decimal_text((scored + dropped) as u64);
    let dropped_text = decimal_text(dropped as u64);
    let alone_text = decimal_text(full.dropped_individuals as u64);
    let together_text = decimal_text(full.dropped_bundles as u64);
    let mut out = text_of("full: budget ");
    out.append(secs_text.as_str());
    out.append("s, est ");
    out.append(seconds_each);
    out.append("s/creature → ");
    out.append(scored_text.as_str());
    out.append(" of ");
    out.append(all_text.as_str());
    out.append(" entries; dropped ");
    out.append(dropped_text.as_str());
    out.append(" (");
    out.append(alone_text.as_str());
    out.append(" individual, ");
    out.append(together_text.as_str());
    out.append(" bundle)");
    out
}

/// A member whose cut still applies.
pub open spec fn still_applies(applied: Seq<Seq<char>>) -> spec_fn(BundleMember) -> bool {
    |m: BundleMember| applied.contains(m.uuid@)
}

/// Of the carried winners those that still apply are kept, in order.
pub proof fn law_standing_winners_are_kept(pool: Seq<BundleMember>, applied: Seq<Seq<char>>) -> (
    places: Seq<int>)
    ensures
        stands_at(pool, pool.filter(still_applies(applied)), places),
        forall|i: int|
            0 <= i < pool.len() ==> (places.contains(i) <==> applied.contains(
                (#[trigger] pool[i]).uuid@,
            )),
{
    law_filter_picks_in_order(pool, still_applies(applied))
}

/// Keeps the carried winners that still apply, in order.
pub fn standing_pool(pool: &Vec<BundleMember>, applied: &Vec<String>) -> (r: Vec<BundleMember>)
    ensures
        r@ == pool@.filter(|m: BundleMember| texts(applied@).contains(m.uuid@)),
        r@ == pool@.filter(still_applies(texts(applied@))),
{
    let members = copy_members(pool);
    let mut keep: Vec<bool> = Vec::new();
    let mut i: usize = 0;
    while i < members.len()
        invariant
            i <= members@.len(),
            keep@.len() == i,
            forall|k: int|
                0 <= k < i ==> (#[trigger] keep@[k]) == texts(applied@).contains(
                    members@[k].uuid@,
                ),
        decreases members.len() - i,
    {
        keep.push(holds(applied, &members[i].uuid));
        i += 1;
    }
    proof {
        let test = |m: BundleMember| texts(applied@).contains(m.uuid@);
        assert forall|k: int| 0 <= k < members@.len() implies keep@[k] == test(
            #[trigger] members@[k],
        ) by {
            assert(keep@[k] == texts(applied@).contains(members@[k].uuid@));
        }
        lemma_marked_is_filter(members@, keep@, test);
        lemma_marked_is_filter(members@, keep@, still_applies(texts(applied@)));
    }
    retain_marked(members, &keep)
}

/// The kind of the first sampled winner for a neuron; a plain ablation where
/// there is none.
pub open spec fn sampled_kind(sampled: Seq<SampledWinner>, uuid: Seq<char>) -> CandidateKind
    decreases sampled.len(),
{
    if sampled.len() == 0 {
        CandidateKind::Ablation
    } else if sampled[0].candidate.uuid@ == uuid {
        sampled[0].candidate.kind
    } else {
        sampled_kind(sampled.drop_first(), uuid)
    }
}

fn kind_in_sample(sampled: &Vec<SampledWinner>, uuid: &String) -> (r: CandidateKind)
    ensures
        r == sampled_kind(sampled@, uuid@),
{
    let mut i: usize = 0;
    assert(sampled@.skip(0) =~= sampled@);
    while i < sampled.len()
        invariant
            i <= sampled@.len(),
            sampled_kind(sampled@, uuid@) == sampled_kind(sampled@.skip(i as int), uuid@),
        decreases sampled.len() - i,
    {
        assert(sampled@.skip(i as int)[0] == sampled@[i as int]);
        assert(sampled@.skip(i as int).drop_first() =~= sampled@.skip(i + 1));
        if sampled[i].candidate.uuid == *uuid {
            return sampled[i].candidate.kind;
        }
        i += 1;
    }
    CandidateKind::Ablation
}

/// An entry of another neuron.
pub open spec fn other_than(uuid: Seq<char>) -> spec_fn(BundleMember) -> bool {
    |m: BundleMember| m.uuid@ != uuid
}

/// The pool without a neuron.
pub open spec fn without(pool: Seq<BundleMember>, uuid: Seq<char>) -> Seq<BundleMember> {
    pool.filter(other_than(uuid))
}

/// One verdict taken into the pool: the latest verdict on a neuron counts, and
/// what was applied or did not improve leaves.
pub open spec fn with_verdict(
    pool: Seq<BundleMember>,
    entry: FullCandidate,
    sampled: Seq<SampledWinner>,
    applied: Seq<Seq<char>>,
    min_improvement: Measure,
) -> Seq<BundleMember> {
    if entry.uuids@.len() == 0 {
        pool
    } else {
        let uuid = entry.uuids@[0];
        let rest = without(pool, uuid@);
        if applied.contains(uuid@) || entry.delta.at_most(min_improvement) {
            rest
        } else {
            rest.push(
                BundleMember { uuid, kind: sampled_kind(sampled, uuid@), delta: entry.delta },
            )
        }
    }
}

/// The pool without the neurons that were cut.
pub open spec fn unapplied(pool: Seq<BundleMember>, applied: Seq<Seq<char>>) -> Seq<BundleMember> {
    pool.filter(|m: BundleMember| !applied.contains(m.uuid@))
}

/// All verdicts of a cohort taken into the pool.
pub open spec fn with_verdicts(
    pool: Seq<BundleMember>,
    entries: Seq<FullCandidate>,
    sampled: Seq<SampledWinner>,
    applied: Seq<Seq<char>>,
    min_improvement: Measure,
) -> Seq<BundleMember>
    decreases entries.len(),
{
    if entries.len() == 0 {
        pool
    } else {
        with_verdict(
            with_verdicts(pool, entries.drop_last(), sampled, applied, min_improvement),
            entries.last(),
            sampled,
            applied,
            min_improvement,
        )
    }
}

/// The pool after a cohort: what was cut leaves, the verdicts are taken in, and
/// the best stay.
pub open spec fn pool_after(
    pool: Seq<BundleMember>,
    entries: Seq<FullCandidate>,
    sampled: Seq<SampledWinner>,
    applied: Seq<Seq<char>>,
    min_improvement: Measure,
) -> Seq<BundleMember> {
    at_most(
        sorted(
            with_verdicts(unapplied(pool, applied), entries, sampled, applied, min_improvement),
        ),
        MAX_CONFIRMED_POOL as int,
    )
}

/// What a winner cuts; nothing where there is none.
pub open spec fn winner_cuts(winner: Option<FullCandidate>) -> Seq<Seq<char>> {
    match winner {
        Some(entry) => texts(entry.uuids@),
        None => Seq::empty(),
    }
}

/// At most so many of the list, from its start.
pub open spec fn at_most<T>(list: Seq<T>, most: int) -> Seq<T> {
    if list.len() <= most {
        list
    } else {
        list.take(most)
    }
}

fn drop_member(pool: Vec<BundleMember>, uuid: &String) -> (r: Vec<BundleMember>)
    ensures
        r@ == without(pool@, uuid@),
{
    let mut keep: Vec<bool> = Vec::new();
    let mut i: usize = 0;
    while i < pool.len()
        invariant
            i <= pool@.len(),
            keep@.len() == i,
            forall|k: int| 0 <= k < i ==> (#[trigger] keep@[k]) == (pool@[k].uuid@ != uuid@),
        decreases pool.len() - i,
    {
        keep.push(!(pool[i].uuid == *uuid));
        i += 1;
    }
    proof {
        let test = other_than(uuid@);
        assert forall|k: int| 0 <= k < pool@.len() implies keep@[k] == test(
            #[trigger] pool@[k],
        ) by {
            assert(keep@[k] == (pool@[k].uuid@ != uuid@));
        }
        lemma_marked_is_filter(pool@, keep@, test);
    }
    retain_marked(pool, &keep)
}

fn drop_applied(pool: Vec<BundleMember>, winner: &Option<FullCandidate>) -> (r: Vec<BundleMember>)
    ensures
        r@ == unapplied(pool@, winner_cuts(*winner)),
{
    let ghost applied = winner_cuts(*winner);
    let mut keep: Vec<bool> = Vec::new();
    let mut i: usize = 0;
    while i < pool.len()
        invariant
            i <= pool@.len(),
            applied == winner_cuts(*winner),
            keep@.len() == i,
            forall|k: int|
                0 <= k < i ==> (#[trigger] keep@[k]) == !applied.contains(pool@[k].uuid@),
        decreases pool.len() - i,
    {
        let was_applied = match winner {
            Some(entry) => holds(&entry.uuids, &pool[i].uuid),
            None => false,
        };
        keep.push(!was_applied);
        i += 1;
    }
    proof {
        let test = |m: BundleMember| !applied.contains(m.uuid@);
        assert forall|k: int| 0 <= k < pool@.len() implies keep@[k] == test(
            #[trigger] pool@[k],
        ) by {
            assert(keep@[k] == !applied.contains(pool@[k].uuid@));
        }
        lemma_marked_is_filter(pool@, keep@, test);
    }
    retain_marked(pool, &keep)
}

/// Takes a cohort's verdicts into the pool of carried winners, best first and
/// up to its limit. What the winner cut is no longer on the creature, and
/// leaves the pool.
pub fn update_pool(
    pool: Vec<BundleMember>,
    sampled: &Vec<SampledWinner>,
    full: &FullOutcome,
    min_improvement: Measure,
) -> (r: Vec<BundleMember>)
    ensures
        r@ == pool_after(
            pool@,
            full.individuals@,
            sampled@,
            winner_cuts(full.winner),
            min_improvement,
        ),
        forall|k: int|
            0 <= k < r@.len() ==> !winner_cuts(full.winner).contains((#[trigger] r@[k]).uuid@),
{
    let ghost applied = winner_cuts(full.winner);
    let ghost carried = pool@;
    let mut members = drop_applied(pool, &full.winner);
    let ghost start = members@;
    let mut i: usize = 0;
    assert(full.individuals@.take(0) =~= Seq::empty());
    while i < full.individuals.len()
        invariant
            i <= full.individuals@.len(),
            applied == winner_cuts(full.winner),
            members@ == with_verdicts(
                start,
                full.individuals@.take(i as int),
                sampled@,
                applied,
                min_improvement,
            ),
        decreases full.individuals.len() - i,
    {
        proof {
            assert(full.individuals@.take(i + 1).drop_last() =~= full.individuals@.take(
                i as int,
            ));
            assert(full.individuals@.take(i + 1).last() == full.individuals@[i as int]);
        }
        if full.individuals[i].uuids.len() > 0 {
            let uuid = full.individuals[i].uuids[0].clone();
            let delta = full.individuals[i].delta;
            members = drop_member(members, &uuid);
            let was_applied = match &full.winner {
                Some(winner) => holds(&winner.uuids, &uuid),
                None => false,
            };
            if !was_applied && !delta.le(min_improvement) {
                let kind = kind_in_sample(sampled, &uuid);
                members.push(BundleMember { uuid, kind, delta });
            }
        }
        i += 1;
    }
    assert(full.individuals@.take(i as int) =~= full.individuals@);
    let mut ranked = stable_sort(members);
    if ranked.len() > MAX_CONFIRMED_POOL {
        ranked.truncate(MAX_CONFIRMED_POOL);
        assert(ranked@ =~= sorted(members@).take(MAX_CONFIRMED_POOL as int));
    }
    proof {
        assert forall|k: int| 0 <= k < ranked@.len() implies !applied.contains(
            (#[trigger] ranked@[k]).uuid@,
        ) by {
            law_pool_follows_the_verdicts(
                carried,
                full.individuals@,
                sampled@,
                applied,
                min_improvement,
                ranked@[k],
            );
        }
    }
    ranked
}

/// The last entry whose first cut is this neuron.
pub open spec fn last_verdict(entries: Seq<FullCandidate>, uuid: Seq<char>) -> Option<int>
    decreases entries.len(),
{
    if entries.len() == 0 {
        None
    } else if entries.last().uuids@.len() > 0 && entries.last().uuids@[0]@ == uuid {
        Some(entries.len() - 1)
    } else {
        last_verdict(entries.drop_last(), uuid)
    }
}

/// A neuron belongs to the pool with this entry: by its latest verdict, if it
/// has one, and else because it was there before.
pub open spec fn belongs(
    pool: Seq<BundleMember>,
    entries: Seq<FullCandidate>,
    sampled: Seq<SampledWinner>,
    applied: Seq<Seq<char>>,
    min_improvement: Measure,
    m: BundleMember,
) -> bool {
    &&& !applied.contains(m.uuid@)
    &&& match last_verdict(entries, m.uuid@) {
        Some(at) => {
            let entry = entries[at];
            &&& !entry.delta.at_most(min_improvement)
            &&& m == (BundleMember {
                uuid: entry.uuids@[0],
                kind: sampled_kind(sampled, m.uuid@),
                delta: entry.delta,
            })
        },
        None => pool.contains(m),
    }
}

proof fn lemma_filter_keeps(
    pool: Seq<BundleMember>,
    test: spec_fn(BundleMember) -> bool,
    m: BundleMember,
)
    ensures
        pool.filter(test).contains(m) <==> pool.contains(m) && test(m),
    decreases pool.len(),
{
    reveal(Seq::filter);
    if pool.len() > 0 {
        let init = pool.drop_last();
        let last = pool.last();
        lemma_filter_keeps(init, test, m);
        assert(pool =~= init.push(last));
        let head = init.filter(test);
        let out = pool.filter(test);
        assert(out == if test(last) {
            head.push(last)
        } else {
            head
        });
        if pool.contains(m) && test(m) {
            if init.contains(m) {
                let k = choose|k: int| 0 <= k < head.len() && head[k] == m;
                assert(out[k] == m);
            } else {
                assert(m == last);
                assert(out[head.len() as int] == m);
            }
        }
        if out.contains(m) {
            let k = choose|k: int| 0 <= k < out.len() && out[k] == m;
            if k < head.len() {
                assert(head[k] == m);
                let j = choose|j: int| 0 <= j < init.len() && init[j] == m;
                assert(pool[j] == m);
            } else {
                assert(pool[pool.len() - 1] == m);
            }
        }
    }
}

proof fn lemma_verdicts_decide(
    pool: Seq<BundleMember>,
    entries: Seq<FullCandidate>,
    sampled: Seq<SampledWinner>,
    applied: Seq<Seq<char>>,
    min_improvement: Measure,
    m: BundleMember,
)
    ensures
        with_verdicts(unapplied(pool, applied), entries, sampled, applied, min_improvement)
            .contains(m) <==> belongs(pool, entries, sampled, applied, min_improvement, m),
    decreases entries.len(),
{
    let start = unapplied(pool, applied);
    if entries.len() == 0 {
        lemma_filter_keeps(pool, |x: BundleMember| !applied.contains(x.uuid@), m);
    } else {
        let init = entries.drop_last();
        let entry = entries.last();
        lemma_verdicts_decide(pool, init, sampled, applied, min_improvement, m);
        let before = with_verdicts(start, init, sampled, applied, min_improvement);
        let after = with_verdict(before, entry, sampled, applied, min_improvement);
        match last_verdict(init, m.uuid@) {
            Some(at) => {
                lemma_last_verdict(init, m.uuid@);
                assert(init[at] == entries[at]);
            },
            None => {},
        }
        if entry.uuids@.len() > 0 {
            let uuid = entry.uuids@[0];
            let rest = without(before, uuid@);
            lemma_filter_keeps(before, other_than(uuid@), m);
            if applied.contains(uuid@) || entry.delta.at_most(min_improvement) {
            } else {
                let new = BundleMember {
                    uuid,
                    kind: sampled_kind(sampled, uuid@),
                    delta: entry.delta,
                };
                assert(after == rest.push(new));
                if after.contains(m) {
                    let k = choose|k: int| 0 <= k < after.len() && after[k] == m;
                    if k < rest.len() {
                        assert(rest[k] == m);
                    }
                }
                if rest.contains(m) {
                    let k = choose|k: int| 0 <= k < rest.len() && rest[k] == m;
                    assert(after[k] == m);
                }
                assert(after[rest.len() as int] == new);
            }
        }
    }
}

proof fn lemma_last_verdict(entries: Seq<FullCandidate>, uuid: Seq<char>)
    ensures
        last_verdict(entries, uuid) matches Some(at) ==> 0 <= at < entries.len()
            && entries[at].uuids@.len() > 0 && entries[at].uuids@[0]@ == uuid,
    decreases entries.len(),
{
    if entries.len() > 0 {
        lemma_last_verdict(entries.drop_last(), uuid);
    }
}

/// After a whole cohort the pool holds nothing that was cut. A neuron with a
/// verdict is there only if the latest one improves, and with what that one
/// measured; a neuron without a verdict was there before. Whoever so belongs
/// is there, unless the pool is full.
pub proof fn law_pool_follows_the_verdicts(
    pool: Seq<BundleMember>,
    entries: Seq<FullCandidate>,
    sampled: Seq<SampledWinner>,
    applied: Seq<Seq<char>>,
    min_improvement: Measure,
    m: BundleMember,
)
    ensures
        ({
            let after = pool_after(pool, entries, sampled, applied, min_improvement);
            &&& after.contains(m) ==> belongs(
                pool,
                entries,
                sampled,
                applied,
                min_improvement,
                m,
            )
            &&& belongs(pool, entries, sampled, applied, min_improvement, m) ==> after.contains(m)
                || after.len() == MAX_CONFIRMED_POOL
        }),
{
    let all = with_verdicts(unapplied(pool, applied), entries, sampled, applied, min_improvement);
    let out = sorted(all);
    let after = pool_after(pool, entries, sampled, applied, min_improvement);
    lemma_verdicts_decide(pool, entries, sampled, applied, min_improvement, m);
    law_sorted_is_a_permutation(all);
    all.to_multiset_ensures();
    out.to_multiset_ensures();
    if after.contains(m) {
        let k = choose|k: int| 0 <= k < after.len() && after[k] == m;
        assert(out[k] == m);
        assert(out.contains(m));
        assert(all.contains(m));
    }
    if all.contains(m) {
        assert(out.contains(m));
    }
}

/// No neuron stands twice in the pool.
pub open spec fn one_entry_each(pool: Seq<BundleMember>) -> bool {
    forall|i: int, j: int|
        #![trigger pool[i], pool[j]]
        0 <= i < j < pool.len() ==> pool[i].uuid@ != pool[j].uuid@
}

proof fn lemma_filtered(pool: Seq<BundleMember>, test: spec_fn(BundleMember) -> bool)
    requires
        one_entry_each(pool),
    ensures
        one_entry_each(pool.filter(test)),
        forall|i: int|
            0 <= i < pool.filter(test).len() ==> test(#[trigger] pool.filter(test)[i])
                && pool.contains(pool.filter(test)[i]),
    decreases pool.len(),
{
    reveal(Seq::filter);
    if pool.len() > 0 {
        let init = pool.drop_last();
        let last = pool.last();
        assert(one_entry_each(init)) by {
            assert forall|i: int, j: int|
                #![trigger init[i], init[j]]
                0 <= i < j < init.len() implies init[i].uuid@ != init[j].uuid@ by {
                assert(init[i] == pool[i] && init[j] == pool[j]);
            }
        }
        lemma_filtered(init, test);
        let head = init.filter(test);
        let out = pool.filter(test);
        assert(out == if test(last) {
            head.push(last)
        } else {
            head
        });
        assert forall|i: int| 0 <= i < out.len() implies test(#[trigger] out[i])
            && pool.contains(out[i]) by {
            if i < head.len() {
                assert(out[i] == head[i]);
                let k = choose|k: int| 0 <= k < init.len() && init[k] == head[i];
                assert(pool[k] == head[i]);
            } else {
                assert(pool[pool.len() - 1] == last);
            }
        }
        assert forall|i: int, j: int|
            #![trigger out[i], out[j]]
            0 <= i < j < out.len() implies out[i].uuid@ != out[j].uuid@ by {
            if j < head.len() {
                assert(out[i] == head[i] && out[j] == head[j]);
            } else {
                assert(out[i] == head[i]);
                let k = choose|k: int| 0 <= k < init.len() && init[k] == head[i];
                assert(pool[k] == head[i]);
                assert(pool[k].uuid@ != pool[pool.len() - 1].uuid@);
            }
        }
    }
}

proof fn lemma_without(pool: Seq<BundleMember>, uuid: Seq<char>)
    requires
        one_entry_each(pool),
    ensures
        one_entry_each(without(pool, uuid)),
        forall|i: int|
            0 <= i < without(pool, uuid).len() ==> (#[trigger] without(pool, uuid)[i]).uuid@
                != uuid && pool.contains(without(pool, uuid)[i]),
{
    let test = other_than(uuid);
    lemma_filtered(pool, test);
    assert forall|i: int| 0 <= i < without(pool, uuid).len() implies (#[trigger] without(
        pool,
        uuid,
    )[i]).uuid@ != uuid && pool.contains(without(pool, uuid)[i]) by {
        assert(test(pool.filter(test)[i]));
    }
}

/// Verdicts keep one entry per neuron in the pool.
pub proof fn law_pool_holds_each_neuron_once(
    pool: Seq<BundleMember>,
    entries: Seq<FullCandidate>,
    sampled: Seq<SampledWinner>,
    applied: Seq<Seq<char>>,
    min_improvement: Measure,
)
    requires
        one_entry_each(pool),
    ensures
        one_entry_each(with_verdicts(pool, entries, sampled, applied, min_improvement)),
    decreases entries.len(),
{
    if entries.len() > 0 {
        law_pool_holds_each_neuron_once(
            pool,
            entries.drop_last(),
            sampled,
            applied,
            min_improvement,
        );
        let before = with_verdicts(pool, entries.drop_last(), sampled, applied, min_improvement);
        let entry = entries.last();
        if entry.uuids@.len() > 0 {
            lemma_without(before, entry.uuids@[0]@);
        }
    }
}

/// A neuron whose latest verdict does not improve, or whose cut was applied,
/// is not in the pool after that verdict.
pub proof fn law_latest_verdict_counts(
    pool: Seq<BundleMember>,
    entry: FullCandidate,
    sampled: Seq<SampledWinner>,
    applied: Seq<Seq<char>>,
    min_improvement: Measure,
)
    requires
        one_entry_each(pool),
        entry.uuids@.len() > 0,
        applied.contains(entry.uuids@[0]@) || entry.delta.at_most(min_improvement),
    ensures
        forall|i: int|
            0 <= i < with_verdict(pool, entry, sampled, applied, min_improvement).len() ==> (
            #[trigger] with_verdict(pool, entry, sampled, applied, min_improvement)[i]).uuid@
                != entry.uuids@[0]@,
{
    lemma_without(pool, entry.uuids@[0]@);
}

/// Every gain in the pool compares.
pub open spec fn gains_compare(pool: Seq<BundleMember>) -> bool {
    forall|i: int| 0 <= i < pool.len() ==> !(#[trigger] pool[i]).delta.nan()
}

proof fn lemma_verdicts_compare(
    pool: Seq<BundleMember>,
    entries: Seq<FullCandidate>,
    sampled: Seq<SampledWinner>,
    applied: Seq<Seq<char>>,
    min_improvement: Measure,
)
    requires
        one_entry_each(pool),
        gains_compare(pool),
        forall|i: int| 0 <= i < entries.len() ==> !(#[trigger] entries[i]).delta.nan(),
    ensures
        gains_compare(with_verdicts(pool, entries, sampled, applied, min_improvement)),
    decreases entries.len(),
{
    if entries.len() > 0 {
        let init = entries.drop_last();
        let entry = entries.last();
        assert forall|i: int| 0 <= i < init.len() implies !(#[trigger] init[i]).delta.nan() by {
            assert(init[i] == entries[i]);
        }
        lemma_verdicts_compare(pool, init, sampled, applied, min_improvement);
        law_pool_holds_each_neuron_once(pool, init, sampled, applied, min_improvement);
        let before = with_verdicts(pool, init, sampled, applied, min_improvement);
        let after = with_verdict(before, entry, sampled, applied, min_improvement);
        assert(!entries[entries.len() - 1].delta.nan());
        if entry.uuids@.len() > 0 {
            let rest = without(before, entry.uuids@[0]@);
            lemma_without(before, entry.uuids@[0]@);
            assert forall|i: int| 0 <= i < after.len() implies !(#[trigger] after[i]).delta.nan() by {
                if i < rest.len() {
                    assert(after[i] == rest[i]);
                    assert(before.contains(rest[i]));
                }
            }
        }
    }
}

/// The pool stays bounded and best first, with one entry for each neuron.
pub proof fn law_pool_is_best_first_and_bounded(
    pool: Seq<BundleMember>,
    entries: Seq<FullCandidate>,
    sampled: Seq<SampledWinner>,
    applied: Seq<Seq<char>>,
    min_improvement: Measure,
)
    requires
        one_entry_each(pool),
        gains_compare(pool),
        forall|i: int| 0 <= i < entries.len() ==> !(#[trigger] entries[i]).delta.nan(),
    ensures
        ({
            let after = pool_after(pool, entries, sampled, applied, min_improvement);
            &&& after.len() <= MAX_CONFIRMED_POOL
            &&& in_order(after)
            &&& one_entry_each(after)
        }),
{
    let start = unapplied(pool, applied);
    let all = with_verdicts(start, entries, sampled, applied, min_improvement);
    let out = sorted(all);
    let after = pool_after(pool, entries, sampled, applied, min_improvement);
    lemma_filtered(pool, |m: BundleMember| !applied.contains(m.uuid@));
    assert forall|i: int| 0 <= i < start.len() implies !(#[trigger] start[i]).delta.nan() by {
        assert(pool.contains(start[i]));
    }
    law_pool_holds_each_neuron_once(start, entries, sampled, applied, min_improvement);
    lemma_verdicts_compare(start, entries, sampled, applied, min_improvement);
    law_members_are_well_ranked(all);
    law_sorted_is_in_order(all);
    law_sorted_is_a_permutation(all);
    all.to_multiset_ensures();
    out.to_multiset_ensures();
    assert(all.no_duplicates()) by {
        assert forall|i: int, j: int|
            0 <= i < all.len() && 0 <= j < all.len() && i != j implies all[i] != all[j] by {
            if i < j {
                assert(all[i].uuid@ != all[j].uuid@);
            } else {
                assert(all[j].uuid@ != all[i].uuid@);
            }
        }
    }
    all.lemma_multiset_has_no_duplicates();
    out.lemma_multiset_has_no_duplicates_conv();
    assert forall|i: int, j: int|
        #![trigger after[i], after[j]]
        0 <= i < j < after.len() implies after[i].uuid@ != after[j].uuid@ by {
        assert(after[i] == out[i] && after[j] == out[j]);
        assert(out.contains(out[i]) && out.contains(out[j]));
        assert(all.contains(out[i]) && all.contains(out[j]));
        let a = choose|a: int| 0 <= a < all.len() && all[a] == out[i];
        let b = choose|b: int| 0 <= b < all.len() && all[b] == out[j];
        assert(a != b);
        if a < b {
            assert(all[a].uuid@ != all[b].uuid@);
        } else {
            assert(all[b].uuid@ != all[a].uuid@);
        }
    }
    assert(in_order(after)) by {
        assert forall|i: int, j: int| #![trigger after[i], after[j]] 0 <= i < j < after.len() implies !after[j].before(
            after[i],
        ) by {
            assert(after[i] == out[i] && after[j] == out[j]);
        }
    }
}

/// A run leaves the creature that it was given alone; tells so otherwise.
pub fn source_check(before: &Vec<u8>, after: &Vec<u8>, path: &str) -> (r: Result<(), String>)
    ensures
        match r {
            Ok(_) => before@ == after@,
            Err(message) => before@ != after@ && message@ == "source creature "@ + path@
                + " was modified; aborting"@,
        },
{
    let mut same = before.len() == after.len();
    let mut i: usize = 0;
    while same && i < before.len()
        invariant
            i <= before@.len(),
            same ==> before@.len() == after@.len(),
            same ==> forall|k: int| 0 <= k < i ==> before@[k] == after@[k],
            !same ==> before@ != after@,
        decreases before.len() - i,
    {
        if before[i] != after[i] {
            same = false;
        }
        i += 1;
    }
    if same {
        assert(before@ =~= after@);
        return Ok(());
    }
    let mut message = text_of("source creature ");
    message.append(path);
    message.append(" was modified; aborting");
    Err(message)
}

/// The kind under which a neuron is known is that of the first sampled winner with
/// its uuid, and an ablation where there is none.
pub proof fn law_first_sampled_winner_names_the_kind(
    sampled: Seq<SampledWinner>,
    uuid: Seq<char>,
    at: int,
)
    ensures
        0 <= at < sampled.len() && sampled[at].candidate.uuid@ == uuid && (forall|k: int|
            0 <= k < at ==> (#[trigger] sampled[k]).candidate.uuid@ != uuid) ==> sampled_kind(
            sampled,
            uuid,
        ) == sampled[at].candidate.kind,
        (forall|k: int| 0 <= k < sampled.len() ==> (#[trigger] sampled[k]).candidate.uuid@ != uuid)
            ==> sampled_kind(sampled, uuid) == CandidateKind::Ablation,
    decreases sampled.len(),
{
    if sampled.len() > 0 {
        let rest = sampled.drop_first();
        law_first_sampled_winner_names_the_kind(rest, uuid, at - 1);
        if 0 < at < sampled.len() && sampled[at].candidate.uuid@ == uuid && (forall|k: int|
            0 <= k < at ==> (#[trigger] sampled[k]).candidate.uuid@ != uuid) {
            assert(sampled[0].candidate.uuid@ != uuid);
            assert(rest[at - 1] == sampled[at]);
            assert forall|k: int| 0 <= k < at - 1 implies (#[trigger] rest[k]).candidate.uuid@
                != uuid by {
                assert(rest[k] == sampled[k + 1]);
            }
        }
        if forall|k: int|
            0 <= k < sampled.len() ==> (#[trigger] sampled[k]).candidate.uuid@ != uuid {
            assert(sampled[0].candidate.uuid@ != uuid);
            assert forall|k: int| 0 <= k < rest.len() implies (#[trigger] rest[k]).candidate.uuid@
                != uuid by {
                assert(rest[k] == sampled[k + 1]);
            }
        }
    }
}

proof fn lemma_latest(entries: Seq<FullCandidate>, uuid: Seq<char>, at: int)
    ensures
        0 <= at < entries.len() && entries[at].uuids@.len() > 0 && entries[at].uuids@[0]@ == uuid
            && (forall|k: int|
            at < k < entries.len() ==> (#[trigger] entries[k]).uuids@.len() == 0
                || entries[k].uuids@[0]@ != uuid) ==> last_verdict(entries, uuid) == Some(at),
        (forall|k: int|
            0 <= k < entries.len() ==> (#[trigger] entries[k]).uuids@.len() == 0
                || entries[k].uuids@[0]@ != uuid) ==> last_verdict(entries, uuid) is None,
    decreases entries.len(),
{
    if entries.len() > 0 {
        let init = entries.drop_last();
        lemma_latest(init, uuid, at);
        let n = entries.len() - 1;
        assert(entries[n] == entries.last());
        assert(forall|k: int| 0 <= k < init.len() ==> #[trigger] init[k] == entries[k]);
    }
}

/// A carried winner was not cut by this cohort's winner. If it had an entry of its
/// own, it carries what the latest one measured, which is more than the minimum;
/// and otherwise it was carried before.
pub proof fn law_carried_winners_stand_by_their_latest_entry(
    pool: Seq<BundleMember>,
    sampled: Seq<SampledWinner>,
    full: FullOutcome,
    min_improvement: Measure,
    m: BundleMember,
    at: int,
)
    requires
        pool_after(
            pool,
            full.individuals@,
            sampled,
            winner_cuts(full.winner),
            min_improvement,
        ).contains(m),
    ensures
        full.winner matches Some(winner) ==> forall|k: int|
            0 <= k < winner.uuids@.len() ==> (#[trigger] winner.uuids@[k])@ != m.uuid@,
        ({
            let entries = full.individuals@;
            &&& 0 <= at < entries.len() && entries[at].uuids@.len() > 0 && entries[at].uuids@[0]@
                == m.uuid@ && (forall|k: int|
                at < k < entries.len() ==> (#[trigger] entries[k]).uuids@.len() == 0
                    || entries[k].uuids@[0]@ != m.uuid@) ==> m.delta == entries[at].delta && (
            m.delta.nan() || min_improvement.nan() || m.delta.position()
                > min_improvement.position()) && m.kind == sampled_kind(sampled, m.uuid@)
            &&& (forall|k: int|
                0 <= k < entries.len() ==> (#[trigger] entries[k]).uuids@.len() == 0
                    || entries[k].uuids@[0]@ != m.uuid@) ==> pool.contains(m)
        }),
{
    let cut = winner_cuts(full.winner);
    law_pool_follows_the_verdicts(pool, full.individuals@, sampled, cut, min_improvement, m);
    lemma_latest(full.individuals@, m.uuid@, at);
    if let Some(winner) = full.winner {
        assert forall|k: int| 0 <= k < winner.uuids@.len() implies (#[trigger] winner.uuids@[k])@
            != m.uuid@ by {
            assert(cut[k] == winner.uuids@[k]@);
        }
    }
}

/// Whoever's latest entry is ahead by more than the minimum is carried, with what
/// it measured, unless this cohort's winner cut it or sixty-four are carried; and
/// so is whoever was carried and neither cut nor scored again.
pub proof fn law_confirmed_winners_are_carried(
    pool: Seq<BundleMember>,
    sampled: Seq<SampledWinner>,
    full: FullOutcome,
    min_improvement: Measure,
    at: int,
    m: BundleMember,
)
    ensures
        ({
            let entries = full.individuals@;
            let after = pool_after(
                pool,
                entries,
                sampled,
                winner_cuts(full.winner),
                min_improvement,
            );
            let spared = full.winner matches Some(winner) ==> forall|k: int|
                0 <= k < winner.uuids@.len() ==> (#[trigger] winner.uuids@[k])@ != m.uuid@;
            &&& after.len() <= 64
            &&& spared && 0 <= at < entries.len() && entries[at].uuids@.len() > 0 && m.uuid
                == entries[at].uuids@[0] && m.delta == entries[at].delta && m.kind == sampled_kind(
                sampled,
                m.uuid@,
            ) && !m.delta.nan() && !min_improvement.nan() && m.delta.position()
                > min_improvement.position() && (forall|k: int|
                at < k < entries.len() ==> (#[trigger] entries[k]).uuids@.len() == 0
                    || entries[k].uuids@[0]@ != m.uuid@) ==> after.contains(m) || after.len() == 64
            &&& spared && pool.contains(m) && (forall|k: int|
                0 <= k < entries.len() ==> (#[trigger] entries[k]).uuids@.len() == 0
                    || entries[k].uuids@[0]@ != m.uuid@) ==> after.contains(m) || after.len() == 64
        }),
{
    let cut = winner_cuts(full.winner);
    law_pool_follows_the_verdicts(pool, full.individuals@, sampled, cut, min_improvement, m);
    lemma_latest(full.individuals@, m.uuid@, at);
    if cut.contains(m.uuid@) {
        let k = choose|k: int| 0 <= k < cut.len() && cut[k] == m.uuid@;
        assert(full.winner->0.uuids@[k]@ == m.uuid@);
    }
}

/// The pool is ranked by gain, the largest first, with every neuron once.
pub proof fn law_the_pool_is_ranked_by_gain(
    pool: Seq<BundleMember>,
    entries: Seq<FullCandidate>,
    sampled: Seq<SampledWinner>,
    applied: Seq<Seq<char>>,
    min_improvement: Measure,
    i: int,
    j: int,
)
    requires
        one_entry_each(pool),
        gains_compare(pool),
        forall|i: int| 0 <= i < entries.len() ==> !(#[trigger] entries[i]).delta.nan(),
        0 <= i < j < pool_after(pool, entries, sampled, applied, min_improvement).len(),
    ensures
        ({
            let after = pool_after(pool, entries, sampled, applied, min_improvement);
            &&& after[i].uuid@ != after[j].uuid@
            &&& after[i].delta.position() > after[j].delta.position() || (
            after[i].delta.position() == after[j].delta.position() && text_below(
                after[i].uuid@,
                after[j].uuid@,
            ))
        }),
{
    let after = pool_after(pool, entries, sampled, applied, min_improvement);
    law_pool_is_best_first_and_bounded(pool, entries, sampled, applied, min_improvement);
    assert(!after[j].before(after[i]));
    assert(after[i].uuid@ != after[j].uuid@);
    law_text_order_is_total(after[i].uuid@, after[j].uuid@);
    assert forall|k: int| 0 <= k < after.len() implies !(#[trigger] after[k]).delta.nan() by {
        let m = after[k];
        assert(after.contains(m));
        law_pool_follows_the_verdicts(pool, entries, sampled, applied, min_improvement, m);
        lemma_last_verdict(entries, m.uuid@);
        match last_verdict(entries, m.uuid@) {
            Some(at) => {
                assert(!entries[at].delta.nan());
            },
            None => {
                let q = choose|q: int| 0 <= q < pool.len() && pool[q] == m;
                assert(!pool[q].delta.nan());
            },
        }
    }
    assert(!after[i].delta.nan() && !after[j].delta.nan());
}

/// What a winner cuts is what its entry names, and nothing is cut without one.
pub proof fn law_cuts_are_the_winners(winner: Option<FullCandidate>, i: int)
    ensures
        winner is None ==> winner_cuts(winner).len() == 0,
        winner matches Some(entry) ==> winner_cuts(winner).len() == entry.uuids@.len() && (0 <= i
            < entry.uuids@.len() ==> winner_cuts(winner)[i] == entry.uuids@[i]@),
{
}

} // verus!
