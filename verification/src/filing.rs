//! What a run files: screens, verdicts, and the tally of its winners.
use vstd::prelude::*;

use crate::blocked::{reason_code, BlockedReason};
use crate::creature::Structure;
use crate::judge::{improves, FullCandidate, FullOutcome};
use crate::list::{law_true_places_ascend, reversed, true_places};
use crate::measure::{Measure, ONE_BITS};
use crate::neighbourhood::CascadeEstimate;
use crate::report::{fits, records, Event, Report, Winners};
use crate::run::winner_cuts;
use crate::sort::{
    law_sorted_is_a_permutation, law_sorted_is_in_order, sorted, stable_sort, well_ranked, Ranked,
};
use crate::sweep::{
    CandidateKind, SampledWinner, ScreenedLoser, SweepCandidate, SweepSkip, KNOWN_FAILURE_REASON,
};
use crate::text::{
    copy_texts, decimal, decimal_text, holds, is_text_below, join, joined,
    law_noted_texts_stand_once, law_text_order_is_total, law_text_order_is_transitive, note,
    same_text, text_below, text_of, texts, with_texts,
};

verus! {

/// How a screened candidate did.
#[derive(Clone, Copy, Debug, PartialEq, Eq, Structural)]
pub enum ScreenOutcomeKind {
    /// It passed.
    Winner,
    /// It was dropped.
    Loser,
}

/// What a visit to a neuron was.
#[derive(Clone, Copy, Debug, PartialEq, Eq, Structural)]
pub enum ScreenKind {
    /// A candidate was screened.
    Scored {
        /// How it was cut.
        kind: CandidateKind,
        /// How it did.
        outcome: ScreenOutcomeKind,
    },
    /// A standing verdict answered the visit.
    KnownFailure,
    /// No candidate could be proposed.
    Skipped,
}

/// One visit as it is filed.
#[derive(Debug)]
pub struct ScreenTry {
    /// The neuron.
    pub uuid: String,
    /// What the visit was.
    pub kind: ScreenKind,
    /// Why no candidate could be proposed.
    pub blocked_reason: Option<BlockedReason>,
}

/// How a visit without a candidate is filed: as a known failure only where
/// that is its reason, and as blocked otherwise, whatever it says.
pub open spec fn skip_record(skip: SweepSkip) -> ScreenTry {
    if skip.reason@ == KNOWN_FAILURE_REASON@ && skip.blocked is None {
        ScreenTry { uuid: skip.uuid, kind: ScreenKind::KnownFailure, blocked_reason: None }
    } else {
        ScreenTry {
            uuid: skip.uuid,
            kind: ScreenKind::Skipped,
            blocked_reason: Some(skip.blocked.unwrap_or(BlockedReason::Other)),
        }
    }
}

/// The record of a visit without a candidate.
pub fn skip_try(skip: &SweepSkip) -> (r: ScreenTry)
    ensures
        r == skip_record(*skip),
{
    if same_text(skip.reason.as_str(), KNOWN_FAILURE_REASON) && skip.blocked.is_none() {
        return ScreenTry {
            uuid: skip.uuid.clone(),
            kind: ScreenKind::KnownFailure,
            blocked_reason: None,
        };
    }
    let reason = match skip.blocked {
        Some(reason) => reason,
        None => BlockedReason::Other,
    };
    ScreenTry {
        uuid: skip.uuid.clone(),
        kind: ScreenKind::Skipped,
        blocked_reason: Some(reason),
    }
}

/// The class that a skip is counted under: the one that it is filed under.
pub open spec fn skip_class(skip: SweepSkip) -> Seq<char> {
    match skip_record(skip).blocked_reason {
        Some(reason) => reason_code(reason),
        None => KNOWN_FAILURE_REASON@,
    }
}

/// How many skips are of a class.
pub open spec fn class_count(skips: Seq<SweepSkip>, class: Seq<char>) -> nat
    decreases skips.len(),
{
    if skips.len() == 0 {
        0
    } else {
        class_count(skips.drop_last(), class) + if skip_class(skips.last()) == class {
            1nat
        } else {
            0nat
        }
    }
}

/// A class of skips with its count.
pub struct ClassCount {
    /// The class.
    pub class: String,
    /// How many skips are of it.
    pub count: usize,
}

impl Ranked for ClassCount {
    open spec fn before(self, other: ClassCount) -> bool {
        self.count > other.count || (self.count == other.count && text_below(
            self.class@,
            other.class@,
        ))
    }

    fn is_before(&self, other: &ClassCount) -> (b: bool) {
        self.count > other.count || (self.count == other.count && is_text_below(
            self.class.as_str(),
            other.class.as_str(),
        ))
    }
}

/// The classes of the skips with their counts: each class once, the commonest
/// first, and of equally common ones the first in dictionary order.
pub open spec fn is_tally(skips: Seq<SweepSkip>, tally: Seq<(Seq<char>, nat)>) -> bool {
    &&& forall|i: int|
        0 <= i < tally.len() ==> (#[trigger] tally[i]).1 == class_count(skips, tally[i].0)
            && tally[i].1 > 0
    &&& forall|i: int|
        0 <= i < skips.len() ==> exists|k: int|
            0 <= k < tally.len() && (#[trigger] tally[k]).0 == skip_class(#[trigger] skips[i])
    &&& forall|i: int, j: int|
        #![trigger tally[i], tally[j]]
        0 <= i < j < tally.len() ==> tally[i].1 > tally[j].1 || (tally[i].1 == tally[j].1
            && text_below(tally[i].0, tally[j].0))
}

/// The tally in words.
pub open spec fn tally_texts(tally: Seq<(Seq<char>, nat)>) -> Seq<Seq<char>> {
    Seq::new(tally.len(), |i: int| tally[i].0 + ": "@ + decimal(tally[i].1))
}

spec fn counts_skips(counts: Seq<ClassCount>, skips: Seq<SweepSkip>) -> bool {
    &&& forall|i: int|
        0 <= i < counts.len() ==> (#[trigger] counts[i]).count == class_count(
            skips,
            counts[i].class@,
        ) && counts[i].count > 0
    &&& forall|i: int|
        0 <= i < skips.len() ==> exists|k: int|
            0 <= k < counts.len() && (#[trigger] counts[k]).class@ == skip_class(
                #[trigger] skips[i],
            )
    &&& forall|i: int, j: int|
        #![trigger counts[i], counts[j]]
        0 <= i < j < counts.len() ==> counts[i].class@ != counts[j].class@
}

fn class_of(skip: &SweepSkip) -> (r: &'static str)
    ensures
        r@ == skip_class(*skip),
{
    match skip.blocked {
        Some(reason) => reason.code(),
        None => {
            if same_text(skip.reason.as_str(), KNOWN_FAILURE_REASON) {
                KNOWN_FAILURE_REASON
            } else {
                BlockedReason::Other.code()
            }
        },
    }
}

proof fn lemma_class_count_bound(skips: Seq<SweepSkip>, class: Seq<char>)
    ensures
        class_count(skips, class) <= skips.len(),
        (forall|i: int| 0 <= i < skips.len() ==> skip_class(#[trigger] skips[i]) != class)
            ==> class_count(skips, class) == 0,
    decreases skips.len(),
{
    if skips.len() > 0 {
        let init = skips.drop_last();
        lemma_class_count_bound(init, class);
        if forall|i: int| 0 <= i < skips.len() ==> skip_class(#[trigger] skips[i]) != class {
            assert forall|i: int| 0 <= i < init.len() implies skip_class(#[trigger] init[i])
                != class by {
                assert(init[i] == skips[i]);
            }
            assert(skip_class(skips[skips.len() - 1]) != class);
        }
    }
}

fn count_class(
    counts: &mut Vec<ClassCount>,
    class: &'static str,
    Ghost(skips): Ghost<Seq<SweepSkip>>,
    Ghost(skip): Ghost<SweepSkip>,
    seen: usize,
)
    requires
        counts_skips(old(counts)@, skips),
        class@ == skip_class(skip),
        skips.len() == seen < usize::MAX,
    ensures
        counts_skips(final(counts)@, skips.push(skip)),
{
    let ghost before = counts@;
    let ghost more = skips.push(skip);
    proof {
        assert(more.drop_last() =~= skips);
    }
    let mut i: usize = 0;
    while i < counts.len() && !same_text(counts[i].class.as_str(), class)
        invariant
            i <= counts@.len(),
            counts@ == before,
            forall|k: int| 0 <= k < i ==> (#[trigger] counts@[k]).class@ != class@,
        decreases counts.len() - i,
    {
        i += 1;
    }
    if i < counts.len() {
        proof {
            lemma_class_count_bound(skips, class@);
            assert(before[i as int].count == class_count(skips, before[i as int].class@));
        }
        let raised: usize = counts[i].count + 1;
        let name = counts[i].class.clone();
        counts[i] = ClassCount { class: name, count: raised };
        proof {
            let after = counts@;
            assert forall|k: int| 0 <= k < after.len() implies (#[trigger] after[k]).count
                == class_count(more, after[k].class@) && after[k].count > 0 by {
                assert(before[k].count == class_count(skips, before[k].class@));
                if k != i {
                    assert(after[k] == before[k]);
                    if k < i {
                        assert(before[k].class@ != before[i as int].class@);
                    } else {
                        assert(before[i as int].class@ != before[k].class@);
                    }
                }
            }
            assert forall|a: int| 0 <= a < more.len() implies exists|k: int|
                0 <= k < after.len() && (#[trigger] after[k]).class@ == skip_class(
                    #[trigger] more[a],
                ) by {
                if a < skips.len() {
                    assert(more[a] == skips[a]);
                    let k = choose|k: int|
                        0 <= k < before.len() && (#[trigger] before[k]).class@ == skip_class(
                            skips[a],
                        );
                    assert(after[k].class@ == before[k].class@);
                } else {
                    assert(after[i as int].class@ == class@);
                }
            }
            assert forall|a: int, b: int|
                #![trigger after[a], after[b]]
                0 <= a < b < after.len() implies after[a].class@ != after[b].class@ by {
                assert(before[a].class@ != before[b].class@);
            }
        }
    } else {
        counts.push(ClassCount { class: text_of(class), count: 1 });
        proof {
            let after = counts@;
            let last = before.len() as int;
            assert forall|a: int| 0 <= a < skips.len() implies skip_class(#[trigger] skips[a])
                != class@ by {
                let k = choose|k: int|
                    0 <= k < before.len() && (#[trigger] before[k]).class@ == skip_class(skips[a]);
                assert(before[k].class@ != class@);
            }
            lemma_class_count_bound(skips, class@);
            assert forall|k: int| 0 <= k < after.len() implies (#[trigger] after[k]).count
                == class_count(more, after[k].class@) && after[k].count > 0 by {
                if k < last {
                    assert(after[k] == before[k]);
                    assert(before[k].class@ != class@);
                }
            }
            assert forall|a: int| 0 <= a < more.len() implies exists|k: int|
                0 <= k < after.len() && (#[trigger] after[k]).class@ == skip_class(
                    #[trigger] more[a],
                ) by {
                if a < skips.len() {
                    assert(more[a] == skips[a]);
                    let k = choose|k: int|
                        0 <= k < before.len() && (#[trigger] before[k]).class@ == skip_class(
                            skips[a],
                        );
                    assert(after[k] == before[k]);
                } else {
                    assert(after[last].class@ == class@);
                }
            }
            assert forall|a: int, b: int|
                #![trigger after[a], after[b]]
                0 <= a < b < after.len() implies after[a].class@ != after[b].class@ by {
                assert(after[a] == before[a]);
                if b < last {
                    assert(after[b] == before[b]);
                }
            }
        }
    }
}

proof fn lemma_counts_well_ranked(counts: Seq<ClassCount>)
    ensures
        well_ranked(counts),
{
    assert forall|a: ClassCount, b: ClassCount|
        counts.contains(a) && counts.contains(b) && #[trigger] a.before(b) implies !b.before(
        a,
    ) by {
        law_text_order_is_total(a.class@, b.class@);
    }
    assert forall|a: ClassCount, b: ClassCount, c: ClassCount|
        counts.contains(a) && counts.contains(b) && counts.contains(c) && !(#[trigger] a.before(
            b,
        )) && !(#[trigger] b.before(c)) implies !a.before(c) by {
        law_text_order_is_total(a.class@, b.class@);
        law_text_order_is_total(b.class@, c.class@);
        law_text_order_is_total(a.class@, c.class@);
        if a.count == b.count && b.count == c.count && text_below(a.class@, c.class@) {
            if text_below(b.class@, a.class@) {
                law_text_order_is_transitive(b.class@, a.class@, c.class@);
            }
        }
    }
}

spec fn tally_of(counts: Seq<ClassCount>) -> Seq<(Seq<char>, nat)> {
    Seq::new(counts.len(), |i: int| (counts[i].class@, counts[i].count as nat))
}

proof fn lemma_sorted_counts(counts: Seq<ClassCount>, skips: Seq<SweepSkip>)
    requires
        counts_skips(counts, skips),
    ensures
        is_tally(skips, tally_of(sorted(counts))),
{
    let out = sorted(counts);
    let tally = tally_of(out);
    lemma_counts_well_ranked(counts);
    law_sorted_is_in_order(counts);
    law_sorted_is_a_permutation(counts);
    counts.to_multiset_ensures();
    out.to_multiset_ensures();
    assert(counts.no_duplicates()) by {
        assert forall|i: int, j: int|
            0 <= i < counts.len() && 0 <= j < counts.len() && i != j implies counts[i]
            != counts[j] by {
            if i < j {
                assert(counts[i].class@ != counts[j].class@);
            } else {
                assert(counts[j].class@ != counts[i].class@);
            }
        }
    }
    counts.lemma_multiset_has_no_duplicates();
    out.lemma_multiset_has_no_duplicates_conv();
    assert forall|i: int| 0 <= i < tally.len() implies (#[trigger] tally[i]).1 == class_count(
        skips,
        tally[i].0,
    ) && tally[i].1 > 0 by {
        assert(out.contains(out[i]));
        assert(counts.contains(out[i]));
        let k = choose|k: int| 0 <= k < counts.len() && counts[k] == out[i];
        assert(counts[k].count == class_count(skips, counts[k].class@));
    }
    assert forall|i: int| 0 <= i < skips.len() implies exists|k: int|
        0 <= k < tally.len() && (#[trigger] tally[k]).0 == skip_class(#[trigger] skips[i]) by {
        let k = choose|k: int|
            0 <= k < counts.len() && (#[trigger] counts[k]).class@ == skip_class(skips[i]);
        assert(counts.contains(counts[k]));
        assert(out.contains(counts[k]));
        let j = choose|j: int| 0 <= j < out.len() && out[j] == counts[k];
        assert(tally[j].0 == skip_class(skips[i]));
    }
    assert forall|i: int, j: int|
        #![trigger tally[i], tally[j]]
        0 <= i < j < tally.len() implies tally[i].1 > tally[j].1 || (tally[i].1 == tally[j].1
        && text_below(tally[i].0, tally[j].0)) by {
        assert(!out[j].before(out[i]));
        assert(out[i] != out[j]);
        assert(out.contains(out[i]) && out.contains(out[j]));
        assert(counts.contains(out[i]) && counts.contains(out[j]));
        let a = choose|a: int| 0 <= a < counts.len() && counts[a] == out[i];
        let b = choose|b: int| 0 <= b < counts.len() && counts[b] == out[j];
        assert(a != b);
        if a < b {
            assert(counts[a].class@ != counts[b].class@);
        } else {
            assert(counts[b].class@ != counts[a].class@);
        }
        law_text_order_is_total(out[i].class@, out[j].class@);
    }
}

/// Counts skips by class, in words: `aggregate-squash: 41, known-failure: 3`.
pub fn skip_reason_tally(skips: &Vec<SweepSkip>) -> (r: String)
    ensures
        exists|tally: Seq<(Seq<char>, nat)>|
            #[trigger] is_tally(skips@, tally) && r@ == joined(tally_texts(tally), ", "@),
{
    let mut counts: Vec<ClassCount> = Vec::new();
    let mut i: usize = 0;
    while i < skips.len()
        invariant
            i <= skips@.len(),
            counts_skips(counts@, skips@.take(i as int)),
        decreases skips.len() - i,
    {
        let class = class_of(&skips[i]);
        let ghost head = skips@.take(i as int);
        count_class(&mut counts, class, Ghost(head), Ghost(skips@[i as int]), i);
        assert(head.push(skips@[i as int]) =~= skips@.take(i + 1));
        i += 1;
    }
    assert(skips@.take(i as int) =~= skips@);
    let ranked = stable_sort(counts);
    proof {
        lemma_sorted_counts(counts@, skips@);
    }
    let ghost tally = tally_of(ranked@);
    let mut parts: Vec<String> = Vec::new();
    let mut k: usize = 0;
    while k < ranked.len()
        invariant
            k <= ranked@.len(),
            tally == tally_of(ranked@),
            parts@.len() == k,
            forall|j: int| 0 <= j < k ==> (#[trigger] parts@[j])@ == tally_texts(tally)[j],
        decreases ranked.len() - k,
    {
        let number = decimal_text(ranked[k].count as u64);
        let mut part = ranked[k].class.clone();
        part.append(": ");
        part.append(number.as_str());
        assert(part@ == tally_texts(tally)[k as int]);
        parts.push(part);
        k += 1;
    }
    assert(texts(parts@) =~= tally_texts(tally));
    join(&parts, ", ")
}

/// The neurons whose own entry improves, in the order of the entries.
pub open spec fn confirmed_by(entries: Seq<FullCandidate>, min_improvement: Measure) -> Seq<
    Seq<char>,
>
    decreases entries.len(),
{
    if entries.len() == 0 {
        Seq::empty()
    } else {
        let before = confirmed_by(entries.drop_last(), min_improvement);
        let entry = entries.last();
        if improves(entry, min_improvement) && entry.uuids@.len() > 0 {
            before.push(entry.uuids@[0]@)
        } else {
            before
        }
    }
}

/// What a run's cohorts tried, confirmed and applied.
#[derive(Debug)]
pub struct WinnerTally {
    /// Sampled winners that went on to a cohort.
    pub screened: usize,
    /// Neurons whose cut improved on the whole corpus, each once.
    pub confirmed: Vec<String>,
    /// Neurons that were cut.
    pub applied: usize,
    /// Combinations that were scored.
    pub plans: usize,
    /// Combinations that could not be built.
    pub skipped: usize,
    /// Entries that the budget left out.
    pub dropped: usize,
    /// The most neurons that one winner cut.
    pub best_cuts: usize,
    /// How far that winner was ahead.
    pub best_delta: Measure,
}

/// How many neurons a winner cuts.
pub open spec fn winner_size(winner: Option<FullCandidate>) -> nat {
    match winner {
        Some(entry) => entry.uuids@.len(),
        None => 0,
    }
}

impl WinnerTally {
    /// The counts of one more cohort fit.
    pub open spec fn has_room(self, full: FullOutcome) -> bool {
        &&& self.plans + full.bundles@.len() <= usize::MAX
        &&& self.skipped + full.skipped_bundles <= usize::MAX
        &&& self.dropped + full.dropped_individuals + full.dropped_bundles <= usize::MAX
        &&& self.applied + winner_size(full.winner) <= usize::MAX
    }

    /// Whether the counts of one more cohort fit.
    pub fn can_observe(&self, full: &FullOutcome) -> (r: bool)
        ensures
            r == self.has_room(*full),
    {
        let size: usize = match &full.winner {
            Some(winner) => winner.uuids.len(),
            None => 0,
        };
        self.plans <= usize::MAX - full.bundles.len() && self.skipped <= usize::MAX
            - full.skipped_bundles && full.dropped_individuals <= usize::MAX - full.dropped_bundles
            && self.dropped <= usize::MAX - (full.dropped_individuals + full.dropped_bundles)
            && self.applied <= usize::MAX - size
    }

    /// A tally of nothing.
    pub fn new() -> (r: WinnerTally)
        ensures
            r.screened == 0,
            texts(r.confirmed@) == Seq::<Seq<char>>::empty(),
            r.applied == 0,
            r.plans == 0,
            r.skipped == 0,
            r.dropped == 0,
            r.best_cuts == 0,
            r.best_delta.bits == 0,
    {
        let r = WinnerTally {
            screened: 0,
            confirmed: Vec::new(),
            applied: 0,
            plans: 0,
            skipped: 0,
            dropped: 0,
            best_cuts: 0,
            best_delta: Measure::zero(),
        };
        assert(texts(r.confirmed@) =~= Seq::empty());
        r
    }

    /// Counts sampled winners that go on to a cohort.
    pub fn sampled(&mut self, winners: usize)
        requires
            old(self).screened + winners <= usize::MAX,
        ensures
            *final(self) == (WinnerTally {
                screened: (old(self).screened + winners) as usize,
                ..*old(self)
            }),
    {
        self.screened += winners;
    }

    /// What a cohort adds to the tally.
    pub open spec fn observed(
        before: WinnerTally,
        full: FullOutcome,
        min_improvement: Measure,
        after: WinnerTally,
    ) -> bool {
        let better = full.winner is Some && winner_size(full.winner) > before.best_cuts;
        &&& after.screened == before.screened
        &&& after.plans == before.plans + full.bundles@.len()
        &&& after.skipped == before.skipped + full.skipped_bundles
        &&& after.dropped == before.dropped + full.dropped_individuals + full.dropped_bundles
        &&& after.applied == before.applied + winner_size(full.winner)
        &&& texts(after.confirmed@) == with_texts(
            with_texts(
                texts(before.confirmed@),
                confirmed_by(full.individuals@, min_improvement),
            ),
            winner_cuts(full.winner),
        )
        &&& after.best_cuts == if better {
            winner_size(full.winner)
        } else {
            before.best_cuts as nat
        }
        &&& after.best_delta == if better {
            full.winner->0.delta
        } else {
            before.best_delta
        }
    }

    /// Adds a scored cohort to the tally.
    pub fn observe(&mut self, full: &FullOutcome, min_improvement: Measure)
        requires
            old(self).has_room(*full),
        ensures
            WinnerTally::observed(*old(self), *full, min_improvement, *final(self)),
    {
        let ghost before = *self;
        self.plans += full.bundles.len();
        self.skipped += full.skipped_bundles;
        self.dropped += full.dropped();
        let mut confirmed: Vec<String> = copy_texts(&self.confirmed);
        let ghost known = texts(before.confirmed@);
        let mut i: usize = 0;
        assert(full.individuals@.take(0) =~= Seq::empty());
        while i < full.individuals.len()
            invariant
                i <= full.individuals@.len(),
                texts(confirmed@) == with_texts(
                    known,
                    confirmed_by(full.individuals@.take(i as int), min_improvement),
                ),
            decreases full.individuals.len() - i,
        {
            let ghost head = full.individuals@.take(i + 1);
            let ghost found = confirmed_by(full.individuals@.take(i as int), min_improvement);
            proof {
                assert(head.drop_last() =~= full.individuals@.take(i as int));
                assert(head.last() == full.individuals@[i as int]);
            }
            if min_improvement.lt(full.individuals[i].delta) && full.individuals[i].uuids.len() > 0 {
                note(&mut confirmed, &full.individuals[i].uuids[0]);
                proof {
                    let first = full.individuals@[i as int].uuids@[0]@;
                    assert(found.push(first).drop_last() =~= found);
                    assert(found.push(first).last() == first);
                }
            }
            i += 1;
        }
        assert(full.individuals@.take(i as int) =~= full.individuals@);
        let ghost first = with_texts(known, confirmed_by(full.individuals@, min_improvement));
        match &full.winner {
            Some(winner) => {
                self.applied += winner.uuids.len();
                let ghost cuts = texts(winner.uuids@);
                let mut k: usize = 0;
                assert(cuts.take(0) =~= Seq::empty());
                while k < winner.uuids.len()
                    invariant
                        k <= winner.uuids@.len(),
                        cuts == texts(winner.uuids@),
                        texts(confirmed@) == with_texts(first, cuts.take(k as int)),
                    decreases winner.uuids.len() - k,
                {
                    note(&mut confirmed, &winner.uuids[k]);
                    proof {
                        assert(cuts.take(k + 1).drop_last() =~= cuts.take(k as int));
                        assert(cuts.take(k + 1).last() == winner.uuids@[k as int]@);
                    }
                    k += 1;
                }
                assert(cuts.take(k as int) =~= cuts);
                if winner.uuids.len() > self.best_cuts {
                    self.best_cuts = winner.uuids.len();
                    self.best_delta = winner.delta;
                }
            },
            None => {},
        }
        self.confirmed = confirmed;
    }

    /// The tally as a run reports it, with the winners that are still carried
    /// and the estimated cost of a creature in whole milliseconds.
    pub fn finish(&self, carried: usize, est_ms_per_creature: Option<u64>) -> (r: Winners)
        ensures
            r == (Winners {
                screened: self.screened,
                confirmed: self.confirmed@.len() as usize,
                applied: self.applied,
                carried,
                plans: self.plans,
                skipped: self.skipped,
                best_cuts: self.best_cuts,
                best_delta: self.best_delta,
                dropped: self.dropped,
                est_ms_per_creature: match est_ms_per_creature {
                    Some(ms) => ms,
                    None => 0,
                },
            }),
            r.confirmed == self.confirmed@.len(),
            r == reported(*self, carried, est_ms_per_creature),
    {
        let est_ms: u64 = match est_ms_per_creature {
            Some(ms) => ms,
            None => 0,
        };
        Winners {
            screened: self.screened,
            confirmed: self.confirmed.len(),
            applied: self.applied,
            carried,
            plans: self.plans,
            skipped: self.skipped,
            best_cuts: self.best_cuts,
            best_delta: self.best_delta,
            dropped: self.dropped,
            est_ms_per_creature: est_ms,
        }
    }
}

/// A cohort counts each confirmed neuron once: those confirmed before, those
/// whose own entry improves, and those that the winner cuts.
pub proof fn law_confirmed_neurons_count_once(
    before: WinnerTally,
    full: FullOutcome,
    min_improvement: Measure,
    after: WinnerTally,
)
    requires
        texts(before.confirmed@).no_duplicates(),
        WinnerTally::observed(before, full, min_improvement, after),
    ensures
        texts(after.confirmed@).no_duplicates(),
        forall|t: Seq<char>| #[trigger]
            texts(after.confirmed@).contains(t) <==> texts(before.confirmed@).contains(t)
                || confirmed_by(full.individuals@, min_improvement).contains(t) || winner_cuts(
                full.winner,
            ).contains(t),
{
    let own = confirmed_by(full.individuals@, min_improvement);
    law_noted_texts_stand_once(texts(before.confirmed@), own);
    law_noted_texts_stand_once(with_texts(texts(before.confirmed@), own), winner_cuts(full.winner));
}

/// What the largest winner cut is part of what was cut in all.
pub proof fn law_best_cut_is_within_the_applied(
    before: WinnerTally,
    full: FullOutcome,
    min_improvement: Measure,
    after: WinnerTally,
)
    requires
        before.best_cuts <= before.applied,
        WinnerTally::observed(before, full, min_improvement, after),
    ensures
        after.best_cuts <= after.applied,
        after.best_cuts >= before.best_cuts,
        after.best_cuts >= winner_size(full.winner),
{
}

/// The record of a screened candidate.
pub open spec fn scored_record(uuid: String, kind: CandidateKind, outcome: ScreenOutcomeKind) -> ScreenTry {
    ScreenTry { uuid, kind: ScreenKind::Scored { kind, outcome }, blocked_reason: None }
}

impl ScreenTry {
    /// The record of a screened candidate.
    pub fn scored(uuid: &String, kind: CandidateKind, outcome: ScreenOutcomeKind) -> (r: ScreenTry)
        ensures
            r == scored_record(*uuid, kind, outcome),
    {
        ScreenTry {
            uuid: uuid.clone(),
            kind: ScreenKind::Scored { kind, outcome },
            blocked_reason: None,
        }
    }
}

/// The records of the visits without a candidate that were not filed before.
pub open spec fn fresh_visits(skips: Seq<SweepSkip>, seen: Seq<Seq<char>>) -> Seq<ScreenTry>
    decreases skips.len(),
{
    if skips.len() == 0 {
        Seq::empty()
    } else {
        let before = fresh_visits(skips.drop_last(), seen);
        if seen.contains(skips.last().uuid@) {
            before
        } else {
            before.push(skip_record(skips.last()))
        }
    }
}

/// Records the visits without a candidate to neurons not seen before.
pub fn visits(skips: &Vec<SweepSkip>, seen: &Vec<String>) -> (r: Vec<ScreenTry>)
    ensures
        r@ == fresh_visits(skips@, texts(seen@)),
{
    let mut out: Vec<ScreenTry> = Vec::new();
    let mut i: usize = 0;
    assert(skips@.take(0) =~= Seq::empty());
    while i < skips.len()
        invariant
            i <= skips@.len(),
            out@ == fresh_visits(skips@.take(i as int), texts(seen@)),
        decreases skips.len() - i,
    {
        proof {
            assert(skips@.take(i + 1).drop_last() =~= skips@.take(i as int));
            assert(skips@.take(i + 1).last() == skips@[i as int]);
        }
        if !holds(seen, &skips[i].uuid) {
            out.push(skip_try(&skips[i]));
        }
        i += 1;
    }
    assert(skips@.take(i as int) =~= skips@);
    out
}

/// The records of screened winners, apart from groups.
pub open spec fn winner_records(winners: Seq<SampledWinner>) -> Seq<ScreenTry>
    decreases winners.len(),
{
    if winners.len() == 0 {
        Seq::empty()
    } else {
        let before = winner_records(winners.drop_last());
        let candidate = winners.last().candidate;
        if candidate.kind == CandidateKind::Group {
            before
        } else {
            before.push(
                scored_record(candidate.uuid, candidate.kind, ScreenOutcomeKind::Winner),
            )
        }
    }
}

/// The records of screened losers, apart from groups.
pub open spec fn loser_records(losers: Seq<ScreenedLoser>) -> Seq<ScreenTry>
    decreases losers.len(),
{
    if losers.len() == 0 {
        Seq::empty()
    } else {
        let before = loser_records(losers.drop_last());
        let loser = losers.last();
        if loser.kind == CandidateKind::Group {
            before
        } else {
            before.push(scored_record(loser.uuid, loser.kind, ScreenOutcomeKind::Loser))
        }
    }
}

fn record_winners(winners: &Vec<SampledWinner>, out: &mut Vec<ScreenTry>)
    ensures
        final(out)@ == old(out)@ + winner_records(winners@),
{
    let ghost start = out@;
    let mut i: usize = 0;
    assert(winners@.take(0) =~= Seq::empty());
    assert(start + Seq::<ScreenTry>::empty() =~= start);
    while i < winners.len()
        invariant
            i <= winners@.len(),
            out@ == start + winner_records(winners@.take(i as int)),
        decreases winners.len() - i,
    {
        let ghost before = winner_records(winners@.take(i as int));
        proof {
            assert(winners@.take(i + 1).drop_last() =~= winners@.take(i as int));
            assert(winners@.take(i + 1).last() == winners@[i as int]);
        }
        let candidate = &winners[i].candidate;
        if !candidate.is_group() {
            let record = ScreenTry::scored(
                &candidate.uuid,
                candidate.kind,
                ScreenOutcomeKind::Winner,
            );
            assert((start + before).push(record) =~= start + before.push(record));
            out.push(record);
        }
        i += 1;
    }
    assert(winners@.take(i as int) =~= winners@);
}

fn record_losers(losers: &Vec<ScreenedLoser>, out: &mut Vec<ScreenTry>)
    ensures
        final(out)@ == old(out)@ + loser_records(losers@),
{
    let ghost start = out@;
    let mut i: usize = 0;
    assert(losers@.take(0) =~= Seq::empty());
    assert(start + Seq::<ScreenTry>::empty() =~= start);
    while i < losers.len()
        invariant
            i <= losers@.len(),
            out@ == start + loser_records(losers@.take(i as int)),
        decreases losers.len() - i,
    {
        let ghost before = loser_records(losers@.take(i as int));
        proof {
            assert(losers@.take(i + 1).drop_last() =~= losers@.take(i as int));
            assert(losers@.take(i + 1).last() == losers@[i as int]);
        }
        if losers[i].kind != CandidateKind::Group {
            let record = ScreenTry::scored(
                &losers[i].uuid,
                losers[i].kind,
                ScreenOutcomeKind::Loser,
            );
            assert((start + before).push(record) =~= start + before.push(record));
            out.push(record);
        }
        i += 1;
    }
    assert(losers@.take(i as int) =~= losers@);
}

/// What is filed after a batch was screened. A coverage tail leaves its
/// winners unfiled, for a later run to score.
pub fn screen_coverage(
    visited: Vec<ScreenTry>,
    winners: &Vec<SampledWinner>,
    losers: &Vec<ScreenedLoser>,
    coverage_tail: bool,
) -> (r: Vec<ScreenTry>)
    ensures
        r@ == visited@ + (if coverage_tail {
            Seq::empty()
        } else {
            winner_records(winners@)
        }) + loser_records(losers@),
        r@ == filed_after(visited@, winners@, losers@, coverage_tail),
{
    let mut out = visited;
    if !coverage_tail {
        record_winners(winners, &mut out);
    } else {
        assert(visited@ + Seq::<ScreenTry>::empty() =~= visited@);
    }
    record_losers(losers, &mut out);
    out
}

/// The candidate counts as a winner without having been screened.
pub open spec fn passed(candidate: SweepCandidate, winner: SampledWinner) -> bool {
    &&& winner.candidate == candidate
    &&& winner.delta.bits == ONE_BITS
    &&& winner.score.bits == ONE_BITS
    &&& winner.baseline_score.bits == 0
}

/// Where there is no screen short of the whole corpus, every candidate goes on
/// as a winner.
pub fn pass_unscreened(candidates: Vec<SweepCandidate>) -> (r: Vec<SampledWinner>)
    ensures
        r@.len() == candidates@.len(),
        forall|i: int| 0 <= i < r@.len() ==> passed(candidates@[i], #[trigger] r@[i]),
{
    let ghost all = candidates@;
    let mut rest = candidates;
    let mut out: Vec<SampledWinner> = Vec::new();
    while rest.len() > 0
        invariant
            rest@.len() + out@.len() == all.len(),
            rest@ == all.take(rest@.len() as int),
            forall|k: int|
                0 <= k < out@.len() ==> passed(all[all.len() - 1 - k], #[trigger] out@[k]),
        decreases rest.len(),
    {
        let ghost before = out@;
        match rest.pop() {
            Some(candidate) => {
                let winner = SampledWinner {
                    candidate,
                    score: Measure::one(),
                    baseline_score: Measure::zero(),
                    delta: Measure::one(),
                };
                out.push(winner);
                assert(passed(all[all.len() - 1 - before.len()], winner));
                assert forall|k: int| 0 <= k < out@.len() implies passed(
                    all[all.len() - 1 - k],
                    #[trigger] out@[k],
                ) by {
                    if k < before.len() {
                        assert(out@[k] == before[k]);
                    }
                }
            },
            None => {},
        }
        assert(rest@ =~= all.take(rest@.len() as int));
    }
    let ghost turned = out@;
    let r = reversed(out);
    assert forall|i: int| 0 <= i < r@.len() implies passed(all[i], #[trigger] r@[i]) by {
        assert(r@[i] == turned[turned.len() - 1 - i]);
    }
    r
}

/// A known win that is tried again on its own counts as sampled.
pub fn replay_sample(uuid: &String, kind: CandidateKind) -> (r: SampledWinner)
    ensures
        r.candidate.uuid == *uuid,
        texts(r.candidate.members@) == seq![uuid@],
        r.candidate.permutation_index == 0,
        r.candidate.kind == kind,
        r.candidate.stem@ == "r000"@,
        r.score.bits == 0,
        r.baseline_score.bits == 0,
        r.delta.bits == ONE_BITS,
{
    let mut members: Vec<String> = Vec::new();
    members.push(uuid.clone());
    assert(texts(members@) =~= seq![uuid@]);
    SampledWinner {
        candidate: SweepCandidate {
            uuid: uuid.clone(),
            members,
            permutation_index: 0,
            kind,
            stem: text_of("r000"),
        },
        score: Measure::zero(),
        baseline_score: Measure::zero(),
        delta: Measure::one(),
    }
}

/// The journal record of a scored cohort.
pub fn full_event(full: &FullOutcome, elapsed_ms: u64) -> (r: Event)
    ensures
        r == (Event::Full {
            individuals: full.individuals@.len() as usize,
            bundles: full.bundles@.len() as usize,
            groups: full.groups@.len() as usize,
            accepted: full.winner is Some,
            score: match full.winner {
                Some(winner) => Some(winner.score),
                None => None,
            },
            delta: match full.winner {
                Some(winner) => Some(winner.delta),
                None => None,
            },
            cuts: winner_size(full.winner) as usize,
            elapsed_ms,
        }),
        r == cohort_record(*full, elapsed_ms),
{
    let individuals: usize = full.individuals.len();
    let bundles: usize = full.bundles.len();
    let groups: usize = full.groups.len();
    match &full.winner {
        Some(winner) => {
            let cuts: usize = winner.uuids.len();
            Event::Full {
                individuals,
                bundles,
                groups,
                accepted: true,
                score: Some(winner.score),
                delta: Some(winner.delta),
                cuts,
                elapsed_ms,
            }
        },
        None => Event::Full {
            individuals,
            bundles,
            groups,
            accepted: false,
            score: None,
            delta: None,
            cuts: 0,
            elapsed_ms,
        },
    }
}

/// The journal record of an accepted cut: what it was estimated to remove and
/// what it did remove, less than nothing where the creature grew.
pub fn cascade_event(
    kind: &str,
    cuts: usize,
    estimate: &CascadeEstimate,
    opening: Structure,
    closing: Structure,
    actual_growth_units: Measure,
) -> (r: Event)
    requires
        opening.hidden <= i64::MAX,
        opening.synapses <= i64::MAX,
        closing.hidden <= i64::MAX,
        closing.synapses <= i64::MAX,
    ensures
        r matches Event::Cascade {
            kind: named,
            cuts: counted,
            estimated_hidden,
            estimated_synapses,
            actual_hidden,
            actual_synapses,
            estimated_growth_units,
            actual_growth_units: gained,
        } && named@ == kind@ && counted == cuts && estimated_hidden == estimate.hidden_neurons
            && estimated_synapses == estimate.synapses && actual_hidden == opening.hidden
            - closing.hidden && actual_synapses == opening.synapses - closing.synapses
            && estimated_growth_units == estimate.growth_units && gained == actual_growth_units,
        tells_cascade(r, kind@, cuts, *estimate, opening, closing, actual_growth_units),
{
    Event::Cascade {
        kind: text_of(kind),
        cuts,
        estimated_hidden: estimate.hidden_neurons,
        estimated_synapses: estimate.synapses,
        actual_hidden: opening.hidden as i64 - closing.hidden as i64,
        actual_synapses: opening.synapses as i64 - closing.synapses as i64,
        estimated_growth_units: estimate.growth_units,
        actual_growth_units,
    }
}

/// How many of the texts are in the other list.
pub open spec fn held_count(list: Seq<Seq<char>>, held: Seq<Seq<char>>) -> nat
    decreases list.len(),
{
    if list.len() == 0 {
        0
    } else {
        held_count(list.drop_last(), held) + if held.contains(list.last()) {
            1nat
        } else {
            0nat
        }
    }
}

/// How the visits that are left split: those never screened, and those that
/// were and are put off.
pub fn unchecked_split(left: &Vec<String>, screened: &Vec<String>) -> (r: (usize, usize))
    ensures
        r.1 == held_count(texts(left@), texts(screened@)),
        r.0 + r.1 == left@.len(),
{
    let ghost all = texts(left@);
    let mut deferred: usize = 0;
    let mut i: usize = 0;
    assert(all.take(0) =~= Seq::empty());
    while i < left.len()
        invariant
            i <= left@.len(),
            all == texts(left@),
            deferred <= i,
            deferred == held_count(all.take(i as int), texts(screened@)),
        decreases left.len() - i,
    {
        proof {
            assert(all.take(i + 1).drop_last() =~= all.take(i as int));
            assert(all.take(i + 1).last() == left@[i as int]@);
        }
        if holds(screened, &left[i]) {
            deferred += 1;
        }
        i += 1;
    }
    assert(all.take(i as int) =~= all);
    (left.len() - deferred, deferred)
}

/// The record is of a cut of one neuron that ended so.
pub open spec fn is_neuron_record(record: ScreenTry, outcome: ScreenOutcomeKind) -> bool {
    &&& record.blocked_reason is None
    &&& record.kind == (ScreenKind::Scored { kind: CandidateKind::Identity, outcome })
        || record.kind == (ScreenKind::Scored { kind: CandidateKind::Ablation, outcome })
}

/// Screening a group is no coverage of its members: only cuts of one neuron
/// are filed.
pub proof fn law_groups_are_no_coverage(winners: Seq<SampledWinner>, losers: Seq<ScreenedLoser>)
    ensures
        forall|i: int|
            0 <= i < winner_records(winners).len() ==> #[trigger] is_neuron_record(
                winner_records(winners)[i],
                ScreenOutcomeKind::Winner,
            ),
        forall|i: int|
            0 <= i < loser_records(losers).len() ==> #[trigger] is_neuron_record(
                loser_records(losers)[i],
                ScreenOutcomeKind::Loser,
            ),
    decreases winners.len() + losers.len(),
{
    if winners.len() > 0 {
        law_groups_are_no_coverage(winners.drop_last(), losers);
        assert forall|i: int| 0 <= i < winner_records(winners).len() implies #[trigger] is_neuron_record(
            winner_records(winners)[i],
            ScreenOutcomeKind::Winner,
        ) by {
            let before = winner_records(winners.drop_last());
            if i < before.len() {
                assert(is_neuron_record(before[i], ScreenOutcomeKind::Winner));
            }
        }
    } else if losers.len() > 0 {
        law_groups_are_no_coverage(winners, losers.drop_last());
        assert forall|i: int| 0 <= i < loser_records(losers).len() implies #[trigger] is_neuron_record(
            loser_records(losers)[i],
            ScreenOutcomeKind::Loser,
        ) by {
            let before = loser_records(losers.drop_last());
            if i < before.len() {
                assert(is_neuron_record(before[i], ScreenOutcomeKind::Loser));
            }
        }
    }
}

/// A visit without a candidate is filed as blocked, with a reason, unless a
/// standing verdict answered it.
pub proof fn law_skips_are_blocked_or_known(skip: SweepSkip)
    ensures
        skip_record(skip).uuid == skip.uuid,
        skip_record(skip).kind == ScreenKind::KnownFailure <==> skip.reason@
            == KNOWN_FAILURE_REASON@ && skip.blocked is None,
        skip_record(skip).blocked_reason is Some <==> skip_record(skip).kind
            == ScreenKind::Skipped,
{
}

/// The confirmed neurons of a cohort are those whose own entry is ahead by more than
/// the minimum, in order.
pub proof fn law_confirmed_neurons_are_ahead(
    entries: Seq<FullCandidate>,
    min_improvement: Measure,
    marks: Seq<bool>,
)
    requires
        marks.len() == entries.len(),
        forall|i: int| 0 <= i < marks.len() ==> (#[trigger] marks[i]
            <==> (entries[i].uuids@.len() > 0 && !entries[i].delta.nan()
                && !min_improvement.nan()
                    && min_improvement.position() < entries[i].delta.position())),
    ensures
        confirmed_by(entries, min_improvement).len() == true_places(marks).len(),
        forall|k: int|
            0 <= k < true_places(marks).len()
                ==> (#[trigger] confirmed_by(entries, min_improvement)[k])
                    == entries[true_places(marks)[k]].uuids@[0]@,
    decreases entries.len(),
{
    if entries.len() > 0 {
        let init = entries.drop_last();
        let some = marks.drop_last();
        let n = entries.len() - 1;
        assert forall|i: int| 0 <= i < some.len() implies (#[trigger] some[i]
            <==> (init[i].uuids@.len() > 0 && !init[i].delta.nan() && !min_improvement.nan()
                && min_improvement.position() < init[i].delta.position())) by {
            assert(some[i] == marks[i]);
            assert(init[i] == entries[i]);
        }
        law_confirmed_neurons_are_ahead(init, min_improvement, some);
        assert(marks[n] <==> (entries[n].uuids@.len() > 0 && !entries[n].delta.nan()
            && !min_improvement.nan() && min_improvement.position() < entries[n].delta.position()));
        law_true_places_ascend(some);
        let before = confirmed_by(init, min_improvement);
        let after = confirmed_by(entries, min_improvement);
        let was = true_places(some);
        let now = true_places(marks);
        assert forall|k: int| 0 <= k < now.len() implies (#[trigger] after[k])
            == entries[now[k]].uuids@[0]@ by {
            if k < was.len() {
                assert(now[k] == was[k]);
                assert(0 <= was[k] < some.len());
                assert(init[was[k]] == entries[was[k]]);
                assert(after[k] == before[k]);
            }
        }
    }
}

/// Of the visits without a candidate those to neurons that were not seen before are
/// filed, in order.
pub proof fn law_new_visits_are_filed(skips: Seq<SweepSkip>, seen: Seq<Seq<char>>, marks: Seq<bool>)
    requires
        marks.len() == skips.len(),
        forall|i: int| 0 <= i < marks.len() ==> (#[trigger] marks[i]
            <==> !seen.contains(skips[i].uuid@)),
    ensures
        fresh_visits(skips, seen).len() == true_places(marks).len(),
        forall|k: int|
            0 <= k < true_places(marks).len() ==> (#[trigger] fresh_visits(skips, seen)[k])
                == skip_record(skips[true_places(marks)[k]]),
    decreases skips.len(),
{
    if skips.len() > 0 {
        let init = skips.drop_last();
        let some = marks.drop_last();
        let n = skips.len() - 1;
        assert forall|i: int| 0 <= i < some.len() implies (#[trigger] some[i]
            <==> !seen.contains(init[i].uuid@)) by {
            assert(some[i] == marks[i]);
            assert(init[i] == skips[i]);
        }
        law_new_visits_are_filed(init, seen, some);
        assert(marks[n] <==> !seen.contains(skips[n].uuid@));
        law_true_places_ascend(some);
        let before = fresh_visits(init, seen);
        let after = fresh_visits(skips, seen);
        let was = true_places(some);
        let now = true_places(marks);
        assert forall|k: int| 0 <= k < now.len() implies (#[trigger] after[k])
            == skip_record(skips[now[k]]) by {
            if k < was.len() {
                assert(now[k] == was[k]);
                assert(0 <= was[k] < some.len());
                assert(init[was[k]] == skips[was[k]]);
                assert(after[k] == before[k]);
            }
        }
    }
}

/// Of the winners of a screen those that cut one neuron are filed, in order, each
/// with its kind and as a winner.
pub proof fn law_screened_winners_are_filed(
    winners: Seq<SampledWinner>,
    marks: Seq<bool>,
)
    requires
        marks.len() == winners.len(),
        forall|i: int|
            0 <= i < marks.len() ==> (#[trigger] marks[i]
                <==> winners[i].candidate.kind != CandidateKind::Group),
    ensures
        winner_records(winners).len() == true_places(marks).len(),
        forall|k: int|
            0 <= k < true_places(marks).len() ==> {
                let at = true_places(marks)[k];
                let from = winners[at];
                let made = #[trigger] winner_records(winners)[k];
                &&& made.uuid == from.candidate.uuid
                &&& made.blocked_reason is None
                &&& made.kind == (ScreenKind::Scored {
                    kind: from.candidate.kind,
                    outcome: ScreenOutcomeKind::Winner,
                })
            },
    decreases winners.len(),
{
    if winners.len() > 0 {
        let init = winners.drop_last();
        let some = marks.drop_last();
        let n = winners.len() - 1;
        assert forall|i: int| 0 <= i < some.len() implies (#[trigger] some[i]
            <==> init[i].candidate.kind != CandidateKind::Group) by {
            assert(some[i] == marks[i]);
            assert(init[i] == winners[i]);
        }
        law_screened_winners_are_filed(init, some);
        assert(marks[n] <==> winners[n].candidate.kind != CandidateKind::Group);
        law_true_places_ascend(some);
        let before = winner_records(init);
        let after = winner_records(winners);
        let was = true_places(some);
        let now = true_places(marks);
        assert forall|k: int| 0 <= k < now.len() implies ({
            let at = now[k];
            let from = winners[at];
            let made = #[trigger] after[k];
            &&& made.uuid == from.candidate.uuid
            &&& made.blocked_reason is None
            &&& made.kind == (ScreenKind::Scored {
                    kind: from.candidate.kind,
                    outcome: ScreenOutcomeKind::Winner,
                })
        }) by {
            if k < was.len() {
                assert(now[k] == was[k]);
                assert(0 <= was[k] < some.len());
                assert(init[was[k]] == winners[was[k]]);
                assert(after[k] == before[k]);
            }
        }
    }
}

/// Of the losers of a screen those that cut one neuron are filed, in order, each with
/// its kind and as a loser.
pub proof fn law_screened_losers_are_filed(
    losers: Seq<ScreenedLoser>,
    marks: Seq<bool>,
)
    requires
        marks.len() == losers.len(),
        forall|i: int|
            0 <= i < marks.len() ==> (#[trigger] marks[i]
                <==> losers[i].kind != CandidateKind::Group),
    ensures
        loser_records(losers).len() == true_places(marks).len(),
        forall|k: int|
            0 <= k < true_places(marks).len() ==> {
                let at = true_places(marks)[k];
                let from = losers[at];
                let made = #[trigger] loser_records(losers)[k];
                &&& made.uuid == from.uuid
                &&& made.blocked_reason is None
                &&& made.kind == (ScreenKind::Scored {
                    kind: from.kind,
                    outcome: ScreenOutcomeKind::Loser,
                })
            },
    decreases losers.len(),
{
    if losers.len() > 0 {
        let init = losers.drop_last();
        let some = marks.drop_last();
        let n = losers.len() - 1;
        assert forall|i: int| 0 <= i < some.len() implies (#[trigger] some[i]
            <==> init[i].kind != CandidateKind::Group) by {
            assert(some[i] == marks[i]);
            assert(init[i] == losers[i]);
        }
        law_screened_losers_are_filed(init, some);
        assert(marks[n] <==> losers[n].kind != CandidateKind::Group);
        law_true_places_ascend(some);
        let before = loser_records(init);
        let after = loser_records(losers);
        let was = true_places(some);
        let now = true_places(marks);
        assert forall|k: int| 0 <= k < now.len() implies ({
            let at = now[k];
            let from = losers[at];
            let made = #[trigger] after[k];
            &&& made.uuid == from.uuid
            &&& made.blocked_reason is None
            &&& made.kind == (ScreenKind::Scored {
                    kind: from.kind,
                    outcome: ScreenOutcomeKind::Loser,
                })
        }) by {
            if k < was.len() {
                assert(now[k] == was[k]);
                assert(0 <= was[k] < some.len());
                assert(init[was[k]] == losers[was[k]]);
                assert(after[k] == before[k]);
            }
        }
    }
}

/// The texts of a list that another holds are counted.
pub proof fn law_held_texts_are_counted(
    list: Seq<Seq<char>>,
    held: Seq<Seq<char>>,
    marks: Seq<bool>,
)
    requires
        marks.len() == list.len(),
        forall|i: int| 0 <= i < marks.len() ==> (#[trigger] marks[i] <==> held.contains(list[i])),
    ensures
        held_count(list, held) == true_places(marks).len(),
    decreases list.len(),
{
    if list.len() > 0 {
        let init = list.drop_last();
        let some = marks.drop_last();
        let n = list.len() - 1;
        assert forall|i: int| 0 <= i < some.len() implies (#[trigger] some[i]
            <==> held.contains(init[i])) by {
            assert(some[i] == marks[i]);
            assert(init[i] == list[i]);
        }
        law_held_texts_are_counted(init, held, some);
        assert(marks[n] <==> held.contains(list[n]));
    }
}

/// Skips are counted under the class that they are told by: the code of what blocked
/// them, `known-failure` where a standing verdict answered, and `other` for any other
/// reason.
pub proof fn law_skips_are_counted_by_class(
    skips: Seq<SweepSkip>,
    classes: Seq<Seq<char>>,
    class: Seq<char>,
    marks: Seq<bool>,
)
    requires
        classes.len() == skips.len(),
        forall|i: int|
            0 <= i < skips.len() ==> (#[trigger] classes[i]) == if skips[i].blocked is Some {
                reason_code(skips[i].blocked->0)
            } else if skips[i].reason@ == "known-failure"@ {
                "known-failure"@
            } else {
                "other"@
            },
        marks.len() == skips.len(),
        forall|i: int| 0 <= i < marks.len() ==> (#[trigger] marks[i] <==> classes[i] == class),
    ensures
        class_count(skips, class) == true_places(marks).len(),
    decreases skips.len(),
{
    if skips.len() > 0 {
        let init = skips.drop_last();
        let some = marks.drop_last();
        let told = classes.drop_last();
        let n = skips.len() - 1;
        assert forall|i: int| 0 <= i < some.len() implies (#[trigger] some[i] <==> told[i]
            == class) by {
            assert(some[i] == marks[i]);
            assert(told[i] == classes[i]);
        }
        assert forall|i: int| 0 <= i < init.len() implies (#[trigger] told[i])
            == if init[i].blocked is Some {
            reason_code(init[i].blocked->0)
        } else if init[i].reason@ == "known-failure"@ {
            "known-failure"@
        } else {
            "other"@
        } by {
            assert(told[i] == classes[i]);
            assert(init[i] == skips[i]);
        }
        law_skips_are_counted_by_class(init, told, class, some);
        assert(classes[n] == skip_class(skips[n]));
        assert(marks[n] <==> classes[n] == class);
    }
}

/// What is filed of a visit without a candidate: blocked for the reason that it
/// names, a known failure only where it says so and names none, and otherwise
/// blocked for another reason.
pub proof fn law_skips_are_filed_as_what_they_are(skip: SweepSkip)
    ensures
        ({
            let record = skip_record(skip);
            &&& record.uuid == skip.uuid
            &&& skip.blocked matches Some(reason) ==> record.kind == ScreenKind::Skipped
                && record.blocked_reason == Some(reason)
            &&& skip.blocked is None && skip.reason@ == "known-failure"@ ==> record.kind
                == ScreenKind::KnownFailure && record.blocked_reason is None
            &&& skip.blocked is None && skip.reason@ != "known-failure"@ ==> record.kind
                == ScreenKind::Skipped && record.blocked_reason == Some(BlockedReason::Other)
        }),
{
}

/// What a cohort adds to the tally: the combinations that it scored and could not
/// build, the entries that it left out, the neurons that its winner cut, and a
/// confirmed neuron only where its own entry is ahead by more than the minimum or
/// the winner cut it. The largest winner so far is kept with its own gain, the
/// first of several as large.
pub proof fn law_cohorts_add_to_the_tally(
    before: WinnerTally,
    full: FullOutcome,
    min_improvement: Measure,
    after: WinnerTally,
)
    requires
        WinnerTally::observed(before, full, min_improvement, after),
    ensures
        after.screened == before.screened,
        after.plans == before.plans + full.bundles@.len(),
        after.skipped == before.skipped + full.skipped_bundles,
        after.dropped == before.dropped + full.dropped_individuals + full.dropped_bundles,
        full.winner is None ==> after.applied == before.applied && after.best_cuts
            == before.best_cuts && after.best_delta == before.best_delta,
        full.winner matches Some(winner) ==> {
            &&& after.applied == before.applied + winner.uuids@.len()
            &&& winner.uuids@.len() > before.best_cuts ==> after.best_cuts == winner.uuids@.len()
                && after.best_delta == winner.delta
            &&& winner.uuids@.len() <= before.best_cuts ==> after.best_cuts == before.best_cuts
                && after.best_delta == before.best_delta
        },
{
}

/// Without a screen every candidate goes on as it is, ahead by one over nothing.
pub proof fn law_unscreened_candidates_go_on(candidate: SweepCandidate, winner: SampledWinner)
    requires
        passed(candidate, winner),
    ensures
        winner.candidate == candidate,
        winner.delta.bits == 0x3FF0_0000_0000_0000,
        winner.score.bits == 0x3FF0_0000_0000_0000,
        winner.baseline_score.bits == 0,
{
}

/// The tally has room for a cohort until one of its counts is full.
pub proof fn law_only_full_tallies_refuse(tally: WinnerTally, full: FullOutcome)
    ensures
        tally.has_room(full) <==> {
            &&& tally.plans + full.bundles@.len() <= usize::MAX
            &&& tally.skipped + full.skipped_bundles <= usize::MAX
            &&& tally.dropped + full.dropped_individuals + full.dropped_bundles <= usize::MAX
            &&& full.winner is None ==> tally.applied <= usize::MAX
            &&& full.winner matches Some(winner) ==> tally.applied + winner.uuids@.len()
                <= usize::MAX
        },
{
}

/// What is filed after a screen: first the visits, then the winners unless the search
/// is over, and then the losers.
pub open spec fn filed_after(
    visited: Seq<ScreenTry>,
    winners: Seq<SampledWinner>,
    losers: Seq<ScreenedLoser>,
    coverage_tail: bool,
) -> Seq<ScreenTry> {
    visited + (if coverage_tail {
        Seq::empty()
    } else {
        winner_records(winners)
    }) + loser_records(losers)
}

/// Every visit and every loser that cuts one neuron is filed after a screen, and
/// every such winner exactly while the search goes on.
pub proof fn law_screens_are_filed_in_full(
    visited: Seq<ScreenTry>,
    winners: Seq<SampledWinner>,
    losers: Seq<ScreenedLoser>,
    coverage_tail: bool,
    i: int,
)
    ensures
        ({
            let filed = filed_after(visited, winners, losers, coverage_tail);
            let won = if coverage_tail {
                0
            } else {
                winner_records(winners).len() as int
            };
            &&& filed.len() == visited.len() + won + loser_records(losers).len()
            &&& 0 <= i < visited.len() ==> filed[i] == visited[i]
            &&& 0 <= i < won ==> filed[visited.len() + i] == winner_records(winners)[i]
            &&& 0 <= i < loser_records(losers).len() ==> filed[visited.len() + won + i]
                == loser_records(losers)[i]
        }),
{
}

/// The journal record of a scored cohort.
pub open spec fn cohort_record(full: FullOutcome, elapsed_ms: u64) -> Event {
    Event::Full {
        individuals: full.individuals@.len() as usize,
        bundles: full.bundles@.len() as usize,
        groups: full.groups@.len() as usize,
        accepted: full.winner is Some,
        score: match full.winner {
            Some(winner) => Some(winner.score),
            None => None,
        },
        delta: match full.winner {
            Some(winner) => Some(winner.delta),
            None => None,
        },
        cuts: winner_size(full.winner) as usize,
        elapsed_ms,
    }
}

/// A report that takes a cohort's record in counts it as one with a winner exactly if
/// it has one, with as many cuts as the winner names; and the record tells the
/// winner's own score and gain.
pub proof fn law_cohorts_are_journalled_as_they_are(
    full: FullOutcome,
    elapsed_ms: u64,
    before: Report,
    after: Report,
)
    requires
        fits(before, cohort_record(full, elapsed_ms)),
        records(before, cohort_record(full, elapsed_ms), after),
        full.winner matches Some(winner) ==> winner.uuids@.len() <= usize::MAX,
    ensures
        full.winner matches Some(winner) ==> {
            &&& after.full_accepts == before.full_accepts + 1
            &&& after.full_rejects == before.full_rejects
            &&& after.accepted_cuts == before.accepted_cuts + winner.uuids@.len()
            &&& cohort_record(full, elapsed_ms)->score == Some(winner.score)
            &&& cohort_record(full, elapsed_ms)->delta == Some(winner.delta)
        },
        full.winner is None ==> {
            &&& after.full_accepts == before.full_accepts
            &&& after.full_rejects == before.full_rejects + 1
            &&& after.accepted_cuts == before.accepted_cuts
        },
        cohort_record(full, elapsed_ms)->individuals == full.individuals@.len() as usize,
        cohort_record(full, elapsed_ms)->bundles == full.bundles@.len() as usize,
        cohort_record(full, elapsed_ms)->groups == full.groups@.len() as usize,
        before.first_win_ms is None && full.winner is Some ==> after.first_win_ms == Some(
            elapsed_ms,
        ),
{
}

/// The tally as a run reports it.
pub open spec fn reported(
    tally: WinnerTally,
    carried: usize,
    est_ms_per_creature: Option<u64>,
) -> Winners {
    Winners {
        screened: tally.screened,
        confirmed: tally.confirmed@.len() as usize,
        applied: tally.applied,
        carried,
        plans: tally.plans,
        skipped: tally.skipped,
        best_cuts: tally.best_cuts,
        best_delta: tally.best_delta,
        dropped: tally.dropped,
        est_ms_per_creature: match est_ms_per_creature {
            Some(ms) => ms,
            None => 0,
        },
    }
}

/// A run reports every figure of its tally as it is, the confirmed neurons by their
/// number, and no estimate as nothing.
pub proof fn law_tallies_are_reported_as_they_are(
    tally: WinnerTally,
    carried: usize,
    est_ms_per_creature: Option<u64>,
)
    requires
        tally.confirmed@.len() <= usize::MAX,
    ensures
        ({
            let r = reported(tally, carried, est_ms_per_creature);
            &&& r.screened == tally.screened && r.confirmed == tally.confirmed@.len()
            &&& r.applied == tally.applied && r.carried == carried && r.plans == tally.plans
            &&& r.skipped == tally.skipped && r.dropped == tally.dropped
            &&& r.best_cuts == tally.best_cuts && r.best_delta == tally.best_delta
            &&& est_ms_per_creature matches Some(ms) ==> r.est_ms_per_creature == ms
            &&& est_ms_per_creature is None ==> r.est_ms_per_creature == 0
        }),
{
}

/// The record tells of this accepted cut.
pub open spec fn tells_cascade(
    r: Event,
    kind: Seq<char>,
    cuts: usize,
    estimate: CascadeEstimate,
    opening: Structure,
    closing: Structure,
    actual_growth_units: Measure,
) -> bool {
    &&& r is Cascade
    &&& r->kind@ == kind
    &&& r->Cascade_cuts == cuts
    &&& r->estimated_hidden == estimate.hidden_neurons
    &&& r->estimated_synapses == estimate.synapses
    &&& r->actual_hidden == opening.hidden - closing.hidden
    &&& r->actual_synapses == opening.synapses - closing.synapses
    &&& r->estimated_growth_units == estimate.growth_units
    &&& r->actual_growth_units == actual_growth_units
}

/// What an accepted cut removed is what the creature had less than what it has left,
/// and a report that takes the record in lists the estimate beside what was saved,
/// and counts a neighbourhood apart with what it removed.
pub proof fn law_accepted_cuts_are_journalled_as_they_are(
    event: Event,
    kind: Seq<char>,
    cuts: usize,
    estimate: CascadeEstimate,
    opening: Structure,
    closing: Structure,
    actual_growth_units: Measure,
    before: Report,
    after: Report,
)
    requires
        tells_cascade(event, kind, cuts, estimate, opening, closing, actual_growth_units),
        fits(before, event),
        records(before, event, after),
    ensures
        event->actual_hidden + closing.hidden == opening.hidden,
        event->actual_synapses + closing.synapses == opening.synapses,
        after.cascade_accepts == before.cascade_accepts + 1,
        after.cascade_estimated@.last() == estimate.growth_units,
        after.cascade_actual@.last() == actual_growth_units,
        kind == "group"@ ==> after.group_accepts == before.group_accepts + 1
            && after.group_cuts_accepted == before.group_cuts_accepted + cuts
            && after.group_hidden_removed == before.group_hidden_removed + opening.hidden
            - closing.hidden,
        kind != "group"@ ==> after.group_accepts == before.group_accepts
            && after.group_cuts_accepted == before.group_cuts_accepted,
{
}

} // verus!
