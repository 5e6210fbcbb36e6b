//! Judging a scored cohort, and walking a bundle cut by cut.
use vstd::prelude::*;

use crate::list::{law_filter_picks_in_order, law_true_places_ascend, stands_at, true_places};
use crate::measure::Measure;
use crate::promote::Cohort;
use crate::scorer::{find_score, scores, scores_at, ScoreEntry, ScoreResult};
use crate::sweep::SampledWinner;
use crate::text::{
    copy_texts, decimal, decimal3, decimal3_text, holds, law_decimals_stand_for_their_number,
    read_decimal, text_lists, text_of, texts,
};

verus! {

/// How an entry was put together.
#[derive(Clone, Copy, Debug, PartialEq, Eq, Structural)]
pub enum EntryKind {
    /// A single cut.
    Individual,
    /// Several cuts at once.
    Bundle,
    /// A whole neighbourhood at once.
    Group,
}

/// A kind in a word.
pub open spec fn kind_word(kind: EntryKind) -> Seq<char> {
    match kind {
        EntryKind::Individual => "individual"@,
        EntryKind::Bundle => "bundle"@,
        EntryKind::Group => "group"@,
    }
}

impl EntryKind {
    /// The kind in a word.
    pub fn label(self) -> (r: &'static str)
        ensures
            r@ == kind_word(self),
    {
        match self {
            EntryKind::Individual => "individual",
            EntryKind::Bundle => "bundle",
            EntryKind::Group => "group",
        }
    }
}

/// The stem of the entry at a place among those of its kind.
pub open spec fn stem_text(kind: EntryKind, at: nat) -> Seq<char> {
    (match kind {
        EntryKind::Individual => "i"@,
        EntryKind::Bundle => "b"@,
        EntryKind::Group => "g"@,
    }) + decimal3(at)
}

/// The stem of the entry at a place among those of its kind.
pub fn entry_stem(kind: EntryKind, at: usize) -> (r: String)
    ensures
        r@ == stem_text(kind, at as nat),
{
    let mut out = match kind {
        EntryKind::Individual => text_of("i"),
        EntryKind::Bundle => text_of("b"),
        EntryKind::Group => text_of("g"),
    };
    let number = decimal3_text(at as u64);
    out.append(number.as_str());
    out
}

/// One scored entry of a cohort.
#[derive(Debug)]
pub struct FullCandidate {
    /// The stem of its file.
    pub stem: String,
    /// How it was put together.
    pub kind: EntryKind,
    /// What it cuts.
    pub uuids: Vec<String>,
    /// Its score on the whole corpus.
    pub score: Measure,
    /// Its error on the whole corpus.
    pub error: Measure,
    /// What its score takes off for structure.
    pub complexity_penalty: Measure,
    /// How far it is ahead of the incumbent.
    pub delta: Measure,
}

/// Two entries hold the same.
pub open spec fn same_entry(a: FullCandidate, b: FullCandidate) -> bool {
    &&& a.stem == b.stem
    &&& a.kind == b.kind
    &&& texts(a.uuids@) == texts(b.uuids@)
    &&& a.score == b.score
    &&& a.error == b.error
    &&& a.complexity_penalty == b.complexity_penalty
    &&& a.delta == b.delta
}

impl FullCandidate {
    /// A copy of the entry.
    pub fn copy(&self) -> (r: FullCandidate)
        ensures
            same_entry(r, *self),
    {
        FullCandidate {
            stem: self.stem.clone(),
            kind: self.kind,
            uuids: copy_texts(&self.uuids),
            score: self.score,
            error: self.error,
            complexity_penalty: self.complexity_penalty,
            delta: self.delta,
        }
    }

    /// The entry that a scorer's answer makes of a creature.
    pub fn new(
        stem: String,
        kind: EntryKind,
        uuids: Vec<String>,
        result: ScoreResult,
        delta: Measure,
    ) -> (r: FullCandidate)
        ensures
            r.stem == stem,
            r.kind == kind,
            r.uuids == uuids,
            r.score == result.score,
            r.error == result.error,
            r.complexity_penalty == result.complexity_penalty,
            r.delta == delta,
    {
        FullCandidate {
            stem,
            kind,
            uuids,
            score: result.score,
            error: result.error,
            complexity_penalty: result.complexity_penalty,
            delta,
        }
    }
}

/// The entry improves on the incumbent by more than the minimum.
pub open spec fn improves(entry: FullCandidate, min_improvement: Measure) -> bool {
    min_improvement.below(entry.delta)
}

/// The place of the winner: of those that improve, the first with the largest
/// score.
pub open spec fn winner_of(entries: Seq<FullCandidate>, min_improvement: Measure) -> Option<int>
    decreases entries.len(),
{
    if entries.len() == 0 {
        None
    } else {
        let before = winner_of(entries.drop_last(), min_improvement);
        let entry = entries.last();
        if !improves(entry, min_improvement) {
            before
        } else {
            match before {
                None => Some(entries.len() - 1),
                Some(best) => if entries[best].score.below(entry.score) {
                    Some(entries.len() - 1)
                } else {
                    Some(best)
                },
            }
        }
    }
}

/// The winner improves; nothing that improves scores higher, and whatever
/// improves and comes earlier scores lower. Nobody wins exactly where nothing
/// improves.
pub proof fn law_winner_is_the_first_of_the_best(
    entries: Seq<FullCandidate>,
    min_improvement: Measure,
)
    requires
        forall|i: int| 0 <= i < entries.len() ==> !(#[trigger] entries[i]).score.nan(),
    ensures
        match winner_of(entries, min_improvement) {
            Some(best) => {
                &&& 0 <= best < entries.len()
                &&& improves(entries[best], min_improvement)
                &&& forall|j: int|
                    0 <= j < entries.len() && improves(#[trigger] entries[j], min_improvement)
                        ==> entries[j].score.at_most(entries[best].score)
                &&& forall|j: int|
                    0 <= j < best && improves(#[trigger] entries[j], min_improvement)
                        ==> entries[j].score.below(entries[best].score)
            },
            None => forall|j: int|
                0 <= j < entries.len() ==> !improves(#[trigger] entries[j], min_improvement),
        },
    decreases entries.len(),
{
    if entries.len() > 0 {
        let init = entries.drop_last();
        assert forall|i: int| 0 <= i < init.len() implies !(#[trigger] init[i]).score.nan() by {
            assert(!entries[i].score.nan());
        }
        law_winner_is_the_first_of_the_best(init, min_improvement);
        let last = entries.len() - 1;
        assert(!entries[last].score.nan());
        match winner_of(init, min_improvement) {
            Some(best) => {
                assert(init[best] == entries[best]);
                assert(!entries[best].score.nan());
                assert forall|j: int|
                    0 <= j < init.len() && improves(
                        #[trigger] entries[j],
                        min_improvement,
                    ) implies entries[j].score.at_most(entries[best].score) by {
                    assert(init[j] == entries[j]);
                }
                assert forall|j: int|
                    0 <= j < best && improves(
                        #[trigger] entries[j],
                        min_improvement,
                    ) implies entries[j].score.below(entries[best].score) by {
                    assert(init[j] == entries[j]);
                }
            },
            None => {
                assert forall|j: int| 0 <= j < init.len() implies !improves(
                    #[trigger] entries[j],
                    min_improvement,
                ) by {
                    assert(init[j] == entries[j]);
                }
            },
        }
    }
}

/// The cuts that the sample promised and the whole corpus did not confirm.
pub open spec fn false_positives(
    entries: Seq<FullCandidate>,
    min_improvement: Measure,
) -> Seq<Seq<char>>
    decreases entries.len(),
{
    if entries.len() == 0 {
        Seq::empty()
    } else {
        let head = false_positives(entries.drop_last(), min_improvement);
        let entry = entries.last();
        if entry.kind == EntryKind::Individual && entry.delta.at_most(min_improvement) {
            head.push(entry.uuids@[0]@)
        } else {
            head
        }
    }
}

/// An entry of that kind.
pub open spec fn is_of(kind: EntryKind) -> spec_fn(FullCandidate) -> bool {
    |e: FullCandidate| e.kind == kind
}

/// The entries of one kind, in order.
pub open spec fn of_kind(entries: Seq<FullCandidate>, kind: EntryKind) -> Seq<FullCandidate> {
    entries.filter(is_of(kind))
}

/// What a cohort came to.
#[derive(Debug)]
pub struct FullOutcome {
    /// The incumbent's score.
    pub incumbent_score: Measure,
    /// The incumbent's error.
    pub incumbent_error: Measure,
    /// The single cuts that were scored.
    pub individuals: Vec<FullCandidate>,
    /// The combinations that were scored.
    pub bundles: Vec<FullCandidate>,
    /// The neighbourhoods that were scored.
    pub groups: Vec<FullCandidate>,
    /// Cuts that only the sample promised.
    pub sample_false_positives: Vec<String>,
    /// The entry that replaces the incumbent.
    pub winner: Option<FullCandidate>,
    /// How long scoring took.
    pub full_ms: u64,
    /// Combinations that could not be built.
    pub skipped_bundles: usize,
    /// Individuals that the budget left out.
    pub dropped_individuals: usize,
    /// Combinations that the budget left out.
    pub dropped_bundles: usize,
    /// Plans that the plan limit left out.
    pub capped_plans: usize,
}

impl FullOutcome {
    /// How many entries were scored besides the incumbent.
    pub fn entries(&self) -> (r: usize)
        requires
            self.individuals@.len() + self.bundles@.len() + self.groups@.len() <= usize::MAX,
        ensures
            r == self.individuals@.len() + self.bundles@.len() + self.groups@.len(),
    {
        self.individuals.len() + self.bundles.len() + self.groups.len()
    }

    /// How many entries the budget left out.
    pub fn dropped(&self) -> (r: usize)
        requires
            self.dropped_individuals + self.dropped_bundles <= usize::MAX,
        ensures
            r == self.dropped_individuals + self.dropped_bundles,
    {
        self.dropped_individuals + self.dropped_bundles
    }
}

/// How a cohort was scored, apart from its entries.
#[derive(Clone, Copy, Debug)]
pub struct CohortCounts {
    /// How long scoring took.
    pub full_ms: u64,
    /// Combinations that could not be built.
    pub skipped_bundles: usize,
    /// Individuals that the budget left out.
    pub dropped_individuals: usize,
    /// Combinations that the budget left out.
    pub dropped_bundles: usize,
    /// Plans that the plan limit left out.
    pub capped_plans: usize,
}

/// What scored entries come to.
pub open spec fn judges(
    entries: Seq<FullCandidate>,
    min_improvement: Measure,
    incumbent: ScoreResult,
    counts: CohortCounts,
    r: FullOutcome,
) -> bool {
    &&& r.incumbent_score == incumbent.score
    &&& r.incumbent_error == incumbent.error
    &&& r.individuals@ == of_kind(entries, EntryKind::Individual)
    &&& r.bundles@ == of_kind(entries, EntryKind::Bundle)
    &&& r.groups@ == of_kind(entries, EntryKind::Group)
    &&& texts(r.sample_false_positives@) == false_positives(entries, min_improvement)
    &&& match winner_of(entries, min_improvement) {
        Some(best) => r.winner matches Some(winner) && same_entry(winner, entries[best]),
        None => r.winner is None,
    }
    &&& r.full_ms == counts.full_ms
    &&& r.skipped_bundles == counts.skipped_bundles
    &&& r.dropped_individuals == counts.dropped_individuals
    &&& r.dropped_bundles == counts.dropped_bundles
    &&& r.capped_plans == counts.capped_plans
}

/// Judges the scored entries of a cohort.
pub fn judge_cohort(
    entries: Vec<FullCandidate>,
    min_improvement: Measure,
    incumbent: ScoreResult,
    counts: CohortCounts,
) -> (r: FullOutcome)
    requires
        forall|i: int|
            0 <= i < entries@.len() && (#[trigger] entries@[i]).kind == EntryKind::Individual
                ==> entries@[i].uuids@.len() > 0,
    ensures
        judges(entries@, min_improvement, incumbent, counts, r),
{
    let ghost all = entries@;
    let mut best: Option<usize> = None;
    let mut wrong: Vec<String> = Vec::new();
    let mut i: usize = 0;
    assert(texts(wrong@) =~= Seq::<Seq<char>>::empty());
    while i < entries.len()
        invariant
            i <= entries@.len(),
            all == entries@,
            forall|k: int|
                0 <= k < entries@.len() && (#[trigger] entries@[k]).kind == EntryKind::Individual
                    ==> entries@[k].uuids@.len() > 0,
            best matches Some(b) ==> b < i,
            winner_of(all.take(i as int), min_improvement) == match best {
                Some(b) => Some(b as int),
                None => None,
            },
            texts(wrong@) == false_positives(all.take(i as int), min_improvement),
        decreases entries.len() - i,
    {
        let ghost before = wrong@;
        proof {
            assert(all.take(i + 1).drop_last() =~= all.take(i as int));
            assert(all.take(i + 1).last() == all[i as int]);
        }
        if entries[i].kind == EntryKind::Individual && entries[i].delta.le(min_improvement) {
            assert(entries@[i as int].uuids@.len() > 0);
            wrong.push(entries[i].uuids[0].clone());
            assert(texts(wrong@) =~= texts(before).push(entries@[i as int].uuids@[0]@));
        }
        if min_improvement.lt(entries[i].delta) {
            match best {
                None => {
                    best = Some(i);
                },
                Some(b) => {
                    assert(all.take(i + 1)[b as int] == all[b as int]);
                    if entries[b].score.lt(entries[i].score) {
                        best = Some(i);
                    }
                },
            }
        }
        i += 1;
    }
    assert(all.take(i as int) =~= all);
    let winner = match best {
        Some(b) => Some(entries[b].copy()),
        None => None,
    };
    let (individuals, bundles, groups) = part_by_kind(entries);
    FullOutcome {
        incumbent_score: incumbent.score,
        incumbent_error: incumbent.error,
        individuals,
        bundles,
        groups,
        sample_false_positives: wrong,
        winner,
        full_ms: counts.full_ms,
        skipped_bundles: counts.skipped_bundles,
        dropped_individuals: counts.dropped_individuals,
        dropped_bundles: counts.dropped_bundles,
        capped_plans: counts.capped_plans,
    }
}

fn part_by_kind(entries: Vec<FullCandidate>) -> (r: (
    Vec<FullCandidate>,
    Vec<FullCandidate>,
    Vec<FullCandidate>,
))
    ensures
        r.0@ == of_kind(entries@, EntryKind::Individual),
        r.1@ == of_kind(entries@, EntryKind::Bundle),
        r.2@ == of_kind(entries@, EntryKind::Group),
{
    let ghost all = entries@;
    let mut rest = crate::list::reversed(entries);
    let mut individuals: Vec<FullCandidate> = Vec::new();
    let mut bundles: Vec<FullCandidate> = Vec::new();
    let mut groups: Vec<FullCandidate> = Vec::new();
    proof {
        reveal(Seq::filter);
        assert(individuals@ =~= of_kind(all.take(0), EntryKind::Individual));
        assert(bundles@ =~= of_kind(all.take(0), EntryKind::Bundle));
        assert(groups@ =~= of_kind(all.take(0), EntryKind::Group));
    }
    while rest.len() > 0
        invariant
            rest@.len() <= all.len(),
            forall|k: int| 0 <= k < rest@.len() ==> rest@[k] == all[all.len() - 1 - k],
            individuals@ == of_kind(all.take(all.len() - rest@.len()), EntryKind::Individual),
            bundles@ == of_kind(all.take(all.len() - rest@.len()), EntryKind::Bundle),
            groups@ == of_kind(all.take(all.len() - rest@.len()), EntryKind::Group),
        decreases rest.len(),
    {
        let ghost at = all.len() - rest@.len();
        match rest.pop() {
            Some(entry) => {
                proof {
                    assert(entry == all[at]);
                    assert(all.take(at + 1).drop_last() =~= all.take(at));
                    assert(all.take(at + 1).last() == entry);
                    reveal(Seq::filter);
                }
                match entry.kind {
                    EntryKind::Individual => individuals.push(entry),
                    EntryKind::Bundle => bundles.push(entry),
                    EntryKind::Group => groups.push(entry),
                }
            },
            None => {},
        }
    }
    assert(all.take(all.len() as int) =~= all);
    (individuals, bundles, groups)
}

/// Where the scores of a cohort stand in a scorer's answer.
#[derive(Debug)]
pub struct ScorePlaces {
    /// The incumbent's entry.
    pub baseline: usize,
    /// The entry of each stem.
    pub stems: Vec<usize>,
}

/// Finds the incumbent and every stem in a scorer's answer, or says which one
/// is missing first.
pub fn find_scores(stems: &Vec<String>, answer: &Vec<ScoreEntry>) -> (r: Result<
    ScorePlaces,
    String,
>)
    ensures
        match r {
            Ok(places) => {
                &&& scores_at(answer@, "baseline"@, places.baseline as int)
                &&& places.stems@.len() == stems@.len()
                &&& forall|i: int|
                    0 <= i < stems@.len() ==> scores_at(
                        answer@,
                        stems@[i]@,
                        (#[trigger] places.stems@[i]) as int,
                    )
            },
            Err(message) => lacks_score(texts(stems@), answer@, message@),
        },
{
    let baseline: usize = match find_score(answer, "baseline") {
        Some(at) => at,
        None => {
            return Err(text_of("full: scorer returned no `baseline` entry"));
        },
    };
    assert(scores(answer@, "baseline"@));
    let mut found: Vec<usize> = Vec::new();
    let mut i: usize = 0;
    while i < stems.len()
        invariant
            i <= stems@.len(),
            scores(answer@, "baseline"@),
            found@.len() == i,
            forall|k: int|
                0 <= k < i ==> scores_at(answer@, stems@[k]@, (#[trigger] found@[k]) as int),
            forall|k: int| 0 <= k < i ==> scores(answer@, (#[trigger] stems@[k])@),
        decreases stems.len() - i,
    {
        match find_score(answer, stems[i].as_str()) {
            Some(at) => {
                assert(answer@[at as int].key@ == stems@[i as int]@);
                found.push(at);
            },
            None => {
                let mut message = text_of("full: scorer returned no entry for `");
                message.append(stems[i].as_str());
                message.append("`");
                proof {
                    let all = texts(stems@);
                    assert(all[i as int] == stems@[i as int]@);
                    assert forall|k: int| 0 <= k < i implies scores(answer@, #[trigger] all[k]) by {
                        assert(scores(answer@, stems@[k]@));
                    }
                }
                return Err(message);
            },
        }
        i += 1;
    }
    Ok(ScorePlaces { baseline, stems: found })
}

/// An entry of a cohort as it is written for the scorer.
#[derive(Debug)]
pub struct PendingEntry {
    /// The stem of its file.
    pub stem: String,
    /// How it was put together.
    pub kind: EntryKind,
    /// What it cuts.
    pub uuids: Vec<String>,
}

/// What a written entry holds.
pub struct PendingView {
    /// The stem of its file.
    pub stem: Seq<char>,
    /// How it was put together.
    pub kind: EntryKind,
    /// What it cuts.
    pub uuids: Seq<Seq<char>>,
}

impl View for PendingEntry {
    type V = PendingView;

    open spec fn view(&self) -> PendingView {
        PendingView { stem: self.stem@, kind: self.kind, uuids: texts(self.uuids@) }
    }
}

/// What written entries hold.
pub open spec fn pending_views(list: Seq<PendingEntry>) -> Seq<PendingView> {
    Seq::new(list.len(), |i: int| list[i]@)
}

/// The single cuts of a cohort, numbered in their order.
pub open spec fn pending_individuals(
    sampled: Seq<SampledWinner>,
    places: Seq<usize>,
) -> Seq<PendingView> {
    Seq::new(
        places.len(),
        |i: int|
            PendingView {
                stem: stem_text(EntryKind::Individual, i as nat),
                kind: EntryKind::Individual,
                uuids: seq![sampled[places[i] as int].candidate.uuid@],
            },
    )
}

/// The plans that could be built, numbered without the others.
pub open spec fn pending_plans(
    kind: EntryKind,
    plans: Seq<Seq<Seq<char>>>,
    built: Seq<bool>,
) -> Seq<PendingView>
    decreases plans.len(),
{
    if plans.len() == 0 {
        Seq::empty()
    } else {
        let before = pending_plans(kind, plans.drop_last(), built);
        if built[plans.len() - 1] {
            before.push(
                PendingView { stem: stem_text(kind, before.len()), kind, uuids: plans.last() },
            )
        } else {
            before
        }
    }
}

/// All entries of a cohort that could be built: the single cuts first, then the
/// neighbourhoods, then the combinations.
pub open spec fn all_pending(
    sampled: Seq<SampledWinner>,
    cohort: Cohort,
    built_groups: Seq<bool>,
    built: Seq<bool>,
) -> Seq<PendingView> {
    pending_individuals(sampled, cohort.individuals@) + pending_plans(
        EntryKind::Group,
        text_lists(cohort.groups@),
        built_groups,
    ) + pending_plans(EntryKind::Bundle, text_lists(cohort.bundles@), built)
}

fn push_built(
    out: &mut Vec<PendingEntry>,
    kind: EntryKind,
    plans: &Vec<Vec<String>>,
    built: &Vec<bool>,
) -> (skipped: usize)
    requires
        built@.len() == plans@.len(),
        kind != EntryKind::Individual,
        forall|i: int|
            0 <= i < old(out)@.len() ==> (#[trigger] old(out)@[i]).kind == EntryKind::Individual
                ==> old(out)@[i].uuids@.len() > 0,
    ensures
        pending_views(final(out)@) == pending_views(old(out)@) + pending_plans(
            kind,
            text_lists(plans@),
            built@,
        ),
        final(out)@.len() + skipped == old(out)@.len() + plans@.len(),
        skipped <= plans@.len(),
        forall|i: int|
            0 <= i < final(out)@.len() ==> (#[trigger] final(out)@[i]).kind
                == EntryKind::Individual ==> final(out)@[i].uuids@.len() > 0,
{
    let ghost start = pending_views(out@);
    let ghost all = text_lists(plans@);
    let ghost had = out@.len();
    let mut made: usize = 0;
    let mut skipped: usize = 0;
    let mut k: usize = 0;
    assert(start + pending_plans(kind, all.take(0), built@) =~= start);
    while k < plans.len()
        invariant
            k <= plans@.len(),
            built@.len() == plans@.len(),
            kind != EntryKind::Individual,
            all == text_lists(plans@),
            made + skipped == k,
            made == pending_plans(kind, all.take(k as int), built@).len(),
            out@.len() == had + made,
            pending_views(out@) == start + pending_plans(kind, all.take(k as int), built@),
            forall|i: int|
                0 <= i < out@.len() ==> (#[trigger] out@[i]).kind == EntryKind::Individual
                    ==> out@[i].uuids@.len() > 0,
        decreases plans.len() - k,
    {
        let ghost before = out@;
        let ghost so_far = pending_plans(kind, all.take(k as int), built@);
        proof {
            assert(all.take(k + 1).drop_last() =~= all.take(k as int));
            assert(all.take(k + 1).last() == texts(plans@[k as int]@));
        }
        if built[k] {
            let entry = PendingEntry {
                stem: entry_stem(kind, made),
                kind,
                uuids: copy_texts(&plans[k]),
            };
            out.push(entry);
            proof {
                assert(pending_views(out@) =~= pending_views(before).push(entry@));
                assert((start + so_far).push(entry@) =~= start + so_far.push(entry@));
            }
            made += 1;
        } else {
            skipped += 1;
        }
        k += 1;
    }
    assert(all.take(k as int) =~= all);
    skipped
}

/// The entries that are written for the scorer, and how many combinations and
/// neighbourhoods could not be built.
pub fn pending_entries(
    sampled: &Vec<SampledWinner>,
    cohort: &Cohort,
    built_groups: &Vec<bool>,
    built: &Vec<bool>,
) -> (r: (Vec<PendingEntry>, usize))
    requires
        built_groups@.len() == cohort.groups@.len(),
        built@.len() == cohort.bundles@.len(),
        cohort.groups@.len() + cohort.bundles@.len() <= usize::MAX,
        forall|i: int|
            0 <= i < cohort.individuals@.len() ==> (#[trigger] cohort.individuals@[i])
                < sampled@.len(),
    ensures
        pending_views(r.0@) == all_pending(sampled@, *cohort, built_groups@, built@),
        r.0@.len() + r.1 == cohort.individuals@.len() + cohort.groups@.len()
            + cohort.bundles@.len(),
        forall|i: int| 0 <= i < r.0@.len() ==> (#[trigger] r.0@[i]).kind == EntryKind::Individual
            ==> r.0@[i].uuids@.len() > 0,
{
    let mut out: Vec<PendingEntry> = Vec::new();
    let ghost alone = pending_individuals(sampled@, cohort.individuals@);
    let mut i: usize = 0;
    assert(pending_views(out@) =~= alone.take(0));
    while i < cohort.individuals.len()
        invariant
            i <= cohort.individuals@.len(),
            forall|k: int|
                0 <= k < cohort.individuals@.len() ==> (#[trigger] cohort.individuals@[k])
                    < sampled@.len(),
            alone == pending_individuals(sampled@, cohort.individuals@),
            out@.len() == i,
            pending_views(out@) == alone.take(i as int),
            forall|k: int| 0 <= k < out@.len() ==> (#[trigger] out@[k]).uuids@.len() > 0,
        decreases cohort.individuals.len() - i,
    {
        let ghost before = out@;
        let at: usize = cohort.individuals[i];
        let mut uuids: Vec<String> = Vec::new();
        uuids.push(sampled[at].candidate.uuid.clone());
        let stem = entry_stem(EntryKind::Individual, i);
        let entry = PendingEntry { stem, kind: EntryKind::Individual, uuids };
        proof {
            assert(texts(uuids@) =~= seq![sampled@[at as int].candidate.uuid@]);
            assert(entry@ == alone[i as int]);
        }
        out.push(entry);
        proof {
            assert(pending_views(out@) =~= pending_views(before).push(entry@));
            assert(alone.take(i + 1) =~= alone.take(i as int).push(alone[i as int]));
        }
        i += 1;
    }
    assert(alone.take(i as int) =~= alone);
    let lost: usize = push_built(&mut out, EntryKind::Group, &cohort.groups, built_groups);
    let skipped: usize = push_built(&mut out, EntryKind::Bundle, &cohort.bundles, built);
    (out, lost + skipped)
}

/// The scored entry is what the scorer's answer makes of the written one;
/// `differences` are the answer's scores less the incumbent's.
pub open spec fn scores_entry(
    entry: FullCandidate,
    pending: PendingEntry,
    answer: Seq<ScoreEntry>,
    differences: Seq<Measure>,
) -> bool {
    &&& entry.stem@ == pending.stem@
    &&& entry.kind == pending.kind
    &&& texts(entry.uuids@) == texts(pending.uuids@)
    &&& exists|k: int|
        {
            &&& #[trigger] scores_at(answer, pending.stem@, k)
            &&& entry.score == answer[k].result.score
            &&& entry.error == answer[k].result.error
            &&& entry.complexity_penalty == answer[k].result.complexity_penalty
            &&& entry.delta == differences[k]
        }
}

/// Every written entry is scored, in order.
pub open spec fn scores_entries(
    entries: Seq<FullCandidate>,
    pending: Seq<PendingEntry>,
    answer: Seq<ScoreEntry>,
    differences: Seq<Measure>,
) -> bool {
    &&& entries.len() == pending.len()
    &&& forall|i: int|
        0 <= i < pending.len() ==> scores_entry(
            #[trigger] entries[i],
            pending[i],
            answer,
            differences,
        )
}

/// The cohort comes to `r`, given the scorer's answer.
pub open spec fn evaluates(
    pending: Seq<PendingEntry>,
    answer: Seq<ScoreEntry>,
    differences: Seq<Measure>,
    min_improvement: Measure,
    counts: CohortCounts,
    r: FullOutcome,
) -> bool {
    exists|entries: Seq<FullCandidate>, baseline: int|
        {
            &&& #[trigger] scores_at(answer, "baseline"@, baseline)
            &&& #[trigger] scores_entries(entries, pending, answer, differences)
            &&& judges(entries, min_improvement, answer[baseline].result, counts, r)
        }
}

/// What stems are left without a score, and how that is told.
pub open spec fn lacks_score(stems: Seq<Seq<char>>, answer: Seq<ScoreEntry>, message: Seq<char>) -> bool {
    ||| !scores(answer, "baseline"@) && message == "full: scorer returned no `baseline` entry"@
    ||| scores(answer, "baseline"@) && exists|i: int|
        {
            &&& 0 <= i < stems.len()
            &&& !scores(answer, #[trigger] stems[i])
            &&& forall|k: int| 0 <= k < i ==> scores(answer, #[trigger] stems[k])
            &&& message == "full: scorer returned no entry for `"@ + stems[i] + "`"@
        }
}

/// The stems of written entries.
pub open spec fn pending_stems(pending: Seq<PendingEntry>) -> Seq<Seq<char>> {
    Seq::new(pending.len(), |i: int| pending[i].stem@)
}

/// Scores and judges a cohort, given the scorer's answer and how far each of
/// its scores is ahead of the incumbent's; fails where a score is missing.
pub fn evaluate_full(
    pending: &Vec<PendingEntry>,
    answer: &Vec<ScoreEntry>,
    differences: &Vec<Measure>,
    min_improvement: Measure,
    counts: CohortCounts,
) -> (r: Result<FullOutcome, String>)
    requires
        differences@.len() == answer@.len(),
        forall|i: int|
            0 <= i < pending@.len() ==> (#[trigger] pending@[i]).kind == EntryKind::Individual
                ==> pending@[i].uuids@.len() > 0,
    ensures
        match r {
            Ok(outcome) => {
                &&& scores(answer@, "baseline"@)
                &&& forall|i: int|
                    0 <= i < pending@.len() ==> scores(answer@, (#[trigger] pending@[i]).stem@)
                &&& evaluates(
                    pending@,
                    answer@,
                    differences@,
                    min_improvement,
                    counts,
                    outcome,
                )
            },
            Err(message) => lacks_score(pending_stems(pending@), answer@, message@),
        },
{
    let mut stems: Vec<String> = Vec::new();
    let mut i: usize = 0;
    while i < pending.len()
        invariant
            i <= pending@.len(),
            stems@.len() == i,
            forall|k: int| 0 <= k < i ==> (#[trigger] stems@[k])@ == pending@[k].stem@,
        decreases pending.len() - i,
    {
        stems.push(pending[i].stem.clone());
        i += 1;
    }
    assert(texts(stems@) =~= pending_stems(pending@));
    let places = match find_scores(&stems, answer) {
        Ok(places) => places,
        Err(message) => {
            return Err(message);
        },
    };
    let mut entries: Vec<FullCandidate> = Vec::new();
    let mut k: usize = 0;
    while k < pending.len()
        invariant
            k <= pending@.len(),
            differences@.len() == answer@.len(),
            stems@.len() == pending@.len(),
            places.stems@.len() == stems@.len(),
            forall|j: int| 0 <= j < stems@.len() ==> (#[trigger] stems@[j])@ == pending@[j].stem@,
            forall|j: int|
                0 <= j < stems@.len() ==> scores_at(
                    answer@,
                    stems@[j]@,
                    (#[trigger] places.stems@[j]) as int,
                ),
            forall|j: int|
                0 <= j < pending@.len() ==> (#[trigger] pending@[j]).kind == EntryKind::Individual
                    ==> pending@[j].uuids@.len() > 0,
            entries@.len() == k,
            forall|j: int|
                0 <= j < k ==> scores_entry(
                    #[trigger] entries@[j],
                    pending@[j],
                    answer@,
                    differences@,
                ),
            forall|j: int|
                0 <= j < k && (#[trigger] entries@[j]).kind == EntryKind::Individual
                    ==> entries@[j].uuids@.len() > 0,
            forall|j: int| 0 <= j < k ==> scores(answer@, (#[trigger] pending@[j]).stem@),
        decreases pending.len() - k,
    {
        let at: usize = places.stems[k];
        let uuids = copy_texts(&pending[k].uuids);
        let entry = FullCandidate::new(
            pending[k].stem.clone(),
            pending[k].kind,
            uuids,
            answer[at].result,
            differences[at],
        );
        proof {
            assert(stems@[k as int]@ == pending@[k as int].stem@);
            assert(scores_at(answer@, pending@[k as int].stem@, at as int));
            assert(scores_entry(entry, pending@[k as int], answer@, differences@));
        }
        entries.push(entry);
        k += 1;
    }
    assert(scores_entries(entries@, pending@, answer@, differences@));
    let incumbent = answer[places.baseline].result;
    let ghost all = entries@;
    let outcome = judge_cohort(entries, min_improvement, incumbent, counts);
    assert(judges(all, min_improvement, answer@[places.baseline as int].result, counts, outcome));
    Ok(outcome)
}

/// A list of cuts that are applied one after another to a creature.
#[derive(Debug)]
pub struct BundleWalk {
    /// The cuts, in order.
    pub uuids: Vec<String>,
    /// The cut that comes next.
    pub at: usize,
    /// The cuts that were applied.
    pub applied: Vec<String>,
}

/// The text stands in the list at or behind `from`.
pub open spec fn first_present(uuids: Seq<String>, present: Seq<String>, from: int) -> int
    decreases uuids.len() - from,
{
    if from < 0 || from >= uuids.len() || texts(present).contains(uuids[from]@) {
        from
    } else {
        first_present(uuids, present, from + 1)
    }
}

impl BundleWalk {
    /// The walk stands at a cut of its list or at the end.
    pub open spec fn well_formed(self) -> bool {
        self.at <= self.uuids@.len()
    }

    /// A walk over all cuts.
    pub fn new(uuids: Vec<String>) -> (r: BundleWalk)
        ensures
            r.well_formed(),
            r.uuids == uuids,
            r.at == 0,
            r.applied@.len() == 0,
    {
        BundleWalk { uuids, at: 0, applied: Vec::new() }
    }

    /// Passes over cuts whose neuron is gone; tells the next one to propose.
    pub fn next_available(&mut self, present: &Vec<String>) -> (r: Option<usize>)
        requires
            old(self).well_formed(),
        ensures
            final(self).well_formed(),
            final(self).uuids == old(self).uuids,
            final(self).applied == old(self).applied,
            final(self).at == first_present(old(self).uuids@, present@, old(self).at as int),
            r == if final(self).at < old(self).uuids@.len() {
                Some(final(self).at)
            } else {
                None
            },
    {
        let ghost start = *self;
        while self.at < self.uuids.len() && !holds(present, &self.uuids[self.at])
            invariant
                self.uuids == start.uuids,
                self.applied == start.applied,
                start.at <= self.at <= self.uuids@.len(),
                first_present(start.uuids@, present@, start.at as int) == first_present(
                    start.uuids@,
                    present@,
                    self.at as int,
                ),
            decreases self.uuids@.len() - self.at,
        {
            self.at += 1;
        }
        if self.at < self.uuids.len() {
            Some(self.at)
        } else {
            None
        }
    }

    /// The next cut of a bundle that must be applied whole: an error where its
    /// neuron is gone.
    pub fn next_required(&self, present: &Vec<String>) -> (r: Result<Option<usize>, String>)
        requires
            self.well_formed(),
        ensures
            r matches Ok(None) <==> self.at == self.uuids@.len(),
            r matches Ok(Some(i)) ==> i == self.at && texts(present@).contains(
                self.uuids@[i as int]@,
            ),
            r is Err <==> self.at < self.uuids@.len() && !texts(present@).contains(
                self.uuids@[self.at as int]@,
            ),
            r matches Err(message) ==> message@ == "bundle: `"@ + self.uuids@[self.at as int]@
                + "` already gone after a prior step"@,
    {
        if self.at == self.uuids.len() {
            return Ok(None);
        }
        if holds(present, &self.uuids[self.at]) {
            return Ok(Some(self.at));
        }
        let mut message = text_of("bundle: `");
        message.append(self.uuids[self.at].as_str());
        message.append("` already gone after a prior step");
        Err(message)
    }

    /// Records whether the cut at hand was applied, and moves on.
    pub fn settle(&mut self, accepted: bool)
        requires
            old(self).well_formed(),
            old(self).at < old(self).uuids@.len(),
        ensures
            final(self).well_formed(),
            final(self).uuids == old(self).uuids,
            final(self).at == old(self).at + 1,
            texts(final(self).applied@) == if accepted {
                texts(old(self).applied@).push(old(self).uuids@[old(self).at as int]@)
            } else {
                texts(old(self).applied@)
            },
    {
        let ghost before = self.applied@;
        let n: usize = self.uuids.len();
        if accepted {
            let uuid = self.uuids[self.at].clone();
            self.applied.push(uuid);
            assert(texts(self.applied@) =~= texts(before).push(self.uuids@[self.at as int]@));
        }
        self.at += 1;
    }
}

/// Of a cohort whose scores compare, somebody wins exactly if some entry is ahead
/// of the incumbent by more than the minimum. The winner is an entry as it was
/// scored: it is ahead by more than the minimum, none that is scores higher, and
/// none before it as high. Nothing else about an entry matters.
pub proof fn law_the_best_improvement_wins(
    entries: Seq<FullCandidate>,
    min_improvement: Measure,
    incumbent: ScoreResult,
    counts: CohortCounts,
    r: FullOutcome,
) -> (best: int)
    requires
        judges(entries, min_improvement, incumbent, counts, r),
        !min_improvement.nan(),
        forall|i: int|
            0 <= i < entries.len() ==> !(#[trigger] entries[i]).score.nan()
                && !entries[i].delta.nan(),
    ensures
        r.winner is Some <==> exists|i: int|
            0 <= i < entries.len() && min_improvement.position() < (
            #[trigger] entries[i]).delta.position(),
        r.winner matches Some(winner) ==> {
            let entry = entries[best];
            &&& 0 <= best < entries.len()
            &&& winner.stem@ == entry.stem@
            &&& winner.kind == entry.kind
            &&& texts(winner.uuids@) == texts(entry.uuids@)
            &&& winner.score == entry.score
            &&& winner.error == entry.error
            &&& winner.complexity_penalty == entry.complexity_penalty
            &&& winner.delta == entry.delta
            &&& min_improvement.position() < entry.delta.position()
            &&& forall|j: int|
                0 <= j < entries.len() && min_improvement.position() < (
                #[trigger] entries[j]).delta.position() ==> entries[j].score.position()
                    <= entry.score.position() && (j < best ==> entries[j].score.position()
                    < entry.score.position())
        },
{
    law_winner_is_the_first_of_the_best(entries, min_improvement);
    match winner_of(entries, min_improvement) {
        Some(best) => {
            assert(improves(entries[best], min_improvement));
            assert(min_improvement.position() < entries[best].delta.position());
            assert forall|j: int|
                0 <= j < entries.len() && min_improvement.position() < (
                #[trigger] entries[j]).delta.position() implies entries[j].score.position()
                <= entries[best].score.position() && (j < best ==> entries[j].score.position()
                < entries[best].score.position()) by {
                assert(improves(entries[j], min_improvement));
            }
            best
        },
        None => {
            assert forall|i: int| 0 <= i < entries.len() implies min_improvement.position() >= (
            #[trigger] entries[i]).delta.position() by {
                assert(!improves(entries[i], min_improvement));
            }
            0
        },
    }
}

/// A cohort's outcome lists every entry once, under its kind and in order, and
/// carries the incumbent's score and error and the counts of the cohort.
pub proof fn law_outcomes_list_every_entry(
    entries: Seq<FullCandidate>,
    min_improvement: Measure,
    incumbent: ScoreResult,
    counts: CohortCounts,
    r: FullOutcome,
) -> (places: (Seq<int>, Seq<int>, Seq<int>))
    requires
        judges(entries, min_improvement, incumbent, counts, r),
    ensures
        stands_at(entries, r.individuals@, places.0),
        stands_at(entries, r.bundles@, places.1),
        stands_at(entries, r.groups@, places.2),
        forall|i: int|
            0 <= i < entries.len() ==> {
                &&& places.0.contains(i) <==> (#[trigger] entries[i]).kind == EntryKind::Individual
                &&& places.1.contains(i) <==> entries[i].kind == EntryKind::Bundle
                &&& places.2.contains(i) <==> entries[i].kind == EntryKind::Group
            },
        r.incumbent_score == incumbent.score,
        r.incumbent_error == incumbent.error,
        r.full_ms == counts.full_ms,
        r.skipped_bundles == counts.skipped_bundles,
        r.dropped_individuals == counts.dropped_individuals,
        r.dropped_bundles == counts.dropped_bundles,
        r.capped_plans == counts.capped_plans,
{
    let one = law_filter_picks_in_order(entries, is_of(EntryKind::Individual));
    let several = law_filter_picks_in_order(entries, is_of(EntryKind::Bundle));
    let whole = law_filter_picks_in_order(entries, is_of(EntryKind::Group));
    (one, several, whole)
}

/// The cuts that are told as not confirmed are the single cuts that are ahead by
/// no more than the minimum, in order.
pub proof fn law_false_positives_are_told(
    entries: Seq<FullCandidate>,
    min_improvement: Measure,
    marks: Seq<bool>,
)
    requires
        marks.len() == entries.len(),
        forall|i: int| 0 <= i < marks.len() ==> (#[trigger] marks[i]
            <==> (entries[i].kind == EntryKind::Individual && !entries[i].delta.nan()
                && !min_improvement.nan()
                    && entries[i].delta.position() <= min_improvement.position())),
    ensures
        false_positives(entries, min_improvement).len() == true_places(marks).len(),
        forall|k: int|
            0 <= k < true_places(marks).len()
                ==> (#[trigger] false_positives(entries, min_improvement)[k])
                    == entries[true_places(marks)[k]].uuids@[0]@,
    decreases entries.len(),
{
    if entries.len() > 0 {
        let init = entries.drop_last();
        let some = marks.drop_last();
        let n = entries.len() - 1;
        assert forall|i: int| 0 <= i < some.len() implies (#[trigger] some[i]
            <==> (init[i].kind == EntryKind::Individual && !init[i].delta.nan()
                && !min_improvement.nan()
                    && init[i].delta.position() <= min_improvement.position())) by {
            assert(some[i] == marks[i]);
            assert(init[i] == entries[i]);
        }
        law_false_positives_are_told(init, min_improvement, some);
        assert(marks[n] <==> (entries[n].kind == EntryKind::Individual
            && !entries[n].delta.nan() && !min_improvement.nan()
                && entries[n].delta.position() <= min_improvement.position()));
        law_true_places_ascend(some);
        let before = false_positives(init, min_improvement);
        let after = false_positives(entries, min_improvement);
        let was = true_places(some);
        let now = true_places(marks);
        assert forall|k: int| 0 <= k < now.len() implies (#[trigger] after[k])
            == entries[now[k]].uuids@[0]@ by {
            if k < was.len() {
                assert(now[k] == was[k]);
                assert(0 <= was[k] < some.len());
                assert(init[was[k]] == entries[was[k]]);
                assert(after[k] == before[k]);
            }
        }
    }
}

/// Every entry of an outcome, the winner among them, was written for the scorer
/// and carries what the scorer answered under its stem first: its score, error
/// and penalty, and the difference that belongs to that answer. The incumbent's
/// score and error are those under `baseline`.
pub proof fn law_entries_carry_their_own_scores(
    pending: Seq<PendingEntry>,
    answer: Seq<ScoreEntry>,
    differences: Seq<Measure>,
    min_improvement: Measure,
    counts: CohortCounts,
    r: FullOutcome,
    entry: FullCandidate,
)
    requires
        evaluates(pending, answer, differences, min_improvement, counts, r),
        r.individuals@.contains(entry) || r.bundles@.contains(entry) || r.groups@.contains(entry),
    ensures
        exists|p: int, a: int|
            {
                &&& 0 <= p < pending.len()
                &&& 0 <= a < answer.len()
                &&& (#[trigger] pending[p]).stem@ == entry.stem@
                &&& pending[p].kind == entry.kind
                &&& texts(pending[p].uuids@) == texts(entry.uuids@)
                &&& (#[trigger] answer[a]).key@ == entry.stem@
                &&& forall|b: int| 0 <= b < a ==> (#[trigger] answer[b]).key@ != entry.stem@
                &&& entry.score == answer[a].result.score
                &&& entry.error == answer[a].result.error
                &&& entry.complexity_penalty == answer[a].result.complexity_penalty
                &&& entry.delta == differences[a]
            },
        exists|b: int|
            {
                &&& 0 <= b < answer.len()
                &&& (#[trigger] answer[b]).key@ == "baseline"@
                &&& forall|c: int| 0 <= c < b ==> (#[trigger] answer[c]).key@ != "baseline"@
                &&& r.incumbent_score == answer[b].result.score
                &&& r.incumbent_error == answer[b].result.error
            },
{
    let (entries, baseline) = choose|entries: Seq<FullCandidate>, baseline: int|
        {
            &&& #[trigger] scores_at(answer, "baseline"@, baseline)
            &&& #[trigger] scores_entries(entries, pending, answer, differences)
            &&& judges(entries, min_improvement, answer[baseline].result, counts, r)
        };
    let places = law_outcomes_list_every_entry(
        entries,
        min_improvement,
        answer[baseline].result,
        counts,
        r,
    );
    let p = if r.individuals@.contains(entry) {
        let k = choose|k: int| 0 <= k < r.individuals@.len() && r.individuals@[k] == entry;
        places.0[k]
    } else if r.bundles@.contains(entry) {
        let k = choose|k: int| 0 <= k < r.bundles@.len() && r.bundles@[k] == entry;
        places.1[k]
    } else {
        let k = choose|k: int| 0 <= k < r.groups@.len() && r.groups@[k] == entry;
        places.2[k]
    };
    assert(entries[p] == entry);
    assert(scores_entry(entries[p], pending[p], answer, differences));
    let a = choose|a: int|
        {
            &&& #[trigger] scores_at(answer, pending[p].stem@, a)
            &&& entry.score == answer[a].result.score
            &&& entry.error == answer[a].result.error
            &&& entry.complexity_penalty == answer[a].result.complexity_penalty
            &&& entry.delta == differences[a]
        };
    assert(pending[p].stem@ == entry.stem@ && answer[a].key@ == entry.stem@);
    assert(answer[baseline].key@ == "baseline"@);
}

/// What is written for the scorer: first the planned single cuts in order, each
/// cutting its own neuron alone, then the neighbourhoods and then the
/// combinations that could be built, in order, each cutting what was planned.
pub proof fn law_what_could_be_built_is_written(
    sampled: Seq<SampledWinner>,
    cohort: Cohort,
    built_groups: Seq<bool>,
    built: Seq<bool>,
    pending: Seq<PendingEntry>,
)
    requires
        built_groups.len() == cohort.groups@.len(),
        built.len() == cohort.bundles@.len(),
        pending_views(pending) == all_pending(sampled, cohort, built_groups, built),
    ensures
        ({
            let n = cohort.individuals@.len() as int;
            let g = true_places(built_groups);
            let b = true_places(built);
            &&& pending.len() == n + g.len() + b.len()
            &&& forall|i: int|
                0 <= i < n ==> (#[trigger] pending[i]).kind == EntryKind::Individual && texts(
                    pending[i].uuids@,
                ) == seq![sampled[cohort.individuals@[i] as int].candidate.uuid@]
                    && pending[i].stem@ == stem_text(EntryKind::Individual, i as nat)
            &&& forall|k: int|
                #![trigger g[k]]
                #![trigger pending[n + k]]
                0 <= k < g.len() ==> pending[n + k].kind == EntryKind::Group && texts(
                    pending[n + k].uuids@,
                ) == texts(cohort.groups@[g[k]]@) && pending[n + k].stem@ == stem_text(
                    EntryKind::Group,
                    k as nat,
                )
            &&& forall|k: int|
                #![trigger b[k]]
                #![trigger pending[n + g.len() + k]]
                0 <= k < b.len() ==> pending[n + g.len() + k].kind == EntryKind::Bundle && texts(
                    pending[n + g.len() + k].uuids@,
                ) == texts(cohort.bundles@[b[k]]@) && pending[n + g.len() + k].stem@ == stem_text(
                    EntryKind::Bundle,
                    k as nat,
                )
        }),
{
    let n = cohort.individuals@.len() as int;
    let g = true_places(built_groups);
    let b = true_places(built);
    let groups = text_lists(cohort.groups@);
    let bundles = text_lists(cohort.bundles@);
    lemma_built_plans(groups, EntryKind::Group, built_groups, built_groups);
    lemma_built_plans(bundles, EntryKind::Bundle, built, built);
    law_true_places_ascend(built_groups);
    law_true_places_ascend(built);
    let views = pending_views(pending);
    let first = pending_individuals(sampled, cohort.individuals@);
    let second = pending_plans(EntryKind::Group, groups, built_groups);
    let third = pending_plans(EntryKind::Bundle, bundles, built);
    assert(views.len() == pending.len());
    assert(views == first + second + third);
    assert(views.len() == n + g.len() + b.len());
    assert forall|i: int| 0 <= i < n implies (#[trigger] pending[i]).kind == EntryKind::Individual
        && texts(pending[i].uuids@) == seq![
        sampled[cohort.individuals@[i] as int].candidate.uuid@,
    ] && pending[i].stem@ == stem_text(EntryKind::Individual, i as nat) by {
        assert(views[i] == first[i]);
        assert(views[i] == pending[i]@);
    }
    assert forall|k: int|
        #![trigger g[k]]
        #![trigger pending[n + k]]
        0 <= k < g.len() implies pending[n + k].kind == EntryKind::Group && texts(
        pending[n + k].uuids@,
    ) == texts(cohort.groups@[g[k]]@) && pending[n + k].stem@ == stem_text(
        EntryKind::Group,
        k as nat,
    ) by {
        assert(views[n + k] == second[k]);
        assert(views[n + k] == pending[n + k]@);
        assert(second[k].uuids == groups[g[k]]);
    }
    assert forall|k: int|
        #![trigger b[k]]
        #![trigger pending[n + g.len() + k]]
        0 <= k < b.len() implies pending[n + g.len() + k].kind == EntryKind::Bundle && texts(
        pending[n + g.len() + k].uuids@,
    ) == texts(cohort.bundles@[b[k]]@) && pending[n + g.len() + k].stem@ == stem_text(
        EntryKind::Bundle,
        k as nat,
    ) by {
        assert(views[n + g.len() + k] == third[k]);
        assert(views[n + g.len() + k] == pending[n + g.len() + k]@);
        assert(third[k].uuids == bundles[b[k]]);
    }
}

proof fn lemma_built_plans(
    plans: Seq<Seq<Seq<char>>>,
    kind: EntryKind,
    built: Seq<bool>,
    marks: Seq<bool>,
)
    requires
        marks.len() == plans.len(),
        forall|i: int| 0 <= i < marks.len() ==> (#[trigger] marks[i] <==> built[i]),
    ensures
        pending_plans(kind, plans, built).len() == true_places(marks).len(),
        forall|k: int|
            0 <= k < true_places(marks).len() ==> {
                let entry = #[trigger] pending_plans(kind, plans, built)[k];
                &&& entry.kind == kind
                &&& entry.uuids == plans[true_places(marks)[k]]
                &&& entry.stem == stem_text(kind, k as nat)
            },
    decreases plans.len(),
{
    if plans.len() > 0 {
        let init = plans.drop_last();
        let some = marks.drop_last();
        let n = plans.len() - 1;
        assert forall|i: int| 0 <= i < some.len() implies (#[trigger] some[i] <==> built[i]) by {
            assert(some[i] == marks[i]);
            assert(init[i] == plans[i]);
        }
        lemma_built_plans(init, kind, built, some);
        assert(marks[n] <==> built[n]);
        law_true_places_ascend(some);
        let before = pending_plans(kind, init, built);
        assert(plans.len() == init.len() + 1);
        let after = pending_plans(kind, plans, built);
        let was = true_places(some);
        let now = true_places(marks);
        assert forall|k: int| 0 <= k < now.len() implies (#[trigger] after[k]).kind == kind
            && after[k].uuids == plans[now[k]] && after[k].stem == stem_text(kind, k as nat) by {
            if k < was.len() {
                assert(now[k] == was[k]);
                assert(0 <= was[k] < some.len());
                assert(init[was[k]] == plans[was[k]]);
                assert(after[k] == before[k]);
            }
        }
    }
}

/// No two entries of a cohort share a stem: neither two of a kind at different
/// places, nor two of different kinds, nor the incumbent.
pub proof fn law_stems_tell_entries_apart(a: EntryKind, m: nat, b: EntryKind, n: nat)
    ensures
        stem_text(a, m) == stem_text(b, n) ==> a == b && m == n,
        stem_text(a, m) != "baseline"@,
        stem_text(a, m)[0] == match a {
            EntryKind::Individual => 'i',
            EntryKind::Bundle => 'b',
            EntryKind::Group => 'g',
        },
        read_decimal(stem_text(a, m).skip(1)) == m,
{
    reveal_strlit("i");
    reveal_strlit("b");
    reveal_strlit("g");
    reveal_strlit("baseline");
    law_decimals_stand_for_their_number(m);
    law_decimals_stand_for_their_number(n);
    let x = stem_text(a, m);
    let y = stem_text(b, n);
    assert(x.skip(1) =~= decimal3(m));
    assert(y.skip(1) =~= decimal3(n));
    assert(a == EntryKind::Individual ==> x[0] == 'i');
    assert(a == EntryKind::Bundle ==> x[0] == 'b');
    assert(a == EntryKind::Group ==> x[0] == 'g');
    assert(b == EntryKind::Individual ==> y[0] == 'i');
    assert(b == EntryKind::Bundle ==> y[0] == 'b');
    assert(b == EntryKind::Group ==> y[0] == 'g');
    if x == "baseline"@ {
        assert(x[1] == 'a');
        assert(decimal3(m)[0] == 'a');
        lemma_padded_digits(m);
    }
}

proof fn lemma_padded_digits(n: nat)
    ensures
        decimal3(n).len() > 0,
        '0' <= decimal3(n)[0] && decimal3(n)[0] <= '9',
{
    law_decimals_stand_for_their_number(n);
    if n >= 100 {
        assert(decimal3(n)[0] == decimal(n)[0]);
    }
}

/// A bundle goes on with the first of its cuts whose neuron is still there.
pub proof fn law_gone_cuts_are_passed_over(uuids: Seq<String>, present: Seq<String>, from: int)
    requires
        0 <= from <= uuids.len(),
    ensures
        ({
            let at = first_present(uuids, present, from);
            &&& from <= at <= uuids.len()
            &&& at < uuids.len() ==> texts(present).contains(uuids[at]@)
            &&& forall|k: int| from <= k < at ==> !texts(present).contains(
                (#[trigger] uuids[k])@,
            )
        }),
    decreases uuids.len() - from,
{
    if from < uuids.len() && !texts(present).contains(uuids[from]@) {
        law_gone_cuts_are_passed_over(uuids, present, from + 1);
    }
}

/// Journals know each kind of entry by its own word.
pub proof fn law_kinds_have_their_words()
    ensures
        kind_word(EntryKind::Individual) == "individual"@,
        kind_word(EntryKind::Bundle) == "bundle"@,
        kind_word(EntryKind::Group) == "group"@,
{
}

/// Whatever the scores are, somebody wins exactly if some entry's difference and the
/// minimum are numbers and the difference is the larger; and whoever wins is such an
/// entry.
pub proof fn law_somebody_wins_exactly_if_somebody_improves(
    entries: Seq<FullCandidate>,
    min_improvement: Measure,
    incumbent: ScoreResult,
    counts: CohortCounts,
    r: FullOutcome,
)
    requires
        judges(entries, min_improvement, incumbent, counts, r),
    ensures
        r.winner is Some <==> exists|i: int|
            0 <= i < entries.len() && !(#[trigger] entries[i]).delta.nan()
                && !min_improvement.nan() && min_improvement.position()
                < entries[i].delta.position(),
        r.winner matches Some(winner) ==> !winner.delta.nan() && min_improvement.position()
            < winner.delta.position(),
{
    lemma_some_entry_wins(entries, min_improvement);
    if let Some(best) = winner_of(entries, min_improvement) {
        assert(!entries[best].delta.nan());
    }
}

proof fn lemma_some_entry_wins(entries: Seq<FullCandidate>, min_improvement: Measure)
    ensures
        winner_of(entries, min_improvement) is Some <==> exists|i: int|
            0 <= i < entries.len() && !(#[trigger] entries[i]).delta.nan()
                && !min_improvement.nan() && min_improvement.position()
                < entries[i].delta.position(),
        winner_of(entries, min_improvement) matches Some(best) ==> 0 <= best < entries.len()
            && !entries[best].delta.nan() && !min_improvement.nan() && min_improvement.position()
            < entries[best].delta.position(),
    decreases entries.len(),
{
    if entries.len() > 0 {
        let init = entries.drop_last();
        let n = entries.len() - 1;
        lemma_some_entry_wins(init, min_improvement);
        assert(entries[n] == entries.last());
        if let Some(best) = winner_of(init, min_improvement) {
            assert(init[best] == entries[best]);
        }
        if exists|i: int|
            0 <= i < entries.len() && !(#[trigger] entries[i]).delta.nan()
                && !min_improvement.nan() && min_improvement.position()
                < entries[i].delta.position() {
            let i = choose|i: int|
                0 <= i < entries.len() && !(#[trigger] entries[i]).delta.nan()
                    && !min_improvement.nan() && min_improvement.position()
                    < entries[i].delta.position();
            if i < n {
                assert(init[i] == entries[i]);
            }
        }
    }
}

} // verus!
