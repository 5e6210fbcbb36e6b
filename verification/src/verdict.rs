//! The verdicts that a scored cohort leaves on single neurons.
use vstd::prelude::*;

use crate::judge::{EntryKind, FullCandidate, FullOutcome};
use crate::list::{law_true_places_ascend, true_places};
use crate::measure::Measure;
use crate::run::winner_cuts;
use crate::sweep::{CandidateKind, SampledWinner};
use crate::text::{copy_texts, holds, texts};

verus! {

/// How a cut ended.
#[derive(Clone, Copy, Debug, PartialEq, Eq, Structural)]
pub enum Outcome {
    /// It was applied.
    Accepted,
    /// It was not.
    Rejected,
}

/// What is filed about one neuron after a cohort was scored.
#[derive(Debug)]
pub struct Verdict {
    /// The neuron.
    pub uuid: String,
    /// How it was cut.
    pub kind: CandidateKind,
    /// How that ended.
    pub outcome: Outcome,
    /// How far the neuron's own entry is ahead, where it had one.
    pub full_delta: Option<Measure>,
    /// The whole neighbourhood, where it was cut at once.
    pub group: Option<Vec<String>>,
}

/// What a verdict says.
pub struct VerdictView {
    /// The neuron.
    pub uuid: Seq<char>,
    /// How it was cut.
    pub kind: CandidateKind,
    /// How that ended.
    pub outcome: Outcome,
    /// How far the neuron's own entry is ahead, where it had one.
    pub full_delta: Option<Measure>,
    /// The whole neighbourhood, where it was cut at once.
    pub group: Option<Seq<Seq<char>>>,
}

impl View for Verdict {
    type V = VerdictView;

    open spec fn view(&self) -> VerdictView {
        VerdictView {
            uuid: self.uuid@,
            kind: self.kind,
            outcome: self.outcome,
            full_delta: self.full_delta,
            group: match self.group {
                Some(group) => Some(texts(group@)),
                None => None,
            },
        }
    }
}

/// What a list of verdicts says.
pub open spec fn verdict_views(list: Seq<Verdict>) -> Seq<VerdictView> {
    Seq::new(list.len(), |i: int| list[i]@)
}

/// The place of a neuron's own entry in a cohort.
pub open spec fn own_entry(entries: Seq<FullCandidate>, uuid: Seq<char>) -> Option<int>
    decreases entries.len(),
{
    if entries.len() == 0 {
        None
    } else {
        match own_entry(entries.drop_last(), uuid) {
            Some(at) => Some(at),
            None => if entries.last().uuids@.len() > 0 && entries.last().uuids@[0]@ == uuid {
                Some(entries.len() - 1)
            } else {
                None
            },
        }
    }
}

proof fn lemma_own_entry(entries: Seq<FullCandidate>, uuid: Seq<char>)
    ensures
        match own_entry(entries, uuid) {
            Some(at) => {
                &&& 0 <= at < entries.len()
                &&& entries[at].uuids@.len() > 0
                &&& entries[at].uuids@[0]@ == uuid
            },
            None => true,
        },
    decreases entries.len(),
{
    if entries.len() > 0 {
        lemma_own_entry(entries.drop_last(), uuid);
    }
}

fn find_own_entry(entries: &Vec<FullCandidate>, uuid: &String) -> (r: Option<usize>)
    ensures
        match r {
            Some(at) => at < entries@.len() && own_entry(entries@, uuid@) == Some(at as int),
            None => own_entry(entries@, uuid@) is None,
        },
{
    let mut found: Option<usize> = None;
    let mut i: usize = 0;
    assert(entries@.take(0) =~= Seq::empty());
    while i < entries.len()
        invariant
            i <= entries@.len(),
            match found {
                Some(at) => at < i && own_entry(entries@.take(i as int), uuid@) == Some(
                    at as int,
                ),
                None => own_entry(entries@.take(i as int), uuid@) is None,
            },
        decreases entries.len() - i,
    {
        proof {
            assert(entries@.take(i + 1).drop_last() =~= entries@.take(i as int));
            assert(entries@.take(i + 1).last() == entries@[i as int]);
        }
        if found.is_none() && entries[i].uuids.len() > 0 && entries[i].uuids[0] == *uuid {
            found = Some(i);
        }
        i += 1;
    }
    assert(entries@.take(i as int) =~= entries@);
    found
}

/// Some sampled winner cuts the neuron and nothing else.
pub open spec fn cut_alone(sampled: Seq<SampledWinner>, uuid: Seq<char>) -> bool {
    exists|i: int|
        0 <= i < sampled.len() && (#[trigger] sampled[i]).candidate.kind != CandidateKind::Group
            && sampled[i].candidate.uuid@ == uuid
}

fn is_cut_alone(sampled: &Vec<SampledWinner>, uuid: &String) -> (r: bool)
    ensures
        r == cut_alone(sampled@, uuid@),
{
    let mut i: usize = 0;
    while i < sampled.len()
        invariant
            i <= sampled@.len(),
            forall|k: int|
                0 <= k < i ==> (#[trigger] sampled@[k]).candidate.kind == CandidateKind::Group
                    || sampled@[k].candidate.uuid@ != uuid@,
        decreases sampled.len() - i,
    {
        if !sampled[i].candidate.is_group() && sampled[i].candidate.uuid == *uuid {
            return true;
        }
        i += 1;
    }
    false
}

/// The sampled winners that speak for the neuron that they are filed under: a
/// neighbourhood goes by the name of its first member, and leaves the word to
/// the cut of that neuron alone where there is one among `all`.
pub open spec fn speakers(list: Seq<SampledWinner>, all: Seq<SampledWinner>) -> Seq<SampledWinner>
    decreases list.len(),
{
    if list.len() == 0 {
        Seq::empty()
    } else {
        let before = speakers(list.drop_last(), all);
        let candidate = list.last().candidate;
        if candidate.kind == CandidateKind::Group && cut_alone(all, candidate.uuid@) {
            before
        } else {
            before.push(list.last())
        }
    }
}

/// Whether a neuron is among those that were cut.
pub open spec fn outcome_of(cut: Seq<Seq<char>>, uuid: Seq<char>) -> Outcome {
    if cut.contains(uuid) {
        Outcome::Accepted
    } else {
        Outcome::Rejected
    }
}

/// A verdict for each sampled winner whose neuron had an entry of its own, in
/// order.
pub open spec fn own_verdicts(
    sampled: Seq<SampledWinner>,
    entries: Seq<FullCandidate>,
    cut: Seq<Seq<char>>,
) -> Seq<VerdictView>
    decreases sampled.len(),
{
    if sampled.len() == 0 {
        Seq::empty()
    } else {
        let before = own_verdicts(sampled.drop_last(), entries, cut);
        let winner = sampled.last().candidate;
        match own_entry(entries, winner.uuid@) {
            Some(at) => before.push(
                VerdictView {
                    uuid: winner.uuid@,
                    kind: winner.kind,
                    outcome: outcome_of(cut, winner.uuid@),
                    full_delta: Some(entries[at].delta),
                    group: None,
                },
            ),
            None => before,
        }
    }
}

/// Some verdict is on the neuron.
pub open spec fn judged(list: Seq<VerdictView>, uuid: Seq<char>) -> bool {
    exists|i: int| 0 <= i < list.len() && (#[trigger] list[i]).uuid == uuid
}

/// A verdict for each neuron that was cut without an entry of its own.
pub open spec fn cut_verdicts(
    cut: Seq<Seq<char>>,
    own: Seq<VerdictView>,
    group: Option<Seq<Seq<char>>>,
) -> Seq<VerdictView>
    decreases cut.len(),
{
    if cut.len() == 0 {
        Seq::empty()
    } else {
        let before = cut_verdicts(cut.drop_last(), own, group);
        if judged(own, cut.last()) {
            before
        } else {
            before.push(
                VerdictView {
                    uuid: cut.last(),
                    kind: if group is Some {
                        CandidateKind::Group
                    } else {
                        CandidateKind::Ablation
                    },
                    outcome: Outcome::Accepted,
                    full_delta: None,
                    group,
                },
            )
        }
    }
}

/// The whole neighbourhood, where the winner cuts one.
pub open spec fn winning_group(winner: Option<FullCandidate>) -> Option<Seq<Seq<char>>> {
    match winner {
        Some(entry) => if entry.kind == EntryKind::Group {
            Some(texts(entry.uuids@))
        } else {
            None
        },
        None => None,
    }
}

/// Every verdict of a cohort: first on the sampled winners, then on the other
/// neurons that the winner cut.
pub open spec fn all_verdicts(sampled: Seq<SampledWinner>, full: FullOutcome) -> Seq<VerdictView> {
    let cut = winner_cuts(full.winner);
    let own = own_verdicts(speakers(sampled, sampled), full.individuals@, cut);
    own + cut_verdicts(cut, own, winning_group(full.winner))
}

fn was_judged(list: &Vec<Verdict>, uuid: &String) -> (r: bool)
    ensures
        r == judged(verdict_views(list@), uuid@),
{
    let ghost views = verdict_views(list@);
    let mut i: usize = 0;
    while i < list.len()
        invariant
            i <= list@.len(),
            views == verdict_views(list@),
            forall|k: int| 0 <= k < i ==> (#[trigger] views[k]).uuid != uuid@,
        decreases list.len() - i,
    {
        assert(views[i as int].uuid == list@[i as int].uuid@);
        if list[i].uuid == *uuid {
            return true;
        }
        i += 1;
    }
    false
}

fn judge_sampled(sampled: &Vec<SampledWinner>, full: &FullOutcome) -> (r: Vec<Verdict>)
    ensures
        verdict_views(r@) == own_verdicts(
            speakers(sampled@, sampled@),
            full.individuals@,
            winner_cuts(full.winner),
        ),
{
    let ghost cut = winner_cuts(full.winner);
    let mut out: Vec<Verdict> = Vec::new();
    let mut i: usize = 0;
    assert(sampled@.take(0) =~= Seq::empty());
    assert(verdict_views(out@) =~= Seq::empty());
    while i < sampled.len()
        invariant
            i <= sampled@.len(),
            cut == winner_cuts(full.winner),
            verdict_views(out@) == own_verdicts(
                speakers(sampled@.take(i as int), sampled@),
                full.individuals@,
                cut,
            ),
        decreases sampled.len() - i,
    {
        let ghost before = verdict_views(out@);
        proof {
            assert(sampled@.take(i + 1).drop_last() =~= sampled@.take(i as int));
            assert(sampled@.take(i + 1).last() == sampled@[i as int]);
            let heard = speakers(sampled@.take(i as int), sampled@);
            assert(heard.push(sampled@[i as int]).drop_last() =~= heard);
        }
        let uuid = &sampled[i].candidate.uuid;
        let passed_over = sampled[i].candidate.is_group() && is_cut_alone(sampled, uuid);
        let own: Option<usize> = if passed_over {
            None
        } else {
            find_own_entry(&full.individuals, uuid)
        };
        match own {
            Some(at) => {
                let was_cut = match &full.winner {
                    Some(winner) => holds(&winner.uuids, uuid),
                    None => false,
                };
                let outcome = if was_cut {
                    Outcome::Accepted
                } else {
                    Outcome::Rejected
                };
                let verdict = Verdict {
                    uuid: uuid.clone(),
                    kind: sampled[i].candidate.kind,
                    outcome,
                    full_delta: Some(full.individuals[at].delta),
                    group: None,
                };
                let ghost view = verdict@;
                out.push(verdict);
                assert(verdict_views(out@) =~= before.push(view));
            },
            None => {},
        }
        i += 1;
    }
    assert(sampled@.take(i as int) =~= sampled@);
    out
}

/// The verdicts that are filed once a cohort was scored. Where a neighbourhood
/// won, each member carries all of it.
pub fn cohort_verdicts(sampled: &Vec<SampledWinner>, full: &FullOutcome) -> (r: Vec<Verdict>)
    ensures
        verdict_views(r@) == all_verdicts(sampled@, *full),
{
    let mut out = judge_sampled(sampled, full);
    let ghost own = verdict_views(out@);
    match &full.winner {
        Some(winner) => {
            let ghost cut = texts(winner.uuids@);
            let ghost group = winning_group(full.winner);
            let group_won = winner.kind == EntryKind::Group;
            let mut late: Vec<Verdict> = Vec::new();
            let mut i: usize = 0;
            assert(cut.take(0) =~= Seq::empty());
            assert(verdict_views(late@) =~= Seq::empty());
            while i < winner.uuids.len()
                invariant
                    i <= winner.uuids@.len(),
                    cut == texts(winner.uuids@),
                    group == (if group_won {
                        Some(cut)
                    } else {
                        None
                    }),
                    own == verdict_views(out@),
                    verdict_views(late@) == cut_verdicts(cut.take(i as int), own, group),
                decreases winner.uuids.len() - i,
            {
                let ghost before = verdict_views(late@);
                proof {
                    assert(cut.take(i + 1).drop_last() =~= cut.take(i as int));
                    assert(cut.take(i + 1).last() == winner.uuids@[i as int]@);
                }
                if !was_judged(&out, &winner.uuids[i]) {
                    let (kind, whole) = if group_won {
                        (CandidateKind::Group, Some(copy_texts(&winner.uuids)))
                    } else {
                        (CandidateKind::Ablation, None)
                    };
                    let verdict = Verdict {
                        uuid: winner.uuids[i].clone(),
                        kind,
                        outcome: Outcome::Accepted,
                        full_delta: None,
                        group: whole,
                    };
                    let ghost view = verdict@;
                    late.push(verdict);
                    assert(verdict_views(late@) =~= before.push(view));
                }
                i += 1;
            }
            assert(cut.take(i as int) =~= cut);
            let ghost first = out@;
            let ghost rest = late@;
            out.append(&mut late);
            assert(verdict_views(out@) =~= verdict_views(first) + verdict_views(rest));
        },
        None => {
            assert(own + Seq::<VerdictView>::empty() =~= own);
        },
    }
    out
}

proof fn lemma_own_verdicts(
    sampled: Seq<SampledWinner>,
    entries: Seq<FullCandidate>,
    cut: Seq<Seq<char>>,
)
    ensures
        forall|i: int|
            0 <= i < own_verdicts(sampled, entries, cut).len() ==> (#[trigger] own_verdicts(
                sampled,
                entries,
                cut,
            )[i]).outcome == outcome_of(cut, own_verdicts(sampled, entries, cut)[i].uuid)
                && own_verdicts(sampled, entries, cut)[i].group is None && speaks(
                sampled,
                own_verdicts(sampled, entries, cut)[i].uuid,
                own_verdicts(sampled, entries, cut)[i].kind,
            ),
    decreases sampled.len(),
{
    if sampled.len() > 0 {
        let init = sampled.drop_last();
        lemma_own_verdicts(init, entries, cut);
        let before = own_verdicts(init, entries, cut);
        let after = own_verdicts(sampled, entries, cut);
        assert forall|i: int| 0 <= i < after.len() implies (#[trigger] after[i]).outcome
            == outcome_of(cut, after[i].uuid) && after[i].group is None && speaks(
            sampled,
            after[i].uuid,
            after[i].kind,
        ) by {
            if i < before.len() {
                assert(after[i] == before[i]);
                let k = choose|k: int|
                    0 <= k < init.len() && (#[trigger] init[k]).candidate.uuid@ == after[i].uuid
                        && init[k].candidate.kind == after[i].kind;
                assert(sampled[k] == init[k]);
            } else {
                assert(sampled[sampled.len() - 1] == sampled.last());
            }
        }
    }
}

/// Some sampled winner has that uuid and kind.
spec fn speaks(sampled: Seq<SampledWinner>, uuid: Seq<char>, kind: CandidateKind) -> bool {
    exists|k: int|
        0 <= k < sampled.len() && (#[trigger] sampled[k]).candidate.uuid@ == uuid
            && sampled[k].candidate.kind == kind
}

proof fn lemma_speakers(list: Seq<SampledWinner>, all: Seq<SampledWinner>)
    ensures
        forall|k: int|
            0 <= k < speakers(list, all).len() ==> (#[trigger] speakers(list, all)[k]).candidate.kind
                != CandidateKind::Group || !cut_alone(all, speakers(list, all)[k].candidate.uuid@),
    decreases list.len(),
{
    if list.len() > 0 {
        lemma_speakers(list.drop_last(), all);
    }
}

proof fn lemma_cut_verdicts(
    cut: Seq<Seq<char>>,
    own: Seq<VerdictView>,
    group: Option<Seq<Seq<char>>>,
)
    ensures
        forall|i: int|
            0 <= i < cut_verdicts(cut, own, group).len() ==> (#[trigger] cut_verdicts(
                cut,
                own,
                group,
            )[i]).outcome == Outcome::Accepted && cut.contains(
                cut_verdicts(cut, own, group)[i].uuid,
            ) && cut_verdicts(cut, own, group)[i].group == group && (group is Some
                ==> cut_verdicts(cut, own, group)[i].kind == CandidateKind::Group)
                && cut_verdicts(cut, own, group)[i].full_delta is None,
        forall|k: int|
            0 <= k < cut.len() ==> judged(own, #[trigger] cut[k]) || judged(
                cut_verdicts(cut, own, group),
                cut[k],
            ),
    decreases cut.len(),
{
    if cut.len() > 0 {
        let init = cut.drop_last();
        lemma_cut_verdicts(init, own, group);
        let before = cut_verdicts(init, own, group);
        let after = cut_verdicts(cut, own, group);
        assert(cut[cut.len() - 1] == cut.last());
        assert forall|i: int| 0 <= i < after.len() implies (#[trigger] after[i]).outcome
            == Outcome::Accepted && cut.contains(after[i].uuid) && after[i].group == group && (
        group is Some ==> after[i].kind == CandidateKind::Group)
            && after[i].full_delta is None by {
            if i < before.len() {
                assert(after[i] == before[i]);
                let k = choose|k: int| 0 <= k < init.len() && init[k] == before[i].uuid;
                assert(cut[k] == before[i].uuid);
            }
        }
        assert forall|k: int| 0 <= k < cut.len() implies judged(own, #[trigger] cut[k]) || judged(
            after,
            cut[k],
        ) by {
            if k < init.len() {
                assert(init[k] == cut[k]);
                if judged(before, cut[k]) {
                    let i = choose|i: int| 0 <= i < before.len() && (#[trigger] before[i]).uuid
                        == cut[k];
                    assert(after[i] == before[i]);
                }
            } else if !judged(own, cut[k]) {
                assert(after[before.len() as int].uuid == cut[k]);
            }
        }
    }
}

/// A verdict accepts exactly the neurons that the cohort's winner cuts, and
/// each of those gets a verdict.
pub proof fn law_verdicts_accept_what_was_cut(sampled: Seq<SampledWinner>, full: FullOutcome)
    ensures
        ({
            let list = all_verdicts(sampled, full);
            let cut = winner_cuts(full.winner);
            &&& forall|i: int|
                0 <= i < list.len() ==> (#[trigger] list[i]).outcome == outcome_of(
                    cut,
                    list[i].uuid,
                )
            &&& forall|k: int| 0 <= k < cut.len() ==> judged(list, #[trigger] cut[k])
        }),
{
    let list = all_verdicts(sampled, full);
    let cut = winner_cuts(full.winner);
    let heard = speakers(sampled, sampled);
    let own = own_verdicts(heard, full.individuals@, cut);
    let group = winning_group(full.winner);
    let late = cut_verdicts(cut, own, group);
    lemma_own_verdicts(heard, full.individuals@, cut);
    lemma_cut_verdicts(cut, own, group);
    assert forall|i: int| 0 <= i < list.len() implies (#[trigger] list[i]).outcome == outcome_of(
        cut,
        list[i].uuid,
    ) by {
        if i < own.len() {
            assert(list[i] == own[i]);
        } else {
            assert(list[i] == late[i - own.len()]);
        }
    }
    assert forall|k: int| 0 <= k < cut.len() implies judged(list, #[trigger] cut[k]) by {
        if judged(own, cut[k]) {
            let i = choose|i: int| 0 <= i < own.len() && (#[trigger] own[i]).uuid == cut[k];
            assert(list[i] == own[i]);
        } else {
            let i = choose|i: int| 0 <= i < late.len() && (#[trigger] late[i]).uuid == cut[k];
            assert(list[own.len() + i] == late[i]);
        }
    }
}

/// Where a neighbourhood won, every member without an entry of its own is filed
/// as part of it, with all of its members and no difference of its own; and
/// what was scored on its own is filed without a membership, and under its own
/// kind where a sampled winner cuts it alone.
pub proof fn law_group_wins_are_filed_whole(sampled: Seq<SampledWinner>, full: FullOutcome, i: int)
    requires
        full.winner matches Some(winner) && winner.kind == EntryKind::Group,
        0 <= i < all_verdicts(sampled, full).len(),
    ensures
        ({
            let cut = winner_cuts(full.winner);
            let own = own_verdicts(speakers(sampled, sampled), full.individuals@, cut);
            let verdict = all_verdicts(sampled, full)[i];
            if i < own.len() {
                &&& verdict.group is None
                &&& cut_alone(sampled, verdict.uuid) ==> verdict.kind != CandidateKind::Group
            } else {
                &&& verdict.outcome == Outcome::Accepted
                &&& verdict.kind == CandidateKind::Group
                &&& verdict.group == Some(cut)
                &&& verdict.full_delta is None
                &&& cut.contains(verdict.uuid)
            }
        }),
{
    let cut = winner_cuts(full.winner);
    let heard = speakers(sampled, sampled);
    let own = own_verdicts(heard, full.individuals@, cut);
    lemma_own_verdicts(heard, full.individuals@, cut);
    lemma_speakers(sampled, sampled);
    lemma_cut_verdicts(cut, own, winning_group(full.winner));
    let late = cut_verdicts(cut, own, winning_group(full.winner));
    if i < own.len() {
        assert(all_verdicts(sampled, full)[i] == own[i]);
    } else {
        assert(all_verdicts(sampled, full)[i] == late[i - own.len()]);
    }
}

/// An entry of the neuron's own is ahead by that much.
pub open spec fn own_difference(
    entries: Seq<FullCandidate>,
    uuid: Seq<char>,
    delta: Option<Measure>,
) -> bool {
    exists|at: int|
        0 <= at < entries.len() && (#[trigger] entries[at]).uuids@.len() > 0
            && entries[at].uuids@[0]@ == uuid && delta == Some(entries[at].delta)
}

/// A verdict on a sampled winner carries the difference of its own entry.
pub proof fn law_difference_comes_from_the_own_entry(
    sampled: Seq<SampledWinner>,
    entries: Seq<FullCandidate>,
    cut: Seq<Seq<char>>,
    i: int,
)
    requires
        0 <= i < own_verdicts(sampled, entries, cut).len(),
    ensures
        own_difference(
            entries,
            own_verdicts(sampled, entries, cut)[i].uuid,
            own_verdicts(sampled, entries, cut)[i].full_delta,
        ),
    decreases sampled.len(),
{
    if sampled.len() > 0 {
        let before = own_verdicts(sampled.drop_last(), entries, cut);
        if i < before.len() {
            law_difference_comes_from_the_own_entry(sampled.drop_last(), entries, cut, i);
        } else {
            lemma_own_entry(entries, sampled.last().candidate.uuid@);
        }
    }
}

/// Of the sampled winners those whose neuron had an entry of its own are judged, in
/// order: each under its own kind, with the difference of that entry, as accepted
/// exactly if its neuron was cut, and as no part of a neighbourhood.
pub proof fn law_scored_winners_are_judged_in_order(
    sampled: Seq<SampledWinner>,
    entries: Seq<FullCandidate>,
    cut: Seq<Seq<char>>,
    marks: Seq<bool>,
)
    requires
        marks.len() == sampled.len(),
        forall|i: int|
            0 <= i < marks.len() ==> (#[trigger] marks[i] <==> exists|e: int|
                    0 <= e < entries.len() && (#[trigger] entries[e]).uuids@.len() > 0
                        && entries[e].uuids@[0]@ == sampled[i].candidate.uuid@),
    ensures
        own_verdicts(sampled, entries, cut).len() == true_places(marks).len(),
        forall|k: int|
            0 <= k < true_places(marks).len() ==> {
                let at = true_places(marks)[k];
                let from = sampled[at];
                let made = #[trigger] own_verdicts(sampled, entries, cut)[k];
                &&& made.uuid == from.candidate.uuid@
                &&& made.kind == from.candidate.kind
                &&& made.group is None
                &&& made.outcome == Outcome::Accepted <==> cut.contains(from.candidate.uuid@)
                &&& own_entry(entries, from.candidate.uuid@) is Some
                &&& made.full_delta == Some(entries[own_entry(entries,
                    from.candidate.uuid@)->0].delta)
            },
    decreases sampled.len(),
{
    if sampled.len() > 0 {
        let init = sampled.drop_last();
        let some = marks.drop_last();
        let n = sampled.len() - 1;
        assert forall|i: int| 0 <= i < some.len() implies (#[trigger] some[i] <==> exists|e: int|
                    0 <= e < entries.len() && (#[trigger] entries[e]).uuids@.len() > 0
                        && entries[e].uuids@[0]@ == init[i].candidate.uuid@) by {
            assert(some[i] == marks[i]);
            assert(init[i] == sampled[i]);
        }
        law_scored_winners_are_judged_in_order(init, entries, cut, some);
        law_own_entry_is_the_first(entries, sampled[n].candidate.uuid@);
        assert(marks[n] <==> exists|e: int|
                    0 <= e < entries.len() && (#[trigger] entries[e]).uuids@.len() > 0
                        && entries[e].uuids@[0]@ == sampled[n].candidate.uuid@);
        law_true_places_ascend(some);
        let before = own_verdicts(init, entries, cut);
        let after = own_verdicts(sampled, entries, cut);
        let was = true_places(some);
        let now = true_places(marks);
        assert forall|k: int| 0 <= k < now.len() implies ({
            let at = now[k];
            let from = sampled[at];
            let made = #[trigger] after[k];
            &&& made.uuid == from.candidate.uuid@
            &&& made.kind == from.candidate.kind
            &&& made.group is None
            &&& made.outcome == Outcome::Accepted <==> cut.contains(from.candidate.uuid@)
            &&& own_entry(entries, from.candidate.uuid@) is Some
            &&& made.full_delta == Some(entries[own_entry(entries, from.candidate.uuid@)->0].delta)
        }) by {
            if k < was.len() {
                assert(now[k] == was[k]);
                assert(0 <= was[k] < some.len());
                assert(init[was[k]] == sampled[was[k]]);
                assert(after[k] == before[k]);
            }
        }
    }
}

/// Of the neurons that were cut those without a verdict are judged, in order: as
/// accepted, with no difference of their own, and as part of the neighbourhood that
/// won, if one did.
pub proof fn law_other_cuts_are_judged_in_order(
    cut: Seq<Seq<char>>,
    own: Seq<VerdictView>,
    group: Option<Seq<Seq<char>>>,
    marks: Seq<bool>,
)
    requires
        marks.len() == cut.len(),
        forall|i: int|
            0 <= i < marks.len() ==> (#[trigger] marks[i]
                <==> !(exists|v: int| 0 <= v < own.len() && (#[trigger] own[v]).uuid == cut[i])),
    ensures
        cut_verdicts(cut, own, group).len() == true_places(marks).len(),
        forall|k: int|
            0 <= k < true_places(marks).len() ==> {
                let at = true_places(marks)[k];
                let from = cut[at];
                let made = #[trigger] cut_verdicts(cut, own, group)[k];
                &&& made.uuid == from
                &&& made.outcome == Outcome::Accepted
                &&& made.full_delta is None
                &&& made.group == group
                &&& made.kind == CandidateKind::Group <==> group is Some
                &&& group is None ==> made.kind == CandidateKind::Ablation
            },
    decreases cut.len(),
{
    if cut.len() > 0 {
        let init = cut.drop_last();
        let some = marks.drop_last();
        let n = cut.len() - 1;
        assert forall|i: int| 0 <= i < some.len() implies (#[trigger] some[i]
            <==> !(exists|v: int| 0 <= v < own.len() && (#[trigger] own[v]).uuid == init[i])) by {
            assert(some[i] == marks[i]);
            assert(init[i] == cut[i]);
        }
        law_other_cuts_are_judged_in_order(init, own, group, some);
        assert(marks[n] <==> !(exists|v: int| 0 <= v < own.len()
            && (#[trigger] own[v]).uuid == cut[n]));
        law_true_places_ascend(some);
        let before = cut_verdicts(init, own, group);
        let after = cut_verdicts(cut, own, group);
        let was = true_places(some);
        let now = true_places(marks);
        assert forall|k: int| 0 <= k < now.len() implies ({
            let at = now[k];
            let from = cut[at];
            let made = #[trigger] after[k];
            &&& made.uuid == from
            &&& made.outcome == Outcome::Accepted
            &&& made.full_delta is None
            &&& made.group == group
            &&& made.kind == CandidateKind::Group <==> group is Some
            &&& group is None ==> made.kind == CandidateKind::Ablation
        }) by {
            if k < was.len() {
                assert(now[k] == was[k]);
                assert(0 <= was[k] < some.len());
                assert(init[was[k]] == cut[was[k]]);
                assert(after[k] == before[k]);
            }
        }
    }
}

/// Of the sampled winners all speak for their neuron, in order, but the
/// neighbourhoods whose first member some winner cuts alone.
pub proof fn law_neighbourhoods_leave_the_word_to_single_cuts(
    list: Seq<SampledWinner>,
    all: Seq<SampledWinner>,
    marks: Seq<bool>,
)
    requires
        marks.len() == list.len(),
        forall|i: int|
            0 <= i < marks.len() ==> (#[trigger] marks[i] <==> !(list[i].candidate.kind
                == CandidateKind::Group && exists|j: int|
                    0 <= j < all.len() && (#[trigger] all[j]).candidate.kind
                        != CandidateKind::Group && all[j].candidate.uuid@
                        == list[i].candidate.uuid@)),
    ensures
        speakers(list, all).len() == true_places(marks).len(),
        forall|k: int|
            0 <= k < true_places(marks).len() ==> {
                let at = true_places(marks)[k];
                let from = list[at];
                let made = #[trigger] speakers(list, all)[k];
                &&& made == from
            },
    decreases list.len(),
{
    if list.len() > 0 {
        let init = list.drop_last();
        let some = marks.drop_last();
        let n = list.len() - 1;
        assert forall|i: int| 0 <= i < some.len() implies (#[trigger] some[i]
            <==> !(init[i].candidate.kind == CandidateKind::Group && exists|j: int|
                    0 <= j < all.len() && (#[trigger] all[j]).candidate.kind
                        != CandidateKind::Group && all[j].candidate.uuid@
                        == init[i].candidate.uuid@)) by {
            assert(some[i] == marks[i]);
            assert(init[i] == list[i]);
        }
        law_neighbourhoods_leave_the_word_to_single_cuts(init, all, some);
        assert(marks[n] <==> !(list[n].candidate.kind == CandidateKind::Group && exists|j: int|
                    0 <= j < all.len() && (#[trigger] all[j]).candidate.kind
                        != CandidateKind::Group && all[j].candidate.uuid@
                        == list[n].candidate.uuid@));
        law_true_places_ascend(some);
        let before = speakers(init, all);
        let after = speakers(list, all);
        let was = true_places(some);
        let now = true_places(marks);
        assert forall|k: int| 0 <= k < now.len() implies ({
            let at = now[k];
            let from = list[at];
            let made = #[trigger] after[k];
            &&& made == from
        }) by {
            if k < was.len() {
                assert(now[k] == was[k]);
                assert(0 <= was[k] < some.len());
                assert(init[was[k]] == list[was[k]]);
                assert(after[k] == before[k]);
            }
        }
    }
}

/// A neuron's own entry is the first one that cuts it first.
pub proof fn law_own_entry_is_the_first(entries: Seq<FullCandidate>, uuid: Seq<char>)
    ensures
        match own_entry(entries, uuid) {
            Some(at) => {
                &&& 0 <= at < entries.len()
                &&& entries[at].uuids@.len() > 0
                &&& entries[at].uuids@[0]@ == uuid
                &&& forall|k: int|
                    0 <= k < at ==> (#[trigger] entries[k]).uuids@.len() == 0
                        || entries[k].uuids@[0]@ != uuid
            },
            None => forall|k: int|
                0 <= k < entries.len() ==> (#[trigger] entries[k]).uuids@.len() == 0
                    || entries[k].uuids@[0]@ != uuid,
        },
    decreases entries.len(),
{
    if entries.len() > 0 {
        let init = entries.drop_last();
        law_own_entry_is_the_first(init, uuid);
        assert(forall|k: int| 0 <= k < init.len() ==> #[trigger] init[k] == entries[k]);
        assert(entries[entries.len() - 1] == entries.last());
        if own_entry(init, uuid) is None {
            assert forall|k: int| 0 <= k < entries.len() - 1 implies (
            #[trigger] entries[k]).uuids@.len() == 0 || entries[k].uuids@[0]@ != uuid by {
                assert(init[k] == entries[k]);
            }
        } else {
            let at = own_entry(init, uuid)->0;
            assert forall|k: int| 0 <= k < at implies (#[trigger] entries[k]).uuids@.len() == 0
                || entries[k].uuids@[0]@ != uuid by {
                assert(init[k] == entries[k]);
            }
        }
    }
}

/// Every sampled winner that cuts one neuron and was scored on its own has a
/// verdict with the difference that its first entry measured: accepted exactly if
/// the cohort's winner cuts its neuron, whatever else the cohort holds.
pub proof fn law_every_scored_winner_gets_its_verdict(
    sampled: Seq<SampledWinner>,
    full: FullOutcome,
    i: int,
    at: int,
) -> (v: int)
    requires
        0 <= i < sampled.len(),
        sampled[i].candidate.kind != CandidateKind::Group,
        0 <= at < full.individuals@.len(),
        full.individuals@[at].uuids@.len() > 0,
        full.individuals@[at].uuids@[0]@ == sampled[i].candidate.uuid@,
        forall|k: int|
            0 <= k < at ==> (#[trigger] full.individuals@[k]).uuids@.len() == 0
                || full.individuals@[k].uuids@[0]@ != sampled[i].candidate.uuid@,
    ensures
        0 <= v < all_verdicts(sampled, full).len(),
        ({
            let verdict = all_verdicts(sampled, full)[v];
            let cut = full.winner matches Some(winner) && exists|k: int|
                0 <= k < winner.uuids@.len() && (#[trigger] winner.uuids@[k])@
                    == sampled[i].candidate.uuid@;
            &&& verdict.uuid == sampled[i].candidate.uuid@
            &&& verdict.kind == sampled[i].candidate.kind
            &&& verdict.full_delta == Some(full.individuals@[at].delta)
            &&& verdict.group is None
            &&& cut ==> verdict.outcome == Outcome::Accepted
            &&& !cut ==> verdict.outcome == Outcome::Rejected
        }),
{
    let uuid = sampled[i].candidate.uuid@;
    let entries = full.individuals@;
    let cut = winner_cuts(full.winner);
    let heard = speakers(sampled, sampled);
    let speaks = Seq::new(
        sampled.len(),
        |k: int|
            !(sampled[k].candidate.kind == CandidateKind::Group && cut_alone(
                sampled,
                sampled[k].candidate.uuid@,
            )),
    );
    law_neighbourhoods_leave_the_word_to_single_cuts(sampled, sampled, speaks);
    law_true_places_ascend(speaks);
    assert(speaks[i]);
    assert(true_places(speaks).contains(i));
    let h = choose|h: int| 0 <= h < true_places(speaks).len() && true_places(speaks)[h] == i;
    assert(heard[h] == sampled[i]);
    let marks = Seq::new(
        heard.len(),
        |k: int| own_entry(entries, heard[k].candidate.uuid@) is Some,
    );
    assert forall|k: int| 0 <= k < marks.len() implies (#[trigger] marks[k] <==> (exists|e: int|
        0 <= e < entries.len() && (#[trigger] entries[e]).uuids@.len() > 0
            && entries[e].uuids@[0]@ == heard[k].candidate.uuid@)) by {
        law_own_entry_is_the_first(entries, heard[k].candidate.uuid@);
        if marks[k] {
            let e = own_entry(entries, heard[k].candidate.uuid@)->0;
            assert(entries[e].uuids@.len() > 0);
        }
    }
    law_scored_winners_are_judged_in_order(heard, entries, cut, marks);
    law_true_places_ascend(marks);
    law_own_entry_is_the_first(entries, uuid);
    assert(own_entry(entries, uuid) == Some(at)) by {
        assert(entries[at].uuids@.len() > 0);
        let o = own_entry(entries, uuid)->0;
        assert(entries[o].uuids@.len() > 0);
    }
    assert(marks[h]);
    assert(true_places(marks).contains(h));
    let v = choose|v: int| 0 <= v < true_places(marks).len() && true_places(marks)[v] == h;
    let own = own_verdicts(heard, entries, cut);
    assert(own[v].uuid == uuid);
    assert(all_verdicts(sampled, full)[v] == own[v]);
    assert(cut.contains(uuid) <==> (full.winner matches Some(winner) && exists|k: int|
        0 <= k < winner.uuids@.len() && (#[trigger] winner.uuids@[k])@ == uuid)) by {
        if cut.contains(uuid) {
            let k = choose|k: int| 0 <= k < cut.len() && cut[k] == uuid;
            assert(full.winner->0.uuids@[k]@ == uuid);
        }
        if let Some(winner) = full.winner {
            if exists|k: int|
                0 <= k < winner.uuids@.len() && (#[trigger] winner.uuids@[k])@ == uuid {
                let k = choose|k: int|
                    0 <= k < winner.uuids@.len() && (#[trigger] winner.uuids@[k])@ == uuid;
                assert(cut[k] == uuid);
            }
        }
    }
    v
}

/// A neighbourhood that won is told with all of its members in order, and nothing
/// else is told as one.
pub proof fn law_winning_neighbourhoods_are_told_whole(winner: Option<FullCandidate>)
    ensures
        winning_group(winner) is Some <==> winner is Some && winner->0.kind == EntryKind::Group,
        winning_group(winner) matches Some(group) ==> group == texts(winner->0.uuids@),
{
}

} // verus!
