//! From screened winners to a full-corpus cohort and its winner.
use vstd::prelude::*;

use crate::list::{
    law_filter_picks_in_order, law_true_places_ascend, lemma_marked_is_filter, retain_marked,
    true_places,
};
use crate::measure::Measure;
use crate::sort::{
    in_order, law_sorted_is_a_permutation, law_sorted_is_in_order, law_sorted_is_stable, sorted,
    stable_sort, well_ranked, Ranked,
};
use crate::sweep::{CandidateKind, SampledWinner};
use crate::text::{
    copy_range, copy_texts, holds, is_text_below, join, joined, law_text_order_is_total,
    law_text_order_is_transitive, text_below, text_lists, texts,
};

verus! {

/// Most bundle plans of one cohort.
pub const MAX_BUNDLE_PLANS: usize = 12;

/// Fewest members for which the two halves are planned apart.
pub const DISJOINT_HALVES_MIN: usize = 8;

/// Fewest members of each kind for which kinds are planned apart.
pub const KIND_GROUP_MIN: usize = 2;

/// Most plans of a replay.
pub const MAX_REPLAY_PLANS: usize = 6;

/// Most known wins that a replay probes one by one.
pub const REPLAY_PROBE_LIMIT: usize = 8;

/// The larger gain leads; of level gains the smaller uuid.
pub open spec fn leads(d: Measure, u: Seq<char>, e: Measure, v: Seq<char>) -> bool {
    e.below(d) || (!d.below(e) && text_below(u, v))
}

/// One winner as a member of bundles.
#[derive(Debug)]
pub struct BundleMember {
    /// The neuron that it cuts.
    pub uuid: String,
    /// How it is cut.
    pub kind: CandidateKind,
    /// What the cut gained.
    pub delta: Measure,
}

impl Ranked for BundleMember {
    open spec fn before(self, other: BundleMember) -> bool {
        leads(self.delta, self.uuid@, other.delta, other.uuid@)
    }

    fn is_before(&self, other: &BundleMember) -> (b: bool) {
        other.delta.lt(self.delta) || (!self.delta.lt(other.delta) && is_text_below(
            self.uuid.as_str(),
            other.uuid.as_str(),
        ))
    }
}

impl BundleMember {
    /// A copy of the member.
    pub fn copy(&self) -> (r: BundleMember)
        ensures
            r == *self,
    {
        BundleMember { uuid: self.uuid.clone(), kind: self.kind, delta: self.delta }
    }
}

/// Ranking by gain and uuid is a strict weak order where every gain compares.
pub proof fn law_members_are_well_ranked(members: Seq<BundleMember>)
    requires
        forall|i: int| 0 <= i < members.len() ==> !(#[trigger] members[i]).delta.nan(),
    ensures
        well_ranked(members),
{
    assert forall|a: BundleMember, b: BundleMember|
        members.contains(a) && members.contains(b) && #[trigger] a.before(b) implies !b.before(
        a,
    ) by {
        let i = choose|i: int| 0 <= i < members.len() && members[i] == a;
        let j = choose|j: int| 0 <= j < members.len() && members[j] == b;
        assert(!members[i].delta.nan() && !members[j].delta.nan());
        law_text_order_is_total(a.uuid@, b.uuid@);
    }
    assert forall|a: BundleMember, b: BundleMember, c: BundleMember|
        members.contains(a) && members.contains(b) && members.contains(c) && !(
        #[trigger] a.before(b)) && !(#[trigger] b.before(c)) implies !a.before(c) by {
        let i = choose|i: int| 0 <= i < members.len() && members[i] == a;
        let j = choose|j: int| 0 <= j < members.len() && members[j] == b;
        let k = choose|k: int| 0 <= k < members.len() && members[k] == c;
        assert(!members[i].delta.nan() && !members[j].delta.nan() && !members[k].delta.nan());
        lemma_not_leading_chains(a, b, c);
    }
}

proof fn lemma_not_leading_chains(a: BundleMember, b: BundleMember, c: BundleMember)
    requires
        !a.delta.nan(),
        !b.delta.nan(),
        !c.delta.nan(),
        !a.before(b),
        !b.before(c),
    ensures
        !a.before(c),
{
    law_text_order_is_total(a.uuid@, b.uuid@);
    law_text_order_is_total(b.uuid@, c.uuid@);
    law_text_order_is_total(a.uuid@, c.uuid@);
    if a.delta.position() == b.delta.position() && b.delta.position() == c.delta.position() {
        if text_below(a.uuid@, c.uuid@) {
            if text_below(b.uuid@, a.uuid@) {
                law_text_order_is_transitive(b.uuid@, a.uuid@, c.uuid@);
            }
        }
    }
}

/// Of the winners of a screen, what bundles need.
pub fn members_of(winners: &Vec<SampledWinner>) -> (r: Vec<BundleMember>)
    ensures
        r@ == winner_members(winners@),
{
    let mut out: Vec<BundleMember> = Vec::new();
    let mut i: usize = 0;
    while i < winners.len()
        invariant
            i <= winners@.len(),
            out@ == winner_members(winners@).take(i as int),
        decreases winners.len() - i,
    {
        let ghost before = out@;
        out.push(
            BundleMember {
                uuid: winners[i].candidate.uuid.clone(),
                kind: winners[i].candidate.kind,
                delta: winners[i].delta,
            },
        );
        i += 1;
        assert(out@ =~= winner_members(winners@).take(i as int));
    }
    assert(winner_members(winners@).take(i as int) =~= winner_members(winners@));
    out
}

/// The winners as members of bundles, in order.
pub open spec fn winner_members(winners: Seq<SampledWinner>) -> Seq<BundleMember> {
    Seq::new(
        winners.len(),
        |i: int|
            BundleMember {
                uuid: winners[i].candidate.uuid,
                kind: winners[i].candidate.kind,
                delta: winners[i].delta,
            },
    )
}

/// The uuids of the members, in order.
pub open spec fn member_ids(members: Seq<BundleMember>) -> Seq<Seq<char>> {
    Seq::new(members.len(), |i: int| members[i].uuid@)
}

/// The uuids of the members of one kind, in order.
pub open spec fn ids_of_kind(members: Seq<BundleMember>, kind: CandidateKind) -> Seq<Seq<char>>
    decreases members.len(),
{
    if members.len() == 0 {
        Seq::empty()
    } else if members.last().kind == kind {
        ids_of_kind(members.drop_last(), kind).push(members.last().uuid@)
    } else {
        ids_of_kind(members.drop_last(), kind)
    }
}

/// The plans that a cohort must try: everything at once, then the two halves
/// of a long list, then the kinds apart where both are represented.
pub open spec fn primary_plans(ranked: Seq<BundleMember>) -> Seq<Seq<Seq<char>>> {
    let ids = member_ids(ranked);
    let n = ids.len() as int;
    let whole = if n >= 2 {
        seq![ids]
    } else {
        Seq::empty()
    };
    let halves = if n >= DISJOINT_HALVES_MIN {
        seq![ids.take(n / 2), ids.skip(n / 2)]
    } else {
        Seq::empty()
    };
    let identity = ids_of_kind(ranked, CandidateKind::Identity);
    let ablation = ids_of_kind(ranked, CandidateKind::Ablation);
    let kinds = if identity.len() >= KIND_GROUP_MIN && ablation.len() >= KIND_GROUP_MIN {
        seq![identity, ablation]
    } else {
        Seq::empty()
    };
    whole + halves + kinds
}

/// The lengths `len`, twice that, and so on below `n`.
pub open spec fn doublings(len: int, n: int) -> Seq<int>
    decreases (if len < n {
        n - len
    } else {
        0
    }),
{
    if 0 < len < n {
        seq![len] + doublings(2 * len, n)
    } else {
        Seq::empty()
    }
}

/// The leading parts of the ranking whose length is a power of two, longest
/// first.
pub open spec fn nested_plans(ids: Seq<Seq<char>>) -> Seq<Seq<Seq<char>>> {
    let lengths = doublings(2, ids.len() as int);
    Seq::new(lengths.len(), |i: int| ids.take(lengths[lengths.len() - 1 - i]))
}

/// Plans collected so far, with the keys that were met.
pub struct Draft {
    /// The plans that were kept.
    pub plans: Seq<Seq<Seq<char>>>,
    /// The keys of all plans that were met.
    pub seen: Set<Seq<char>>,
    /// How many new plans the limit kept out.
    pub dropped: nat,
}

/// The key of a plan.
pub open spec fn plan_key(plan: Seq<Seq<char>>) -> Seq<char> {
    joined(plan, "\0"@)
}

/// One more plan: taken if it has two members at least, is new, and the limit
/// leaves room.
pub open spec fn with_plan(draft: Draft, plan: Seq<Seq<char>>) -> Draft {
    if plan.len() < 2 || draft.seen.contains(plan_key(plan)) {
        draft
    } else if draft.plans.len() >= MAX_BUNDLE_PLANS {
        Draft {
            plans: draft.plans,
            seen: draft.seen.insert(plan_key(plan)),
            dropped: draft.dropped + 1,
        }
    } else {
        Draft {
            plans: draft.plans.push(plan),
            seen: draft.seen.insert(plan_key(plan)),
            dropped: draft.dropped,
        }
    }
}

/// All of `plans`, one after another.
pub open spec fn with_plans(draft: Draft, plans: Seq<Seq<Seq<char>>>) -> Draft
    decreases plans.len(),
{
    if plans.len() == 0 {
        draft
    } else {
        with_plan(with_plans(draft, plans.drop_last()), plans.last())
    }
}

/// Nothing planned yet.
pub open spec fn no_plans() -> Draft {
    Draft { plans: Seq::empty(), seen: Set::empty(), dropped: 0 }
}

/// The draft after the plans that must be tried.
pub open spec fn primary_draft(members: Seq<BundleMember>) -> Draft {
    with_plans(no_plans(), primary_plans(sorted(members)))
}

/// The draft after all plans.
pub open spec fn full_draft(members: Seq<BundleMember>) -> Draft {
    with_plans(primary_draft(members), nested_plans(member_ids(sorted(members))))
}

/// The combinations of cuts that a cohort tries.
#[derive(Debug)]
pub struct BundlePlans {
    /// The plans, those that must be tried first.
    pub plans: Vec<Vec<String>>,
    /// How many of them must be tried.
    pub primary: usize,
    /// How many plans the limit kept out.
    pub dropped: usize,
}

/// Plans under construction, with the keys that were met.
struct Drafting {
    plans: Vec<Vec<String>>,
    seen: Vec<String>,
    dropped: usize,
}

impl Drafting {
    spec fn drafts(self, draft: Draft) -> bool {
        &&& text_lists(self.plans@) == draft.plans
        &&& texts(self.seen@).to_set() == draft.seen
        &&& self.dropped == draft.dropped
        &&& self.dropped + self.plans@.len() == self.seen@.len()
    }

    fn push(&mut self, plan: Vec<String>, Ghost(draft): Ghost<Draft>)
        requires
            old(self).drafts(draft),
        ensures
            final(self).drafts(with_plan(draft, texts(plan@))),
    {
        if plan.len() < 2 {
            return;
        }
        let key = join(&plan, "\0");
        let known = holds(&self.seen, &key);
        assert(known == draft.seen.contains(key@));
        if known {
            return;
        }
        let ghost keys = self.seen@;
        let ghost plans = self.plans@;
        self.seen.push(key);
        let total: usize = self.seen.len();
        proof {
            assert(texts(self.seen@) =~= texts(keys).push(key@));
            assert(texts(self.seen@).to_set() =~= texts(keys).to_set().insert(key@)) by {
                lemma_push_to_set(texts(keys), key@);
            }
        }
        if self.plans.len() >= MAX_BUNDLE_PLANS {
            self.dropped += 1;
        } else {
            self.plans.push(plan);
            assert(text_lists(self.plans@) =~= text_lists(plans).push(texts(plan@)));
        }
    }
}

proof fn lemma_push_to_set<T>(list: Seq<T>, x: T)
    ensures
        list.push(x).to_set() == list.to_set().insert(x),
{
    let all = list.push(x);
    assert forall|y: T| all.to_set().contains(y) <==> list.to_set().insert(x).contains(y) by {
        if all.contains(y) {
            let k = choose|k: int| 0 <= k < all.len() && all[k] == y;
            if k < list.len() {
                assert(list[k] == y);
            }
        }
        if list.contains(y) {
            let k = choose|k: int| 0 <= k < list.len() && list[k] == y;
            assert(all[k] == y);
        }
        assert(all[list.len() as int] == x);
    }
    assert(all.to_set() =~= list.to_set().insert(x));
}

fn ids_of(members: &Vec<BundleMember>) -> (r: Vec<String>)
    ensures
        texts(r@) == member_ids(members@),
{
    let mut out: Vec<String> = Vec::new();
    let mut i: usize = 0;
    while i < members.len()
        invariant
            i <= members@.len(),
            out@.len() == i,
            forall|k: int| 0 <= k < i ==> (#[trigger] out@[k])@ == members@[k].uuid@,
        decreases members.len() - i,
    {
        out.push(members[i].uuid.clone());
        i += 1;
    }
    assert(texts(out@) =~= member_ids(members@));
    out
}

fn kind_ids(members: &Vec<BundleMember>, kind: CandidateKind) -> (r: Vec<String>)
    ensures
        texts(r@) == ids_of_kind(members@, kind),
{
    let mut out: Vec<String> = Vec::new();
    let mut i: usize = 0;
    assert(texts(out@) =~= Seq::<Seq<char>>::empty());
    while i < members.len()
        invariant
            i <= members@.len(),
            texts(out@) == ids_of_kind(members@.take(i as int), kind),
        decreases members.len() - i,
    {
        let ghost before = out@;
        assert(members@.take(i + 1).drop_last() =~= members@.take(i as int));
        if members[i].kind == kind {
            out.push(members[i].uuid.clone());
            assert(texts(out@) =~= texts(before).push(members@[i as int].uuid@));
        }
        i += 1;
    }
    assert(members@.take(i as int) =~= members@);
    out
}

/// A copy of the members.
pub fn copy_members(members: &Vec<BundleMember>) -> (r: Vec<BundleMember>)
    ensures
        r@ == members@,
{
    let mut out: Vec<BundleMember> = Vec::new();
    let mut i: usize = 0;
    while i < members.len()
        invariant
            i <= members@.len(),
            out@ == members@.take(i as int),
        decreases members.len() - i,
    {
        out.push(members[i].copy());
        i += 1;
        assert(out@ =~= members@.take(i as int));
    }
    assert(members@.take(i as int) =~= members@);
    out
}

proof fn lemma_with_plans_push(draft: Draft, plans: Seq<Seq<Seq<char>>>, plan: Seq<Seq<char>>)
    ensures
        with_plans(draft, plans.push(plan)) == with_plan(with_plans(draft, plans), plan),
{
    assert(plans.push(plan).drop_last() =~= plans);
}

proof fn lemma_with_plans_add(
    draft: Draft,
    a: Seq<Seq<Seq<char>>>,
    b: Seq<Seq<Seq<char>>>,
)
    ensures
        with_plans(draft, a + b) == with_plans(with_plans(draft, a), b),
    decreases b.len(),
{
    if b.len() == 0 {
        assert(a + b =~= a);
    } else {
        assert((a + b).drop_last() =~= a + b.drop_last());
        lemma_with_plans_add(draft, a, b.drop_last());
    }
}

proof fn lemma_doublings_push(len: int, n: int, k: int)
    requires
        0 < len,
        0 <= k < doublings(len, n).len(),
    ensures
        0 < doublings(len, n)[k] < n,
        k + 1 < doublings(len, n).len() ==> doublings(len, n)[k + 1] == 2 * doublings(len, n)[k],
        k + 1 == doublings(len, n).len() ==> 2 * doublings(len, n)[k] >= n,
    decreases k,
{
    reveal_with_fuel(doublings, 3);
    if k == 0 {
        if 2 * len < n {
            assert(doublings(len, n)[1] == doublings(2 * len, n)[0]);
        } else {
            assert(doublings(2 * len, n).len() == 0);
        }
    } else {
        assert(doublings(len, n)[k] == doublings(2 * len, n)[k - 1]);
        lemma_doublings_push(2 * len, n, k - 1);
        if k + 1 < doublings(len, n).len() {
            assert(doublings(len, n)[k + 1] == doublings(2 * len, n)[k]);
        }
    }
}

fn doubling_lengths(n: usize) -> (r: Vec<usize>)
    ensures
        r@.len() == doublings(2, n as int).len(),
        forall|k: int|
            0 <= k < r@.len() ==> (#[trigger] r@[k]) as int == doublings(2, n as int)[k] && r@[k]
                < n,
{
    let mut out: Vec<usize> = Vec::new();
    if n <= 2 {
        return out;
    }
    let ghost all = doublings(2, n as int);
    let mut len: usize = 2;
    proof {
        reveal_with_fuel(doublings, 2);
        assert(all.len() > 0 && all[0] == 2);
        assert(all.take(0) =~= Seq::empty());
    }
    loop
        invariant_except_break
            out@.len() < all.len(),
            len == all[out@.len() as int],
        invariant
            n > 2,
            all == doublings(2, n as int),
            0 < len < n,
            forall|k: int|
                0 <= k < out@.len() ==> (#[trigger] out@[k]) as int == all[k] && out@[k] < n,
        ensures
            out@.len() == all.len(),
        decreases n - len,
    {
        proof {
            lemma_doublings_push(2, n as int, out@.len() as int);
        }
        out.push(len);
        if len > (n - 1) / 2 {
            proof {
                if out@.len() < all.len() {
                    lemma_doublings_push(2, n as int, out@.len() as int);
                }
            }
            break;
        }
        len = len * 2;
    }
    out
}

/// Plans which combinations of cuts a cohort tries.
pub fn bundle_plans(members: &Vec<BundleMember>) -> (r: BundlePlans)
    ensures
        text_lists(r.plans@) == full_draft(members@).plans,
        r.primary == primary_draft(members@).plans.len(),
        r.primary <= r.plans@.len(),
        r.dropped == full_draft(members@).dropped,
{
    let ranked = stable_sort(copy_members(members));
    let ids = ids_of(&ranked);
    let n: usize = ids.len();
    let ghost names = member_ids(ranked@);
    let mut out = Drafting { plans: Vec::new(), seen: Vec::new(), dropped: 0 };
    let ghost mut plans: Seq<Seq<Seq<char>>> = Seq::empty();
    proof {
        assert(names.len() == n);
        assert(text_lists(out.plans@) =~= Seq::empty());
        assert(texts(out.seen@) =~= Seq::empty());
        assert(texts(out.seen@).to_set() =~= Set::<Seq<char>>::empty());
        assert(out.drafts(with_plans(no_plans(), plans)));
    }
    if n >= 2 {
        let whole = copy_texts(&ids);
        let ghost draft = with_plans(no_plans(), plans);
        out.push(whole, Ghost(draft));
        proof {
            lemma_with_plans_push(no_plans(), plans, names);
            plans = plans.push(names);
        }
    }
    if n >= DISJOINT_HALVES_MIN {
        let half: usize = n / 2;
        let front = copy_range(&ids, 0, half);
        let back = copy_range(&ids, half, n);
        proof {
            assert(texts(front@) =~= names.take(half as int));
            assert(texts(back@) =~= names.skip(half as int));
        }
        let ghost draft = with_plans(no_plans(), plans);
        out.push(front, Ghost(draft));
        proof {
            lemma_with_plans_push(no_plans(), plans, names.take(half as int));
            plans = plans.push(names.take(half as int));
        }
        let ghost draft = with_plans(no_plans(), plans);
        out.push(back, Ghost(draft));
        proof {
            lemma_with_plans_push(no_plans(), plans, names.skip(half as int));
            plans = plans.push(names.skip(half as int));
        }
    }
    let identity = kind_ids(&ranked, CandidateKind::Identity);
    let ablation = kind_ids(&ranked, CandidateKind::Ablation);
    proof {
        assert(texts(identity@).len() == identity@.len());
        assert(texts(ablation@).len() == ablation@.len());
    }
    if identity.len() >= KIND_GROUP_MIN && ablation.len() >= KIND_GROUP_MIN {
        let ghost first = texts(identity@);
        let ghost second = texts(ablation@);
        let ghost draft = with_plans(no_plans(), plans);
        out.push(identity, Ghost(draft));
        proof {
            lemma_with_plans_push(no_plans(), plans, first);
            plans = plans.push(first);
        }
        let ghost draft = with_plans(no_plans(), plans);
        out.push(ablation, Ghost(draft));
        proof {
            lemma_with_plans_push(no_plans(), plans, second);
            plans = plans.push(second);
        }
    }
    proof {
        assert(plans =~= primary_plans(ranked@));
        assert(text_lists(out.plans@).len() == out.plans@.len());
    }
    let primary: usize = out.plans.len();
    let lengths = doubling_lengths(n);
    let ghost start = primary_draft(members@);
    let ghost nested = nested_plans(names);
    let mut left: usize = lengths.len();
    assert(nested.take(0) =~= Seq::empty());
    while left > 0
        invariant
            left <= lengths@.len(),
            n == ids@.len(),
            names == texts(ids@),
            nested == nested_plans(names),
            lengths@.len() == doublings(2, n as int).len(),
            forall|k: int|
                0 <= k < lengths@.len() ==> (#[trigger] lengths@[k]) as int == doublings(
                    2,
                    n as int,
                )[k] && lengths@[k] < n,
            primary <= out.plans@.len(),
            out.drafts(with_plans(start, nested.take(lengths@.len() - left))),
        decreases left,
    {
        let ghost done = lengths@.len() - left;
        left -= 1;
        let len: usize = lengths[left];
        let plan = copy_range(&ids, 0, len);
        let ghost draft = with_plans(start, nested.take(done));
        proof {
            assert(texts(plan@) =~= names.take(len as int));
            assert(nested[done] == names.take(len as int));
            assert(nested.take(done + 1) =~= nested.take(done).push(nested[done]));
            lemma_with_plans_push(start, nested.take(done), nested[done]);
        }
        let ghost count = out.plans@.len();
        out.push(plan, Ghost(draft));
        proof {
            assert(text_lists(out.plans@).len() == out.plans@.len());
            assert(draft.plans.len() == count);
        }
    }
    assert(nested.take(lengths@.len() as int) =~= nested);
    BundlePlans { plans: out.plans, primary, dropped: out.dropped }
}

/// What holds of a draft at every moment.
pub open spec fn tidy(draft: Draft) -> bool {
    &&& draft.plans.len() <= MAX_BUNDLE_PLANS
    &&& draft.seen.finite()
    &&& draft.plans.len() + draft.dropped == draft.seen.len()
    &&& forall|i: int|
        0 <= i < draft.plans.len() ==> (#[trigger] draft.plans[i]).len() >= 2
            && draft.seen.contains(plan_key(draft.plans[i]))
    &&& forall|i: int, j: int|
        #![trigger draft.plans[i], draft.plans[j]]
        0 <= i < j < draft.plans.len() ==> plan_key(draft.plans[i]) != plan_key(draft.plans[j])
}

proof fn lemma_with_plans_tidy(draft: Draft, plans: Seq<Seq<Seq<char>>>)
    requires
        tidy(draft),
    ensures
        tidy(with_plans(draft, plans)),
        draft.plans.is_prefix_of(with_plans(draft, plans).plans),
        draft.seen.subset_of(with_plans(draft, plans).seen),
        forall|i: int|
            0 <= i < plans.len() && (#[trigger] plans[i]).len() >= 2 ==> with_plans(
                draft,
                plans,
            ).seen.contains(plan_key(plans[i])),
    decreases plans.len(),
{
    if plans.len() > 0 {
        let init = plans.drop_last();
        lemma_with_plans_tidy(draft, init);
        let before = with_plans(draft, init);
        let after = with_plans(draft, plans);
        let plan = plans.last();
        assert(after == with_plan(before, plan));
        assert forall|i: int| 0 <= i < plans.len() && (
        #[trigger] plans[i]).len() >= 2 implies after.seen.contains(plan_key(plans[i])) by {
            if i < init.len() {
                assert(init[i] == plans[i]);
                assert(before.seen.contains(plan_key(init[i])));
            }
        }
        assert(draft.plans.is_prefix_of(after.plans)) by {
            assert(draft.plans =~= before.plans.subrange(0, draft.plans.len() as int));
            assert(draft.plans =~= after.plans.subrange(0, draft.plans.len() as int)) by {
                assert forall|i: int| 0 <= i < draft.plans.len() implies draft.plans[i]
                    == after.plans[i] by {
                    assert(draft.plans[i] == before.plans.subrange(
                        0,
                        draft.plans.len() as int,
                    )[i]);
                }
            }
        }
    } else {
        assert(draft.plans =~= draft.plans.subrange(0, draft.plans.len() as int));
    }
}

/// Plans are few, distinct and never of a single cut; the plans that must be
/// tried stand first; and every combination that was met is either planned or
/// counted as dropped.
pub proof fn law_plans_are_bounded_and_accounted_for(members: Seq<BundleMember>)
    ensures
        tidy(primary_draft(members)),
        tidy(full_draft(members)),
        primary_draft(members).plans.is_prefix_of(full_draft(members).plans),
        forall|i: int|
            0 <= i < primary_plans(sorted(members)).len() && (#[trigger] primary_plans(
                sorted(members),
            )[i]).len() >= 2 ==> full_draft(members).seen.contains(
                plan_key(primary_plans(sorted(members))[i]),
            ),
        forall|i: int|
            0 <= i < nested_plans(member_ids(sorted(members))).len() && (#[trigger] nested_plans(
                member_ids(sorted(members)),
            )[i]).len() >= 2 ==> full_draft(members).seen.contains(
                plan_key(nested_plans(member_ids(sorted(members)))[i]),
            ),
{
    assert(tidy(no_plans()));
    lemma_with_plans_tidy(no_plans(), primary_plans(sorted(members)));
    lemma_with_plans_tidy(primary_draft(members), nested_plans(member_ids(sorted(members))));
}

/// With two members or more, the first plan cuts everything at once.
pub proof fn law_first_plan_cuts_everything(members: Seq<BundleMember>)
    requires
        members.len() >= 2,
    ensures
        primary_draft(members).plans.len() > 0,
        full_draft(members).plans.len() > 0,
        full_draft(members).plans[0] == member_ids(sorted(members)),
{
    law_sorted_is_a_permutation(members);
    let ranked = sorted(members);
    let ids = member_ids(ranked);
    let plans = primary_plans(ranked);
    assert(plans[0] == ids);
    assert(plans =~= seq![ids] + plans.skip(1));
    lemma_with_plans_add(no_plans(), seq![ids], plans.skip(1));
    reveal_with_fuel(with_plans, 2);
    let first = with_plans(no_plans(), seq![ids]);
    assert(seq![ids].drop_last() =~= Seq::empty());
    assert(first == with_plan(no_plans(), ids));
    assert(tidy(no_plans()));
    lemma_with_plans_tidy(no_plans(), seq![ids]);
    lemma_with_plans_tidy(first, plans.skip(1));
    let primary = primary_draft(members);
    assert(first.plans[0] == primary.plans.subrange(0, 1)[0]);
    lemma_with_plans_tidy(primary, nested_plans(ids));
    assert(primary.plans[0] == full_draft(members).plans.subrange(
        0,
        primary.plans.len() as int,
    )[0]);
}

/// The two halves of a ranking make up the whole, and where no uuid occurs
/// twice they share none.
pub proof fn law_halves_are_disjoint_and_complete(ids: Seq<Seq<char>>)
    requires
        forall|i: int, j: int|
            #![trigger ids[i], ids[j]]
            0 <= i < j < ids.len() ==> ids[i] != ids[j],
    ensures
        ids.take(ids.len() as int / 2) + ids.skip(ids.len() as int / 2) == ids,
        forall|x: Seq<char>|
            ids.take(ids.len() as int / 2).contains(x) ==> !#[trigger] ids.skip(
                ids.len() as int / 2,
            ).contains(x),
{
    let half = ids.len() as int / 2;
    let a = ids.take(half);
    let b = ids.skip(half);
    assert(a + b =~= ids);
    assert forall|x: Seq<char>| a.contains(x) implies !#[trigger] b.contains(x) by {
        if b.contains(x) {
            let i = choose|i: int| 0 <= i < a.len() && a[i] == x;
            let j = choose|j: int| 0 <= j < b.len() && b[j] == x;
            assert(ids[i] != ids[half + j]);
        }
    }
}

/// Where every gain compares, a plan lists its cuts best first.
pub proof fn law_plans_are_best_first(members: Seq<BundleMember>)
    requires
        forall|i: int| 0 <= i < members.len() ==> !(#[trigger] members[i]).delta.nan(),
    ensures
        in_order(sorted(members)),
        forall|i: int, j: int|
            #![trigger sorted(members)[i], sorted(members)[j]]
            0 <= i < j < members.len() ==> sorted(members)[j].delta.at_most(
                sorted(members)[i].delta,
            ),
{
    law_members_are_well_ranked(members);
    law_sorted_is_in_order(members);
    law_sorted_is_a_permutation(members);
    let out = sorted(members);
    assert forall|i: int, j: int|
        #![trigger out[i], out[j]]
        0 <= i < j < members.len() implies out[j].delta.at_most(out[i].delta) by {
        assert(out.contains(out[i]) && out.contains(out[j]));
        assert(members.contains(out[i]) && members.contains(out[j]));
        let a = choose|a: int| 0 <= a < members.len() && members[a] == out[i];
        let b = choose|b: int| 0 <= b < members.len() && members[b] == out[j];
        assert(!members[a].delta.nan() && !members[b].delta.nan());
        assert(!out[j].before(out[i]));
    }
}

/// A length that a replay of `n` known wins tries.
pub open spec fn replay_length(n: int, len: int) -> bool {
    &&& 2 <= len <= n
    &&& len == n || len == n - 1 || len == n / 2 || len == 16 || len == 8 || len == 4
}

/// The plans of a replay: for every such length, longest first, the leading
/// part of the wins.
pub open spec fn replays(applied: Seq<Seq<char>>, plans: Seq<Vec<String>>) -> bool {
    &&& plans.len() <= MAX_REPLAY_PLANS
    &&& forall|i: int|
        0 <= i < plans.len() ==> replay_length(
            applied.len() as int,
            (#[trigger] plans[i])@.len() as int,
        ) && texts(plans[i]@) == applied.take(plans[i]@.len() as int)
    &&& forall|i: int, j: int|
        #![trigger plans[i], plans[j]]
        0 <= i < j < plans.len() ==> plans[i]@.len() > plans[j]@.len()
    &&& forall|len: int|
        #[trigger] replay_length(applied.len() as int, len) ==> exists|i: int|
            0 <= i < plans.len() && (#[trigger] plans[i])@.len() == len
}

fn add_length(lengths: &mut Vec<usize>, n: usize, len: usize)
    requires
        old(lengths)@.len() < MAX_REPLAY_PLANS,
        forall|i: int, j: int|
            #![trigger old(lengths)@[i], old(lengths)@[j]]
            0 <= i < j < old(lengths)@.len() ==> old(lengths)@[i] > old(lengths)@[j],
    ensures
        final(lengths)@.len() <= old(lengths)@.len() + 1,
        forall|i: int, j: int|
            #![trigger final(lengths)@[i], final(lengths)@[j]]
            0 <= i < j < final(lengths)@.len() ==> final(lengths)@[i] > final(lengths)@[j],
        forall|x: usize|
            #[trigger] final(lengths)@.contains(x) <==> old(lengths)@.contains(x) || (x == len && 2
                <= len <= n),
{
    if len < 2 || len > n {
        return;
    }
    let ghost before = lengths@;
    let mut at: usize = 0;
    while at < lengths.len() && lengths[at] > len
        invariant
            at <= lengths@.len(),
            lengths@ == before,
            forall|k: int| 0 <= k < at ==> lengths@[k] > len,
        decreases lengths.len() - at,
    {
        at += 1;
    }
    if at < lengths.len() && lengths[at] == len {
        assert(before.contains(len)) by {
            assert(before[at as int] == len);
        }
        return;
    }
    lengths.insert(at, len);
    proof {
        let after = lengths@;
        assert forall|x: usize| #[trigger] after.contains(x) <==> before.contains(x) || x == len by {
            if after.contains(x) {
                let k = choose|k: int| 0 <= k < after.len() && after[k] == x;
                if k < at {
                    assert(before[k] == x);
                } else if k > at {
                    assert(before[k - 1] == x);
                }
            }
            if before.contains(x) {
                let k = choose|k: int| 0 <= k < before.len() && before[k] == x;
                if k < at {
                    assert(after[k] == x);
                } else {
                    assert(after[k + 1] == x);
                }
            }
            assert(after[at as int] == len);
        }
    }
}

/// The plans of a replay: the known wins all together, then ever fewer of the
/// best of them.
pub fn replay_plans(applied: &Vec<String>) -> (r: Vec<Vec<String>>)
    ensures
        replays(texts(applied@), r@),
{
    let n: usize = applied.len();
    let mut out: Vec<Vec<String>> = Vec::new();
    if n < 2 {
        return out;
    }
    let mut lengths: Vec<usize> = Vec::new();
    add_length(&mut lengths, n, n);
    add_length(&mut lengths, n, n - 1);
    add_length(&mut lengths, n, n / 2);
    add_length(&mut lengths, n, 16);
    add_length(&mut lengths, n, 8);
    add_length(&mut lengths, n, 4);
    proof {
        assert forall|i: int| 0 <= i < lengths@.len() implies replay_length(
            n as int,
            #[trigger] lengths@[i] as int,
        ) by {
            assert(lengths@.contains(lengths@[i]));
        }
    }
    let mut i: usize = 0;
    while i < lengths.len()
        invariant
            n == applied@.len(),
            i <= lengths@.len(),
            out@.len() == i,
            forall|k: int|
                0 <= k < lengths@.len() ==> replay_length(
                    n as int,
                    #[trigger] lengths@[k] as int,
                ),
            forall|k: int|
                0 <= k < i ==> (#[trigger] out@[k])@.len() == lengths@[k] && texts(out@[k]@)
                    == texts(applied@).take(lengths@[k] as int),
        decreases lengths.len() - i,
    {
        let len: usize = lengths[i];
        assert(replay_length(n as int, lengths@[i as int] as int));
        let plan = copy_range(applied, 0, len);
        proof {
            assert(texts(applied@).subrange(0, len as int) =~= texts(applied@).take(len as int));
            assert(texts(plan@).len() == plan@.len());
        }
        out.push(plan);
        i += 1;
    }
    proof {
        assert forall|i: int, j: int|
            #![trigger out@[i], out@[j]]
            0 <= i < j < out@.len() implies out@[i]@.len() > out@[j]@.len() by {
            assert(lengths@[i] > lengths@[j]);
        }
        assert forall|len: int| #[trigger] replay_length(n as int, len) implies exists|i: int|
            0 <= i < out@.len() && (#[trigger] out@[i])@.len() == len by {
            assert(lengths@.contains(len as usize));
            let k = choose|k: int| 0 <= k < lengths@.len() && lengths@[k] == len as usize;
            assert(out@[k]@.len() == len);
        }
    }
    out
}

/// One entry of a cohort.
#[derive(Debug)]
pub enum Entry {
    /// The sampled winner at this place, on its own.
    Individual(usize),
    /// A combination of cuts.
    Bundle(Vec<String>),
    /// A neighbourhood that is cut at once.
    Group(Vec<String>),
}

/// What a list of entries holds.
pub enum EntryView {
    /// The sampled winner at this place.
    Individual(int),
    /// A combination of cuts.
    Bundle(Seq<Seq<char>>),
    /// A neighbourhood that is cut at once.
    Group(Seq<Seq<char>>),
}

impl Entry {
    /// What the entry holds.
    pub open spec fn content(self) -> EntryView {
        match self {
            Entry::Individual(at) => EntryView::Individual(at as int),
            Entry::Bundle(plan) => EntryView::Bundle(texts(plan@)),
            Entry::Group(plan) => EntryView::Group(texts(plan@)),
        }
    }
}

/// What the entries hold.
pub open spec fn contents(entries: Seq<Entry>) -> Seq<EntryView> {
    Seq::new(entries.len(), |i: int| entries[i].content())
}

/// A sampled winner's place, with what it is ranked by.
pub struct SampleRank {
    /// The place of the winner.
    pub at: usize,
    /// What the cut gained on the sample.
    pub delta: Measure,
    /// The neuron that it cuts.
    pub uuid: String,
}

impl Ranked for SampleRank {
    open spec fn before(self, other: SampleRank) -> bool {
        leads(self.delta, self.uuid@, other.delta, other.uuid@)
    }

    fn is_before(&self, other: &SampleRank) -> (b: bool) {
        other.delta.lt(self.delta) || (!self.delta.lt(other.delta) && is_text_below(
            self.uuid.as_str(),
            other.uuid.as_str(),
        ))
    }
}

/// The winners' places with what they are ranked by.
pub open spec fn sample_ranks(sampled: Seq<SampledWinner>) -> Seq<SampleRank> {
    Seq::new(
        sampled.len(),
        |i: int|
            SampleRank {
                at: i as usize,
                delta: sampled[i].delta,
                uuid: sampled[i].candidate.uuid,
            },
    )
}

/// At most `most` of the list, from its start; all of it without a limit.
pub open spec fn capped<T>(list: Seq<T>, most: Option<usize>) -> Seq<T> {
    match most {
        Some(cap) => if list.len() <= cap {
            list
        } else {
            list.take(cap as int)
        },
        None => list,
    }
}

/// The places of the ranked winners that cut a neighbourhood, or of those that
/// cut one neuron.
pub open spec fn ranked_places(
    ranked: Seq<SampleRank>,
    sampled: Seq<SampledWinner>,
    group: bool,
) -> Seq<int>
    decreases ranked.len(),
{
    if ranked.len() == 0 {
        Seq::empty()
    } else {
        let before = ranked_places(ranked.drop_last(), sampled, group);
        let at = ranked.last().at as int;
        if (sampled[at].candidate.kind == CandidateKind::Group) == group {
            before.push(at)
        } else {
            before
        }
    }
}

/// The places of the winners that cut one neuron, best first.
pub open spec fn single_places(sampled: Seq<SampledWinner>) -> Seq<int> {
    ranked_places(sorted(sample_ranks(sampled)), sampled, false)
}

/// What the winners that cut a neighbourhood cut, best first.
pub open spec fn sampled_groups(sampled: Seq<SampledWinner>) -> Seq<Seq<Seq<char>>> {
    member_lists(sampled, ranked_places(sorted(sample_ranks(sampled)), sampled, true))
}

/// What the winners at these places cut.
pub open spec fn member_lists(sampled: Seq<SampledWinner>, at: Seq<int>) -> Seq<Seq<Seq<char>>> {
    Seq::new(at.len(), |i: int| texts(sampled[at[i]].candidate.members@))
}

/// The winners that are scored on their own: best first, up to the limit.
pub open spec fn individuals(
    sampled: Seq<SampledWinner>,
    max_individuals: Option<usize>,
) -> Seq<EntryView> {
    let places = capped(single_places(sampled), max_individuals);
    Seq::new(places.len(), |i: int| EntryView::Individual(places[i]))
}

/// The plans as entries.
pub open spec fn bundles(plans: Seq<Seq<Seq<char>>>) -> Seq<EntryView> {
    Seq::new(plans.len(), |i: int| EntryView::Bundle(plans[i]))
}

/// The neighbourhoods as entries.
pub open spec fn groups(plans: Seq<Seq<Seq<char>>>) -> Seq<EntryView> {
    Seq::new(plans.len(), |i: int| EntryView::Group(plans[i]))
}

/// A list holds a member with this uuid.
pub open spec fn names_member(members: Seq<BundleMember>, uuid: Seq<char>) -> bool {
    exists|i: int| 0 <= i < members.len() && (#[trigger] members[i]).uuid@ == uuid
}

/// A cut of one neuron.
pub open spec fn cuts_one() -> spec_fn(BundleMember) -> bool {
    |m: BundleMember| m.kind != CandidateKind::Group
}

/// Everything that bundles draw on: the fresh winners that cut one neuron, then
/// those carried over that are not among them. A neighbourhood says nothing
/// about what its members do one at a time.
pub open spec fn bundle_pool(
    sampled: Seq<SampledWinner>,
    pool: Seq<BundleMember>,
) -> Seq<BundleMember> {
    let fresh = winner_members(sampled).filter(cuts_one());
    fresh + pool.filter(|m: BundleMember| !names_member(fresh, m.uuid@))
}

/// All entries of a cohort, the ones that matter most first.
pub open spec fn ordered_entries(
    sampled: Seq<SampledWinner>,
    group_plans: Seq<Seq<Seq<char>>>,
    extra_plans: Seq<Seq<Seq<char>>>,
    max_individuals: Option<usize>,
    pool: Seq<BundleMember>,
) -> Seq<EntryView> {
    let members = bundle_pool(sampled, pool);
    let plans = full_draft(members).plans;
    let primary = primary_draft(members).plans.len() as int;
    groups(sampled_groups(sampled) + group_plans) + bundles(extra_plans) + bundles(
        plans.take(primary),
    ) + individuals(sampled, max_individuals) + bundles(plans.skip(primary))
}

/// How many entries a cohort keeps: at least one.
pub open spec fn kept_entries(total: int, max_entries: Option<usize>) -> int {
    match max_entries {
        Some(max) => {
            let keep = if max == 0 {
                1int
            } else {
                max as int
            };
            if total < keep {
                total
            } else {
                keep
            }
        },
        None => total,
    }
}

/// How many of the entries are individuals.
pub open spec fn individual_count(entries: Seq<EntryView>) -> nat
    decreases entries.len(),
{
    if entries.len() == 0 {
        0
    } else {
        individual_count(entries.drop_last()) + if entries.last() is Individual {
            1nat
        } else {
            0nat
        }
    }
}

/// The winners that the entries score on their own, in order.
pub open spec fn individual_places(entries: Seq<EntryView>) -> Seq<int>
    decreases entries.len(),
{
    if entries.len() == 0 {
        Seq::empty()
    } else {
        let head = individual_places(entries.drop_last());
        match entries.last() {
            EntryView::Individual(at) => head.push(at),
            _ => head,
        }
    }
}

/// The neighbourhoods that the entries score, in order.
pub open spec fn group_list(entries: Seq<EntryView>) -> Seq<Seq<Seq<char>>>
    decreases entries.len(),
{
    if entries.len() == 0 {
        Seq::empty()
    } else {
        let head = group_list(entries.drop_last());
        match entries.last() {
            EntryView::Group(plan) => head.push(plan),
            _ => head,
        }
    }
}

/// The combinations that the entries score, in order.
pub open spec fn bundle_list(entries: Seq<EntryView>) -> Seq<Seq<Seq<char>>>
    decreases entries.len(),
{
    if entries.len() == 0 {
        Seq::empty()
    } else {
        let head = bundle_list(entries.drop_last());
        match entries.last() {
            EntryView::Bundle(plan) => head.push(plan),
            _ => head,
        }
    }
}

/// What a cohort scores and what it leaves out.
#[derive(Debug)]
pub struct Cohort {
    /// Places of the winners that are scored on their own.
    pub individuals: Vec<usize>,
    /// The combinations that are scored.
    pub bundles: Vec<Vec<String>>,
    /// The neighbourhoods that are scored.
    pub groups: Vec<Vec<String>>,
    /// Individuals that the budget left out.
    pub dropped_individuals: usize,
    /// Combinations and neighbourhoods that the budget left out.
    pub dropped_bundles: usize,
    /// Plans that the plan limit left out.
    pub capped_plans: usize,
}

/// How a cohort is put together and judged.
#[derive(Debug)]
pub struct FullConfig {
    /// How far a winner must be ahead at least.
    pub min_improvement: Measure,
    /// Plans to try besides those that are drawn up here.
    pub extra_plans: Vec<Vec<String>>,
    /// Neighbourhoods to try besides those that were sampled.
    pub group_plans: Vec<Vec<String>>,
    /// Most winners that are scored on their own.
    pub max_individuals: Option<usize>,
    /// Confirmed winners of earlier batches.
    pub pool: Vec<BundleMember>,
    /// Most entries that the budget pays for.
    pub max_entries: Option<usize>,
}

impl FullConfig {
    /// No plans of the caller's, no limits and nothing carried over.
    pub fn new(min_improvement: Measure) -> (r: FullConfig)
        ensures
            r.min_improvement == min_improvement,
            r.extra_plans@.len() == 0,
            r.group_plans@.len() == 0,
            r.max_individuals is None,
            r.pool@.len() == 0,
            r.max_entries is None,
    {
        FullConfig {
            min_improvement,
            extra_plans: Vec::new(),
            group_plans: Vec::new(),
            max_individuals: None,
            pool: Vec::new(),
            max_entries: None,
        }
    }
}

/// The plans as entries of one sort.
spec fn plan_entries(plans: Seq<Seq<Seq<char>>>, group: bool) -> Seq<EntryView> {
    if group {
        groups(plans)
    } else {
        bundles(plans)
    }
}

fn push_plans(
    entries: &mut Vec<Entry>,
    plans: &Vec<Vec<String>>,
    from: usize,
    to: usize,
    group: bool,
)
    requires
        from <= to <= plans@.len(),
    ensures
        contents(final(entries)@) == contents(old(entries)@) + plan_entries(
            text_lists(plans@).subrange(from as int, to as int),
            group,
        ),
{
    let ghost before = contents(entries@);
    let ghost all = plan_entries(text_lists(plans@).subrange(from as int, to as int), group);
    let mut i: usize = from;
    assert(before + all.take(0) =~= before);
    while i < to
        invariant
            from <= i <= to <= plans@.len(),
            all == plan_entries(text_lists(plans@).subrange(from as int, to as int), group),
            contents(entries@) == before + all.take(i - from),
        decreases to - i,
    {
        let ghost so_far = entries@;
        let plan = copy_texts(&plans[i]);
        if group {
            entries.push(Entry::Group(plan));
        } else {
            entries.push(Entry::Bundle(plan));
        }
        proof {
            assert(contents(entries@) =~= contents(so_far).push(all[i - from]));
            assert(before + all.take(i - from + 1) =~= (before + all.take(i - from)).push(
                all[i - from],
            ));
        }
        i += 1;
    }
    assert(all.take(to - from) =~= all);
}

fn rank_samples(sampled: &Vec<SampledWinner>) -> (r: Vec<SampleRank>)
    ensures
        r@ == sample_ranks(sampled@),
{
    let mut out: Vec<SampleRank> = Vec::new();
    let mut i: usize = 0;
    while i < sampled.len()
        invariant
            i <= sampled@.len(),
            out@ == sample_ranks(sampled@).take(i as int),
        decreases sampled.len() - i,
    {
        out.push(
            SampleRank {
                at: i,
                delta: sampled[i].delta,
                uuid: sampled[i].candidate.uuid.clone(),
            },
        );
        i += 1;
        assert(out@ =~= sample_ranks(sampled@).take(i as int));
    }
    assert(sample_ranks(sampled@).take(i as int) =~= sample_ranks(sampled@));
    out
}

fn is_named(members: &Vec<BundleMember>, uuid: &String, upto: usize) -> (r: bool)
    requires
        upto <= members@.len(),
    ensures
        r == names_member(members@.take(upto as int), uuid@),
{
    let mut i: usize = 0;
    while i < upto
        invariant
            i <= upto <= members@.len(),
            forall|k: int| 0 <= k < i ==> (#[trigger] members@[k]).uuid@ != uuid@,
        decreases upto - i,
    {
        if members[i].uuid == *uuid {
            assert(members@.take(upto as int)[i as int].uuid@ == uuid@);
            return true;
        }
        i += 1;
    }
    false
}

fn fresh_members(sampled: &Vec<SampledWinner>) -> (r: Vec<BundleMember>)
    ensures
        r@ == winner_members(sampled@).filter(cuts_one()),
{
    let members = members_of(sampled);
    let mut keep: Vec<bool> = Vec::new();
    let mut i: usize = 0;
    while i < members.len()
        invariant
            i <= members@.len(),
            keep@.len() == i,
            forall|k: int|
                0 <= k < i ==> (#[trigger] keep@[k]) == (members@[k].kind != CandidateKind::Group),
        decreases members.len() - i,
    {
        keep.push(members[i].kind != CandidateKind::Group);
        i += 1;
    }
    proof {
        let test = cuts_one();
        assert forall|k: int| 0 <= k < members@.len() implies keep@[k] == test(
            #[trigger] members@[k],
        ) by {
            assert(keep@[k] == (members@[k].kind != CandidateKind::Group));
        }
        lemma_marked_is_filter(members@, keep@, test);
    }
    retain_marked(members, &keep)
}

fn pool_members(sampled: &Vec<SampledWinner>, pool: &Vec<BundleMember>) -> (r: Vec<BundleMember>)
    ensures
        r@ == bundle_pool(sampled@, pool@),
{
    let mut members = fresh_members(sampled);
    let fresh: usize = members.len();
    let ghost own = members@;
    let ghost test = |m: BundleMember| !names_member(own, m.uuid@);
    let mut i: usize = 0;
    proof {
        reveal(Seq::filter);
        assert(pool@.take(0).filter(test) =~= Seq::empty());
        assert(own + pool@.take(0).filter(test) =~= own);
    }
    while i < pool.len()
        invariant
            i <= pool@.len(),
            fresh == own.len(),
            test == (|m: BundleMember| !names_member(own, m.uuid@)),
            members@ == own + pool@.take(i as int).filter(test),
        decreases pool.len() - i,
    {
        let ghost before = members@;
        proof {
            assert(members@.take(fresh as int) =~= own);
            assert(pool@.take(i + 1).drop_last() =~= pool@.take(i as int));
            assert(pool@.take(i + 1).last() == pool@[i as int]);
            reveal(Seq::filter);
        }
        if !is_named(&members, &pool[i].uuid, fresh) {
            members.push(pool[i].copy());
            assert(test(pool@[i as int]));
            assert(members@ =~= own + pool@.take(i + 1).filter(test));
        } else {
            assert(!test(pool@[i as int]));
        }
        i += 1;
    }
    assert(pool@.take(i as int) =~= pool@);
    members
}

fn count_individuals(entries: &Vec<Entry>, from: usize) -> (r: (usize, usize))
    requires
        from <= entries@.len(),
    ensures
        r.0 == individual_count(contents(entries@).skip(from as int)),
        r.0 + r.1 == entries@.len() - from,
{
    let mut alone: usize = 0;
    let mut together: usize = 0;
    let mut i: usize = from;
    let ghost all = contents(entries@).skip(from as int);
    assert(all.take(0) =~= Seq::empty());
    while i < entries.len()
        invariant
            from <= i <= entries@.len(),
            all == contents(entries@).skip(from as int),
            alone == individual_count(all.take(i - from)),
            alone + together == i - from,
        decreases entries.len() - i,
    {
        proof {
            assert(all.take(i - from + 1).drop_last() =~= all.take(i - from));
            assert(all.take(i - from + 1).last() == entries@[i as int].content());
        }
        match &entries[i] {
            Entry::Individual(_) => {
                alone += 1;
            },
            _ => {
                together += 1;
            },
        }
        i += 1;
    }
    assert(all.take(entries@.len() - from) =~= all);
    (alone, together)
}

proof fn lemma_ranked_places(sampled: Seq<SampledWinner>)
    requires
        sampled.len() <= usize::MAX,
    ensures
        forall|i: int|
            0 <= i < sorted(sample_ranks(sampled)).len() ==> (#[trigger] sorted(
                sample_ranks(sampled),
            )[i]).at < sampled.len(),
{
    let ranks = sample_ranks(sampled);
    let out = sorted(ranks);
    law_sorted_is_a_permutation(ranks);
    ranks.to_multiset_ensures();
    out.to_multiset_ensures();
    assert forall|i: int| 0 <= i < out.len() implies (#[trigger] out[i]).at < sampled.len() by {
        assert(out.contains(out[i]));
        assert(ranks.contains(out[i]));
    }
}

proof fn lemma_places_bounded(
    ranked: Seq<SampleRank>,
    sampled: Seq<SampledWinner>,
    group: bool,
)
    requires
        forall|i: int| 0 <= i < ranked.len() ==> (#[trigger] ranked[i]).at < sampled.len(),
    ensures
        forall|i: int|
            0 <= i < ranked_places(ranked, sampled, group).len() ==> 0 <= #[trigger] ranked_places(
                ranked,
                sampled,
                group,
            )[i] < sampled.len(),
        ranked_places(ranked, sampled, group).len() <= ranked.len(),
    decreases ranked.len(),
{
    if ranked.len() > 0 {
        let init = ranked.drop_last();
        assert forall|i: int| 0 <= i < init.len() implies (#[trigger] init[i]).at
            < sampled.len() by {
            assert(init[i] == ranked[i]);
        }
        lemma_places_bounded(init, sampled, group);
        assert(ranked[ranked.len() - 1].at < sampled.len());
    }
}

spec fn numbers(places: Seq<usize>) -> Seq<int> {
    Seq::new(places.len(), |i: int| places[i] as int)
}

fn part_winners(sampled: &Vec<SampledWinner>) -> (r: (Vec<usize>, Vec<Vec<String>>))
    ensures
        numbers(r.0@) == single_places(sampled@),
        text_lists(r.1@) == sampled_groups(sampled@),
        forall|i: int| 0 <= i < r.0@.len() ==> (#[trigger] r.0@[i]) < sampled@.len(),
{
    let n: usize = sampled.len();
    let ranked = stable_sort(rank_samples(sampled));
    proof {
        lemma_ranked_places(sampled@);
    }
    let mut singles: Vec<usize> = Vec::new();
    let mut together: Vec<Vec<String>> = Vec::new();
    let mut i: usize = 0;
    let ghost mut at: Seq<int> = Seq::empty();
    proof {
        assert(numbers(singles@) =~= ranked_places(ranked@.take(0), sampled@, false));
        assert(text_lists(together@) =~= Seq::empty());
    }
    while i < ranked.len()
        invariant
            i <= ranked@.len(),
            forall|k: int| 0 <= k < ranked@.len() ==> (#[trigger] ranked@[k]).at < sampled@.len(),
            numbers(singles@) == ranked_places(ranked@.take(i as int), sampled@, false),
            at == ranked_places(ranked@.take(i as int), sampled@, true),
            text_lists(together@) == member_lists(sampled@, at),
            forall|k: int| 0 <= k < singles@.len() ==> (#[trigger] singles@[k]) < sampled@.len(),
        decreases ranked.len() - i,
    {
        let place: usize = ranked[i].at;
        proof {
            assert(ranked@.take(i + 1).drop_last() =~= ranked@.take(i as int));
            assert(ranked@.take(i + 1).last() == ranked@[i as int]);
        }
        if sampled[place].candidate.is_group() {
            let ghost before = together@;
            let whole = copy_texts(&sampled[place].candidate.members);
            together.push(whole);
            proof {
                let more = at.push(place as int);
                assert(text_lists(together@) =~= text_lists(before).push(texts(whole@)));
                assert(member_lists(sampled@, more) =~= member_lists(sampled@, at).push(
                    texts(whole@),
                ));
                at = more;
            }
        } else {
            let ghost before = singles@;
            singles.push(place);
            assert(numbers(singles@) =~= numbers(before).push(place as int));
        }
        i += 1;
    }
    assert(ranked@.take(i as int) =~= ranked@);
    (singles, together)
}

/// All entries that a cohort could score, the ones that matter most first.
pub open spec fn cohort_entries(sampled: Seq<SampledWinner>, cfg: FullConfig) -> Seq<EntryView> {
    ordered_entries(
        sampled,
        text_lists(cfg.group_plans@),
        text_lists(cfg.extra_plans@),
        cfg.max_individuals,
        cfg.pool@,
    )
}

/// The cohort that is put together of these winners.
pub open spec fn plans_cohort(
    sampled: Seq<SampledWinner>,
    cfg: FullConfig,
    cohort: Cohort,
) -> bool {
    let all = cohort_entries(sampled, cfg);
    let keep = kept_entries(all.len() as int, cfg.max_entries);
    &&& Seq::new(cohort.individuals@.len(), |i: int| cohort.individuals@[i] as int)
        == individual_places(all.take(keep))
    &&& text_lists(cohort.bundles@) == bundle_list(all.take(keep))
    &&& text_lists(cohort.groups@) == group_list(all.take(keep))
    &&& cohort.dropped_individuals == individual_count(all.skip(keep))
    &&& cohort.dropped_individuals + cohort.dropped_bundles == all.len() - keep
    &&& cohort.capped_plans == full_draft(bundle_pool(sampled, cfg.pool@)).dropped
}

/// Puts a cohort together: which winners are scored on their own, which
/// combinations and neighbourhoods are scored, and what is left out.
pub fn plan_cohort(sampled: &Vec<SampledWinner>, cfg: &FullConfig) -> (r: Cohort)
    ensures
        plans_cohort(sampled@, *cfg, r),
        forall|i: int|
            0 <= i < r.individuals@.len() ==> (#[trigger] r.individuals@[i]) < sampled@.len(),
        r.individuals@.len() + r.bundles@.len() + r.groups@.len() <= usize::MAX,
{
    let (mut singles, together) = part_winners(sampled);
    match cfg.max_individuals {
        Some(cap) => {
            if singles.len() > cap {
                singles.truncate(cap);
                assert(numbers(singles@) =~= single_places(sampled@).take(cap as int));
            }
        },
        None => {},
    }
    assert(numbers(singles@) == capped(single_places(sampled@), cfg.max_individuals));
    let members = pool_members(sampled, &cfg.pool);
    let plans = bundle_plans(&members);
    let ghost drafted = full_draft(members@).plans;
    let mut ordered: Vec<Entry> = Vec::new();
    assert(contents(ordered@) =~= Seq::empty());
    push_plans(&mut ordered, &together, 0, together.len(), true);
    push_plans(&mut ordered, &cfg.group_plans, 0, cfg.group_plans.len(), true);
    let ghost first = groups(sampled_groups(sampled@) + text_lists(cfg.group_plans@));
    proof {
        assert(text_lists(together@).subrange(0, together@.len() as int) =~= text_lists(
            together@,
        ));
        assert(text_lists(cfg.group_plans@).subrange(0, cfg.group_plans@.len() as int)
            =~= text_lists(cfg.group_plans@));
        assert(contents(ordered@) =~= first);
    }
    push_plans(&mut ordered, &cfg.extra_plans, 0, cfg.extra_plans.len(), false);
    push_plans(&mut ordered, &plans.plans, 0, plans.primary, false);
    let ghost head = contents(ordered@);
    let ghost alone = individuals(sampled@, cfg.max_individuals);
    let mut i: usize = 0;
    assert(head + alone.take(0) =~= head);
    while i < singles.len()
        invariant
            i <= singles@.len(),
            numbers(singles@) == capped(single_places(sampled@), cfg.max_individuals),
            alone == individuals(sampled@, cfg.max_individuals),
            contents(ordered@) == head + alone.take(i as int),
        decreases singles.len() - i,
    {
        let ghost so_far = ordered@;
        ordered.push(Entry::Individual(singles[i]));
        proof {
            assert(numbers(singles@)[i as int] == singles@[i as int]);
            assert(contents(ordered@) =~= contents(so_far).push(alone[i as int]));
            assert(head + alone.take(i + 1) =~= (head + alone.take(i as int)).push(
                alone[i as int],
            ));
        }
        i += 1;
    }
    push_plans(&mut ordered, &plans.plans, plans.primary, plans.plans.len(), false);
    let ghost all = cohort_entries(sampled@, *cfg);
    proof {
        assert(text_lists(cfg.extra_plans@).subrange(0, cfg.extra_plans@.len() as int)
            =~= text_lists(cfg.extra_plans@));
        assert(text_lists(plans.plans@).subrange(0, plans.primary as int) =~= drafted.take(
            plans.primary as int,
        ));
        assert(text_lists(plans.plans@).subrange(
            plans.primary as int,
            plans.plans@.len() as int,
        ) =~= drafted.skip(plans.primary as int));
        assert(alone.take(i as int) =~= alone);
        assert(contents(ordered@) =~= all);
        assert forall|k: int| 0 <= k < all.len() implies (#[trigger] all[k] matches EntryView::Individual(
            at,
        ) ==> 0 <= at < sampled@.len()) by {
            let front = first + bundles(text_lists(cfg.extra_plans@)) + bundles(
                drafted.take(plans.primary as int),
            );
            if front.len() <= k < front.len() + alone.len() {
                assert(all[k] == alone[k - front.len()]);
                assert(numbers(singles@)[k - front.len()] == singles@[k - front.len()]);
            } else if k < front.len() {
                assert(all[k] == front[k]);
            } else {
                assert(all[k] == bundles(drafted.skip(plans.primary as int))[k - front.len()
                    - alone.len()]);
            }
        }
    }
    let keep: usize = match cfg.max_entries {
        Some(max) => {
            let least: usize = if max == 0 {
                1
            } else {
                max
            };
            if ordered.len() < least {
                ordered.len()
            } else {
                least
            }
        },
        None => ordered.len(),
    };
    let (dropped_individuals, dropped_bundles) = count_individuals(&ordered, keep);
    let mut places: Vec<usize> = Vec::new();
    let mut kept: Vec<Vec<String>> = Vec::new();
    let mut whole: Vec<Vec<String>> = Vec::new();
    let mut j: usize = 0;
    proof {
        assert(all.take(0) =~= Seq::empty());
        assert(numbers(places@) =~= Seq::<int>::empty());
        assert(text_lists(kept@) =~= Seq::empty());
        assert(text_lists(whole@) =~= Seq::empty());
    }
    while j < keep
        invariant
            j <= keep <= ordered@.len(),
            contents(ordered@) == all,
            numbers(places@) == individual_places(all.take(j as int)),
            text_lists(kept@) == bundle_list(all.take(j as int)),
            text_lists(whole@) == group_list(all.take(j as int)),
            forall|i: int|
                0 <= i < all.len() ==> (#[trigger] all[i] matches EntryView::Individual(at) ==> 0
                    <= at < sampled@.len()),
            forall|i: int| 0 <= i < places@.len() ==> (#[trigger] places@[i]) < sampled@.len(),
        decreases keep - j,
    {
        let ghost had = places@;
        let ghost kept_before = kept@;
        let ghost whole_before = whole@;
        proof {
            assert(all.take(j + 1).drop_last() =~= all.take(j as int));
            assert(all.take(j + 1).last() == ordered@[j as int].content());
        }
        match &ordered[j] {
            Entry::Individual(at) => {
                assert(all[j as int] == EntryView::Individual(*at as int));
                places.push(*at);
                assert(numbers(places@) =~= numbers(had).push(*at as int));
            },
            Entry::Bundle(plan) => {
                let copy = copy_texts(plan);
                kept.push(copy);
                assert(text_lists(kept@) =~= text_lists(kept_before).push(texts(plan@)));
            },
            Entry::Group(plan) => {
                let copy = copy_texts(plan);
                whole.push(copy);
                assert(text_lists(whole@) =~= text_lists(whole_before).push(texts(plan@)));
            },
        }
        j += 1;
    }
    proof {
        assert(Seq::new(places@.len(), |i: int| places@[i] as int) =~= numbers(places@));
        lemma_counts(all.take(keep as int));
        assert(text_lists(kept@).len() == kept@.len());
        assert(text_lists(whole@).len() == whole@.len());
    }
    Cohort {
        individuals: places,
        bundles: kept,
        groups: whole,
        dropped_individuals,
        dropped_bundles,
        capped_plans: plans.dropped,
    }
}

pub(crate) proof fn lemma_counts(entries: Seq<EntryView>)
    ensures
        individual_places(entries).len() == individual_count(entries),
        individual_places(entries).len() + bundle_list(entries).len() + group_list(entries).len()
            == entries.len(),
    decreases entries.len(),
{
    if entries.len() > 0 {
        lemma_counts(entries.drop_last());
    }
}

/// Nothing is lost in silence: what a cohort scores and what the budget leaves
/// out add up to all entries.
pub proof fn law_cohort_accounts_for_every_entry(all: Seq<EntryView>, keep: int)
    requires
        0 <= keep <= all.len(),
    ensures
        individual_places(all.take(keep)).len() + bundle_list(all.take(keep)).len()
            + group_list(all.take(keep)).len() + individual_count(all.skip(keep)) + bundle_list(
            all.skip(keep),
        ).len() + group_list(all.skip(keep)).len() == all.len(),
{
    lemma_counts(all.take(keep));
    lemma_counts(all.skip(keep));
}

/// A limit on individuals never changes which combinations and neighbourhoods
/// are tried.
pub proof fn law_individual_limit_leaves_bundles_alone(
    sampled: Seq<SampledWinner>,
    group_plans: Seq<Seq<Seq<char>>>,
    extra_plans: Seq<Seq<Seq<char>>>,
    pool: Seq<BundleMember>,
    limit: Option<usize>,
    other: Option<usize>,
)
    ensures
        bundle_list(ordered_entries(sampled, group_plans, extra_plans, limit, pool))
            == bundle_list(ordered_entries(sampled, group_plans, extra_plans, other, pool)),
        group_list(ordered_entries(sampled, group_plans, extra_plans, limit, pool)) == group_list(
            ordered_entries(sampled, group_plans, extra_plans, other, pool),
        ),
{
    let members = bundle_pool(sampled, pool);
    let plans = full_draft(members).plans;
    let primary = primary_draft(members).plans.len() as int;
    let front = groups(sampled_groups(sampled) + group_plans) + bundles(extra_plans) + bundles(
        plans.take(primary),
    );
    let back = bundles(plans.skip(primary));
    lemma_no_bundles(individuals(sampled, limit));
    lemma_no_bundles(individuals(sampled, other));
    lemma_bundle_list_add(front + individuals(sampled, limit), back);
    lemma_bundle_list_add(front + individuals(sampled, other), back);
    lemma_bundle_list_add(front, individuals(sampled, limit));
    lemma_bundle_list_add(front, individuals(sampled, other));
    lemma_group_list_add(front + individuals(sampled, limit), back);
    lemma_group_list_add(front + individuals(sampled, other), back);
    lemma_group_list_add(front, individuals(sampled, limit));
    lemma_group_list_add(front, individuals(sampled, other));
}

/// Winners that were carried over from earlier batches are never scored on
/// their own again: they change nothing in which winners are.
pub proof fn law_carried_winners_are_not_scored_again(
    sampled: Seq<SampledWinner>,
    group_plans: Seq<Seq<Seq<char>>>,
    extra_plans: Seq<Seq<Seq<char>>>,
    limit: Option<usize>,
    pool: Seq<BundleMember>,
)
    ensures
        individual_places(ordered_entries(sampled, group_plans, extra_plans, limit, pool))
            == capped(single_places(sampled), limit),
{
    let members = bundle_pool(sampled, pool);
    let plans = full_draft(members).plans;
    let primary = primary_draft(members).plans.len() as int;
    let whole = groups(sampled_groups(sampled) + group_plans);
    let extra = bundles(extra_plans);
    let first = bundles(plans.take(primary));
    let alone = individuals(sampled, limit);
    let back = bundles(plans.skip(primary));
    lemma_no_individuals(whole);
    lemma_no_individuals(extra);
    lemma_no_individuals(first);
    lemma_no_individuals(back);
    lemma_all_individuals(alone, capped(single_places(sampled), limit));
    lemma_places_add(whole + extra + first + alone, back);
    lemma_places_add(whole + extra + first, alone);
    lemma_places_add(whole + extra, first);
    lemma_places_add(whole, extra);
    assert(individual_places(ordered_entries(sampled, group_plans, extra_plans, limit, pool))
        =~= individual_places(alone));
}

proof fn lemma_all_individuals(entries: Seq<EntryView>, places: Seq<int>)
    requires
        entries.len() == places.len(),
        forall|i: int|
            0 <= i < entries.len() ==> #[trigger] entries[i] == EntryView::Individual(places[i]),
    ensures
        individual_places(entries) == places,
    decreases entries.len(),
{
    if entries.len() > 0 {
        let init = entries.drop_last();
        assert forall|i: int| 0 <= i < init.len() implies #[trigger] init[i]
            == EntryView::Individual(places.drop_last()[i]) by {
            assert(init[i] == entries[i]);
        }
        lemma_all_individuals(init, places.drop_last());
        assert(entries[entries.len() - 1] == EntryView::Individual(places.last()));
        assert(places.drop_last().push(places.last()) =~= places);
    } else {
        assert(places =~= Seq::empty());
    }
}

pub(crate) proof fn lemma_no_individuals(entries: Seq<EntryView>)
    requires
        forall|i: int| 0 <= i < entries.len() ==> !((#[trigger] entries[i]) is Individual),
    ensures
        individual_places(entries).len() == 0,
    decreases entries.len(),
{
    if entries.len() > 0 {
        assert(!(entries[entries.len() - 1] is Individual));
        lemma_no_individuals(entries.drop_last());
    }
}

pub(crate) proof fn lemma_places_add(a: Seq<EntryView>, b: Seq<EntryView>)
    ensures
        individual_places(a + b) == individual_places(a) + individual_places(b),
    decreases b.len(),
{
    if b.len() == 0 {
        assert(a + b =~= a);
        assert(individual_places(a) + individual_places(b) =~= individual_places(a));
    } else {
        assert((a + b).drop_last() =~= a + b.drop_last());
        lemma_places_add(a, b.drop_last());
        assert(individual_places(a + b) =~= individual_places(a) + individual_places(b));
    }
}

pub(crate) proof fn lemma_no_bundles(entries: Seq<EntryView>)
    requires
        forall|i: int| 0 <= i < entries.len() ==> (#[trigger] entries[i]) is Individual,
    ensures
        bundle_list(entries).len() == 0,
        group_list(entries).len() == 0,
    decreases entries.len(),
{
    if entries.len() > 0 {
        assert(entries[entries.len() - 1] is Individual);
        lemma_no_bundles(entries.drop_last());
    }
}

proof fn lemma_group_list_add(a: Seq<EntryView>, b: Seq<EntryView>)
    ensures
        group_list(a + b) == group_list(a) + group_list(b),
    decreases b.len(),
{
    if b.len() == 0 {
        assert(a + b =~= a);
        assert(group_list(a) + group_list(b) =~= group_list(a));
    } else {
        assert((a + b).drop_last() =~= a + b.drop_last());
        lemma_group_list_add(a, b.drop_last());
        assert(group_list(a + b) =~= group_list(a) + group_list(b));
    }
}

pub(crate) proof fn lemma_bundle_list_add(a: Seq<EntryView>, b: Seq<EntryView>)
    ensures
        bundle_list(a + b) == bundle_list(a) + bundle_list(b),
    decreases b.len(),
{
    if b.len() == 0 {
        assert(a + b =~= a);
        assert(bundle_list(a) + bundle_list(b) =~= bundle_list(a));
    } else {
        assert((a + b).drop_last() =~= a + b.drop_last());
        lemma_bundle_list_add(a, b.drop_last());
        assert(bundle_list(a + b) =~= bundle_list(a) + bundle_list(b));
    }
}

/// The members of one kind, in order.
pub proof fn law_members_are_told_apart_by_kind(
    members: Seq<BundleMember>,
    kind: CandidateKind,
    marks: Seq<bool>,
)
    requires
        marks.len() == members.len(),
        forall|i: int| 0 <= i < marks.len() ==> (#[trigger] marks[i] <==> members[i].kind == kind),
    ensures
        ids_of_kind(members, kind).len() == true_places(marks).len(),
        forall|k: int|
            0 <= k < true_places(marks).len() ==> (#[trigger] ids_of_kind(members, kind)[k])
                == members[true_places(marks)[k]].uuid@,
    decreases members.len(),
{
    if members.len() > 0 {
        let init = members.drop_last();
        let some = marks.drop_last();
        let n = members.len() - 1;
        assert forall|i: int| 0 <= i < some.len() implies (#[trigger] some[i]
            <==> init[i].kind == kind) by {
            assert(some[i] == marks[i]);
            assert(init[i] == members[i]);
        }
        law_members_are_told_apart_by_kind(init, kind, some);
        assert(marks[n] <==> members[n].kind == kind);
        law_true_places_ascend(some);
        let before = ids_of_kind(init, kind);
        let after = ids_of_kind(members, kind);
        let was = true_places(some);
        let now = true_places(marks);
        assert forall|k: int| 0 <= k < now.len() implies (#[trigger] after[k])
            == members[now[k]].uuid@ by {
            if k < was.len() {
                assert(now[k] == was[k]);
                assert(0 <= was[k] < some.len());
                assert(init[was[k]] == members[was[k]]);
                assert(after[k] == before[k]);
            }
        }
    }
}

/// The ranked winners that cut a neighbourhood, or those that cut one neuron, in
/// order.
pub proof fn law_ranked_winners_are_told_apart(
    ranked: Seq<SampleRank>,
    sampled: Seq<SampledWinner>,
    group: bool,
    marks: Seq<bool>,
)
    requires
        marks.len() == ranked.len(),
        forall|i: int| 0 <= i < marks.len() ==> (#[trigger] marks[i]
            <==> ((sampled[ranked[i].at as int].candidate.kind == CandidateKind::Group) == group)),
    ensures
        ranked_places(ranked, sampled, group).len() == true_places(marks).len(),
        forall|k: int|
            0 <= k < true_places(marks).len()
                ==> (#[trigger] ranked_places(ranked, sampled, group)[k])
                    == ranked[true_places(marks)[k]].at,
    decreases ranked.len(),
{
    if ranked.len() > 0 {
        let init = ranked.drop_last();
        let some = marks.drop_last();
        let n = ranked.len() - 1;
        assert forall|i: int| 0 <= i < some.len() implies (#[trigger] some[i]
            <==> ((sampled[init[i].at as int].candidate.kind == CandidateKind::Group)
                == group)) by {
            assert(some[i] == marks[i]);
            assert(init[i] == ranked[i]);
        }
        law_ranked_winners_are_told_apart(init, sampled, group, some);
        assert(marks[n] <==> ((sampled[ranked[n].at as int].candidate.kind
            == CandidateKind::Group) == group));
        law_true_places_ascend(some);
        let before = ranked_places(init, sampled, group);
        let after = ranked_places(ranked, sampled, group);
        let was = true_places(some);
        let now = true_places(marks);
        assert forall|k: int| 0 <= k < now.len() implies (#[trigger] after[k])
            == ranked[now[k]].at by {
            if k < was.len() {
                assert(now[k] == was[k]);
                assert(0 <= was[k] < some.len());
                assert(init[was[k]] == ranked[was[k]]);
                assert(after[k] == before[k]);
            }
        }
    }
}

/// The single cuts among the entries of a cohort, in order.
pub proof fn law_individuals_are_listed_in_order(entries: Seq<EntryView>, marks: Seq<bool>)
    requires
        marks.len() == entries.len(),
        forall|i: int| 0 <= i < marks.len() ==> (#[trigger] marks[i] <==> entries[i] is Individual),
    ensures
        individual_places(entries).len() == true_places(marks).len(),
        forall|k: int|
            0 <= k < true_places(marks).len()
                ==> EntryView::Individual((#[trigger] individual_places(entries)[k]))
                    == entries[true_places(marks)[k]],
    decreases entries.len(),
{
    if entries.len() > 0 {
        let init = entries.drop_last();
        let some = marks.drop_last();
        let n = entries.len() - 1;
        assert forall|i: int| 0 <= i < some.len() implies (#[trigger] some[i]
            <==> init[i] is Individual) by {
            assert(some[i] == marks[i]);
            assert(init[i] == entries[i]);
        }
        law_individuals_are_listed_in_order(init, some);
        assert(marks[n] <==> entries[n] is Individual);
        law_true_places_ascend(some);
        let before = individual_places(init);
        let after = individual_places(entries);
        let was = true_places(some);
        let now = true_places(marks);
        assert forall|k: int| 0 <= k < now.len() implies
            EntryView::Individual((#[trigger] after[k])) == entries[now[k]] by {
            if k < was.len() {
                assert(now[k] == was[k]);
                assert(0 <= was[k] < some.len());
                assert(init[was[k]] == entries[was[k]]);
                assert(after[k] == before[k]);
            }
        }
    }
}

/// The single cuts among the entries of a cohort are counted.
pub proof fn law_individuals_are_counted(entries: Seq<EntryView>, marks: Seq<bool>)
    requires
        marks.len() == entries.len(),
        forall|i: int| 0 <= i < marks.len() ==> (#[trigger] marks[i] <==> entries[i] is Individual),
    ensures
        individual_count(entries) == true_places(marks).len(),
    decreases entries.len(),
{
    if entries.len() > 0 {
        let init = entries.drop_last();
        let some = marks.drop_last();
        let n = entries.len() - 1;
        assert forall|i: int| 0 <= i < some.len() implies (#[trigger] some[i]
            <==> init[i] is Individual) by {
            assert(some[i] == marks[i]);
            assert(init[i] == entries[i]);
        }
        law_individuals_are_counted(init, some);
        assert(marks[n] <==> entries[n] is Individual);
    }
}

/// The neighbourhoods among the entries of a cohort, in order.
pub proof fn law_groups_are_listed_in_order(entries: Seq<EntryView>, marks: Seq<bool>)
    requires
        marks.len() == entries.len(),
        forall|i: int| 0 <= i < marks.len() ==> (#[trigger] marks[i] <==> entries[i] is Group),
    ensures
        group_list(entries).len() == true_places(marks).len(),
        forall|k: int|
            0 <= k < true_places(marks).len()
                ==> EntryView::Group((#[trigger] group_list(entries)[k]))
                    == entries[true_places(marks)[k]],
    decreases entries.len(),
{
    if entries.len() > 0 {
        let init = entries.drop_last();
        let some = marks.drop_last();
        let n = entries.len() - 1;
        assert forall|i: int| 0 <= i < some.len() implies (#[trigger] some[i]
            <==> init[i] is Group) by {
            assert(some[i] == marks[i]);
            assert(init[i] == entries[i]);
        }
        law_groups_are_listed_in_order(init, some);
        assert(marks[n] <==> entries[n] is Group);
        law_true_places_ascend(some);
        let before = group_list(init);
        let after = group_list(entries);
        let was = true_places(some);
        let now = true_places(marks);
        assert forall|k: int| 0 <= k < now.len() implies EntryView::Group((#[trigger] after[k]))
            == entries[now[k]] by {
            if k < was.len() {
                assert(now[k] == was[k]);
                assert(0 <= was[k] < some.len());
                assert(init[was[k]] == entries[was[k]]);
                assert(after[k] == before[k]);
            }
        }
    }
}

/// The combinations among the entries of a cohort, in order.
pub proof fn law_bundles_are_listed_in_order(entries: Seq<EntryView>, marks: Seq<bool>)
    requires
        marks.len() == entries.len(),
        forall|i: int| 0 <= i < marks.len() ==> (#[trigger] marks[i] <==> entries[i] is Bundle),
    ensures
        bundle_list(entries).len() == true_places(marks).len(),
        forall|k: int|
            0 <= k < true_places(marks).len()
                ==> EntryView::Bundle((#[trigger] bundle_list(entries)[k]))
                    == entries[true_places(marks)[k]],
    decreases entries.len(),
{
    if entries.len() > 0 {
        let init = entries.drop_last();
        let some = marks.drop_last();
        let n = entries.len() - 1;
        assert forall|i: int| 0 <= i < some.len() implies (#[trigger] some[i]
            <==> init[i] is Bundle) by {
            assert(some[i] == marks[i]);
            assert(init[i] == entries[i]);
        }
        law_bundles_are_listed_in_order(init, some);
        assert(marks[n] <==> entries[n] is Bundle);
        law_true_places_ascend(some);
        let before = bundle_list(init);
        let after = bundle_list(entries);
        let was = true_places(some);
        let now = true_places(marks);
        assert forall|k: int| 0 <= k < now.len() implies
            EntryView::Bundle((#[trigger] after[k])) == entries[now[k]] by {
            if k < was.len() {
                assert(now[k] == was[k]);
                assert(0 <= was[k] < some.len());
                assert(init[was[k]] == entries[was[k]]);
                assert(after[k] == before[k]);
            }
        }
    }
}

/// Members are ranked by gain, the largest first, and level ones by uuid; each of
/// them stands in the ranking once.
pub proof fn law_members_rank_by_gain_and_then_by_uuid(members: Seq<BundleMember>)
    requires
        forall|i: int| 0 <= i < members.len() ==> !(#[trigger] members[i]).delta.nan(),
    ensures
        sorted(members).to_multiset() == members.to_multiset(),
        forall|i: int, j: int|
            #![trigger sorted(members)[i], sorted(members)[j]]
            0 <= i < j < members.len() ==> sorted(members)[i].delta.position()
                > sorted(members)[j].delta.position() || (sorted(members)[i].delta.position()
                == sorted(members)[j].delta.position() && !text_below(
                sorted(members)[j].uuid@,
                sorted(members)[i].uuid@,
            )),
{
    law_plans_are_best_first(members);
    law_sorted_is_a_permutation(members);
    let out = sorted(members);
    assert forall|i: int, j: int|
        #![trigger out[i], out[j]]
        0 <= i < j < members.len() implies out[i].delta.position() > out[j].delta.position() || (
    out[i].delta.position() == out[j].delta.position() && !text_below(
        out[j].uuid@,
        out[i].uuid@,
    )) by {
        assert(out[j].delta.at_most(out[i].delta));
        assert(!out[j].before(out[i]));
    }
}

proof fn lemma_drafted_in_order(draft: Draft, plans: Seq<Seq<Seq<char>>>) -> (from: Seq<int>)
    requires
        tidy(draft),
    ensures
        ({
            let after = with_plans(draft, plans);
            &&& after.plans.len() == draft.plans.len() + from.len()
            &&& from.len() <= plans.len()
            &&& forall|i: int| 0 <= i < draft.plans.len() ==> #[trigger] after.plans[i]
                == draft.plans[i]
            &&& forall|i: int|
                0 <= i < from.len() ==> 0 <= (#[trigger] from[i]) < plans.len()
                    && after.plans[draft.plans.len() + i] == plans[from[i]]
            &&& forall|i: int, j: int|
                #![trigger from[i], from[j]]
                0 <= i < j < from.len() ==> from[i] < from[j]
            &&& draft.plans.len() + plans.len() <= MAX_BUNDLE_PLANS ==> after.dropped
                == draft.dropped
            &&& after.dropped >= draft.dropped
        }),
    decreases plans.len(),
{
    if plans.len() == 0 {
        Seq::empty()
    } else {
        let init = plans.drop_last();
        let before = with_plans(draft, init);
        let some = lemma_drafted_in_order(draft, init);
        let after = with_plans(draft, plans);
        let plan = plans.last();
        assert forall|i: int| 0 <= i < some.len() implies 0 <= (#[trigger] some[i]) < plans.len()
            && before.plans[draft.plans.len() + i] == plans[some[i]] by {
            assert(init[some[i]] == plans[some[i]]);
        }
        if after.plans.len() > before.plans.len() {
            let from = some.push(plans.len() - 1);
            assert forall|i: int| 0 <= i < from.len() implies 0 <= (#[trigger] from[i])
                < plans.len() && after.plans[draft.plans.len() + i] == plans[from[i]] by {
                if i < some.len() {
                    assert(from[i] == some[i]);
                    assert(after.plans[draft.plans.len() + i] == before.plans[draft.plans.len()
                        + i]);
                }
            }
            assert forall|i: int, j: int|
                #![trigger from[i], from[j]]
                0 <= i < j < from.len() implies from[i] < from[j] by {
                assert(from[i] == some[i]);
                if j < some.len() {
                    assert(from[j] == some[j]);
                }
            }
            assert forall|i: int| 0 <= i < draft.plans.len() implies #[trigger] after.plans[i]
                == draft.plans[i] by {
                assert(after.plans[i] == before.plans[i]);
            }
            from
        } else {
            assert(after.plans == before.plans);
            some
        }
    }
}

/// Some plan of the list has the uuids of this one, told by its key.
spec fn has_key(plans: Seq<Seq<Seq<char>>>, key: Seq<char>) -> bool {
    exists|k: int| 0 <= k < plans.len() && plan_key(#[trigger] plans[k]) == key
}

proof fn lemma_seen_is_planned(draft: Draft, plans: Seq<Seq<Seq<char>>>)
    requires
        forall|key: Seq<char>| #[trigger]
            draft.seen.contains(key) ==> has_key(draft.plans, key) || draft.dropped > 0,
    ensures
        forall|key: Seq<char>| #[trigger]
            with_plans(draft, plans).seen.contains(key) ==> has_key(
                with_plans(draft, plans).plans,
                key,
            ) || with_plans(draft, plans).dropped > 0,
    decreases plans.len(),
{
    if plans.len() > 0 {
        let init = plans.drop_last();
        lemma_seen_is_planned(draft, init);
        let before = with_plans(draft, init);
        let after = with_plans(draft, plans);
        let plan = plans.last();
        assert forall|key: Seq<char>| #[trigger] after.seen.contains(key) implies has_key(
            after.plans,
            key,
        ) || after.dropped > 0 by {
            if before.seen.contains(key) {
                if has_key(before.plans, key) {
                    let k = choose|k: int|
                        0 <= k < before.plans.len() && plan_key(#[trigger] before.plans[k]) == key;
                    assert(after.plans[k] == before.plans[k]);
                }
            } else if after.plans.len() > before.plans.len() {
                assert(plan_key(after.plans[before.plans.len() as int]) == key);
            }
        }
    }
}

/// The combinations that a cohort must try, with `ids` the ranking: everything at
/// once; with eight members or more also the first half and the second; and where
/// two or more cuts of each kind are there, those of each kind alone. All of these
/// are planned, and nothing else comes before the nested ones.
pub proof fn law_the_telling_combinations_are_planned(members: Seq<BundleMember>)
    ensures
        ({
            let ranked = sorted(members);
            let ids = member_ids(ranked);
            let n = ids.len() as int;
            let a = ids_of_kind(ranked, CandidateKind::Identity);
            let b = ids_of_kind(ranked, CandidateKind::Ablation);
            let plans = primary_draft(members).plans;
            let both = a.len() >= 2 && b.len() >= 2;
            &&& n == members.len()
            &&& n >= 2 ==> exists|k: int|
                0 <= k < plans.len() && joined(#[trigger] plans[k], "\0"@) == joined(ids, "\0"@)
            &&& n >= 8 ==> exists|k: int|
                0 <= k < plans.len() && joined(#[trigger] plans[k], "\0"@) == joined(
                    ids.take(n / 2),
                    "\0"@,
                )
            &&& n >= 8 ==> exists|k: int|
                0 <= k < plans.len() && joined(#[trigger] plans[k], "\0"@) == joined(
                    ids.skip(n / 2),
                    "\0"@,
                )
            &&& both ==> exists|k: int|
                0 <= k < plans.len() && joined(#[trigger] plans[k], "\0"@) == joined(a, "\0"@)
            &&& both ==> exists|k: int|
                0 <= k < plans.len() && joined(#[trigger] plans[k], "\0"@) == joined(b, "\0"@)
            &&& forall|k: int|
                0 <= k < plans.len() ==> {
                    ||| (#[trigger] plans[k]) == ids
                    ||| n >= 8 && plans[k] == ids.take(n / 2)
                    ||| n >= 8 && plans[k] == ids.skip(n / 2)
                    ||| both && plans[k] == a
                    ||| both && plans[k] == b
                }
        }),
{
    let ranked = sorted(members);
    law_sorted_is_a_permutation(members);
    let ids = member_ids(ranked);
    let n = ids.len() as int;
    let a = ids_of_kind(ranked, CandidateKind::Identity);
    let b = ids_of_kind(ranked, CandidateKind::Ablation);
    let wanted = primary_plans(ranked);
    let draft = primary_draft(members);
    assert(tidy(no_plans()));
    lemma_with_plans_tidy(no_plans(), wanted);
    let from = lemma_drafted_in_order(no_plans(), wanted);
    lemma_seen_is_planned(no_plans(), wanted);
    assert(wanted.len() <= 5);
    assert forall|i: int| 0 <= i < wanted.len() && (#[trigger] wanted[i]).len() >= 2 implies
        has_key(
        draft.plans,
        plan_key(wanted[i]),
    ) by {
        assert(draft.seen.contains(plan_key(wanted[i])));
    }
    let h = if n >= 2 {
        1int
    } else {
        0
    };
    let s = if n >= 8 {
        h + 2
    } else {
        h
    };
    if n >= 2 {
        assert(wanted[0] == ids);
    }
    if n >= 8 {
        assert(wanted[1] == ids.take(n / 2));
        assert(wanted[2] == ids.skip(n / 2));
    }
    if a.len() >= 2 && b.len() >= 2 {
        assert(wanted[s] == a);
        assert(wanted[s + 1] == b);
    }
    assert forall|k: int| 0 <= k < draft.plans.len() implies ({
        ||| (#[trigger] draft.plans[k]) == ids
        ||| n >= 8 && draft.plans[k] == ids.take(n / 2)
        ||| n >= 8 && draft.plans[k] == ids.skip(n / 2)
        ||| a.len() >= 2 && b.len() >= 2 && draft.plans[k] == a
        ||| a.len() >= 2 && b.len() >= 2 && draft.plans[k] == b
    }) by {
        assert(draft.plans[0 + k] == wanted[from[k]]);
    }
}

proof fn lemma_doublings_double(len: int, n: int)
    requires
        0 < len,
    ensures
        len >= n ==> doublings(len, n).len() == 0,
        len < n ==> doublings(len, n).len() > 0 && doublings(len, n)[0] == len,
        forall|i: int|
            0 <= i < doublings(len, n).len() ==> len <= #[trigger] doublings(len, n)[i] < n,
        forall|i: int|
            0 <= i && i + 1 < doublings(len, n).len() ==> doublings(len, n)[i + 1] == 2
                * #[trigger] doublings(len, n)[i],
        len < n ==> n <= 2 * doublings(len, n).last(),
    decreases (if len < n {
        n - len
    } else {
        0
    }),
{
    if len < n {
        lemma_doublings_double(2 * len, n);
        let rest = doublings(2 * len, n);
        let all = doublings(len, n);
        assert(all =~= seq![len] + rest);
        assert forall|i: int| 0 <= i < all.len() implies len <= #[trigger] all[i] < n by {
            if i > 0 {
                assert(all[i] == rest[i - 1]);
            }
        }
        assert forall|i: int| 0 <= i && i + 1 < all.len() implies all[i + 1] == 2
            * #[trigger] all[i] by {
            assert(all[i + 1] == rest[i]);
            if i > 0 {
                assert(all[i] == rest[i - 1]);
            }
        }
        if rest.len() > 0 {
            assert(all.last() == rest.last());
        }
    }
}

/// The nested combinations are the best two, four, eight and so on of the ranking,
/// as long as those are not all of it, the longest first. They are planned after
/// the others in that order; and one that is not planned was planned before or is
/// counted as left out.
pub proof fn law_nested_combinations_halve(members: Seq<BundleMember>)
    ensures
        ({
            let ids = member_ids(sorted(members));
            let nested = nested_plans(ids);
            let n = ids.len() as int;
            &&& n <= 2 ==> nested.len() == 0
            &&& n > 2 ==> nested.len() > 0 && nested.last() == ids.take(2) && nested[0].len() < n
                <= 2 * nested[0].len()
            &&& forall|i: int|
                0 <= i < nested.len() ==> 2 <= (#[trigger] nested[i]).len() < n && nested[i]
                    == ids.take(nested[i].len() as int)
            &&& forall|i: int|
                0 <= i && i + 1 < nested.len() ==> (#[trigger] nested[i]).len() == 2 * nested[i
                    + 1].len()
            &&& forall|i: int|
                0 <= i < nested.len() ==> (exists|k: int|
                    0 <= k < full_draft(members).plans.len() && joined(
                        #[trigger] full_draft(members).plans[k],
                        "\0"@,
                    ) == joined(#[trigger] nested[i], "\0"@)) || full_draft(members).dropped > 0
        }),
{
    let ids = member_ids(sorted(members));
    let n = ids.len() as int;
    let lengths = doublings(2, n);
    let nested = nested_plans(ids);
    lemma_doublings_double(2, n);
    assert forall|i: int| 0 <= i < nested.len() implies 2 <= (#[trigger] nested[i]).len() < n
        && nested[i] == ids.take(nested[i].len() as int) by {
        assert(2 <= lengths[lengths.len() - 1 - i] < n);
    }
    assert forall|i: int| 0 <= i && i + 1 < nested.len() implies (#[trigger] nested[i]).len() == 2
        * nested[i + 1].len() by {
        let j = lengths.len() - 2 - i;
        assert(2 <= lengths[j] < n && 2 <= lengths[j + 1] < n);
        assert(lengths[j + 1] == 2 * lengths[j]);
    }
    if n > 2 {
        assert(nested.last() == ids.take(lengths[0]));
        assert(2 <= lengths[lengths.len() - 1] < n);
    }
    law_plans_are_bounded_and_accounted_for(members);
    lemma_seen_is_planned(no_plans(), primary_plans(sorted(members)));
    lemma_seen_is_planned(primary_draft(members), nested);
    assert forall|i: int| 0 <= i < nested.len() implies (exists|k: int|
        0 <= k < full_draft(members).plans.len() && joined(
            #[trigger] full_draft(members).plans[k],
            "\0"@,
        ) == joined(#[trigger] nested[i], "\0"@)) || full_draft(members).dropped > 0 by {
        assert(full_draft(members).seen.contains(plan_key(nested[i])));
        if has_key(full_draft(members).plans, plan_key(nested[i])) {
            let k = choose|k: int|
                0 <= k < full_draft(members).plans.len() && plan_key(
                    #[trigger] full_draft(members).plans[k],
                ) == plan_key(nested[i]);
            assert(joined(full_draft(members).plans[k], "\0"@) == joined(nested[i], "\0"@));
        }
    }
}

/// What is planned beyond what must be tried are nested combinations, in their
/// order; at most twelve combinations are planned in all.
pub proof fn law_nested_combinations_come_last(members: Seq<BundleMember>) -> (from: Seq<int>)
    ensures
        ({
            let first = primary_draft(members).plans;
            let plans = full_draft(members).plans;
            let nested = nested_plans(member_ids(sorted(members)));
            &&& plans.len() == first.len() + from.len()
            &&& plans.len() <= 12
            &&& forall|i: int| 0 <= i < first.len() ==> #[trigger] plans[i] == first[i]
            &&& forall|i: int|
                0 <= i < from.len() ==> 0 <= (#[trigger] from[i]) < nested.len()
                    && plans[first.len() + i] == nested[from[i]]
            &&& forall|i: int, j: int|
                #![trigger from[i], from[j]]
                0 <= i < j < from.len() ==> from[i] < from[j]
        }),
{
    law_plans_are_bounded_and_accounted_for(members);
    lemma_drafted_in_order(
        primary_draft(members),
        nested_plans(member_ids(sorted(members))),
    )
}

/// A winner joins combinations with its own neuron, kind and sampled gain.
pub proof fn law_winners_join_with_their_own_gain(winners: Seq<SampledWinner>, i: int)
    requires
        0 <= i < winners.len(),
    ensures
        winner_members(winners).len() == winners.len(),
        winner_members(winners)[i].uuid == winners[i].candidate.uuid,
        winner_members(winners)[i].kind == winners[i].candidate.kind,
        winner_members(winners)[i].delta == winners[i].delta,
{
}

/// Combinations draw on the fresh winners that cut one neuron and on the carried
/// ones; a fresh one stands for a neuron that is also carried. Neighbourhoods are
/// no part of them.
pub proof fn law_combinations_draw_on_fresh_and_carried(
    sampled: Seq<SampledWinner>,
    pool: Seq<BundleMember>,
    m: BundleMember,
)
    ensures
        bundle_pool(sampled, pool).contains(m) <==> {
            ||| exists|i: int|
                0 <= i < sampled.len() && (#[trigger] sampled[i]).candidate.kind
                    != CandidateKind::Group && m.uuid == sampled[i].candidate.uuid && m.kind
                    == sampled[i].candidate.kind && m.delta == sampled[i].delta
            ||| pool.contains(m) && forall|i: int|
                0 <= i < sampled.len() && (#[trigger] sampled[i]).candidate.kind
                    != CandidateKind::Group ==> sampled[i].candidate.uuid@ != m.uuid@
        },
{
    let all = winner_members(sampled);
    let fresh = all.filter(cuts_one());
    let other = |c: BundleMember| !names_member(fresh, c.uuid@);
    let carried = pool.filter(other);
    let first = law_filter_picks_in_order(all, cuts_one());
    let second = law_filter_picks_in_order(pool, other);
    let both = bundle_pool(sampled, pool);
    assert(both =~= fresh + carried);
    assert forall|c: BundleMember| #[trigger] fresh.contains(c) <==> exists|i: int|
        0 <= i < sampled.len() && (#[trigger] sampled[i]).candidate.kind != CandidateKind::Group
            && c.uuid == sampled[i].candidate.uuid && c.kind == sampled[i].candidate.kind
            && c.delta == sampled[i].delta by {
        if fresh.contains(c) {
            let k = choose|k: int| 0 <= k < fresh.len() && fresh[k] == c;
            let i = first[k];
            assert(first.contains(i));
            assert(all[i] == c);
            assert(cuts_one()(all[i]));
            assert(sampled[i].candidate.kind != CandidateKind::Group);
        }
        if exists|i: int|
            0 <= i < sampled.len() && (#[trigger] sampled[i]).candidate.kind
                != CandidateKind::Group && c.uuid == sampled[i].candidate.uuid && c.kind
                == sampled[i].candidate.kind && c.delta == sampled[i].delta {
            let i = choose|i: int|
                0 <= i < sampled.len() && (#[trigger] sampled[i]).candidate.kind
                    != CandidateKind::Group && c.uuid == sampled[i].candidate.uuid && c.kind
                    == sampled[i].candidate.kind && c.delta == sampled[i].delta;
            assert(all[i] == c);
            assert(cuts_one()(all[i]));
            assert(first.contains(i));
            let k = choose|k: int| 0 <= k < first.len() && first[k] == i;
            assert(fresh[k] == c);
        }
    }
    assert(names_member(fresh, m.uuid@) <==> exists|i: int|
        0 <= i < sampled.len() && (#[trigger] sampled[i]).candidate.kind != CandidateKind::Group
            && sampled[i].candidate.uuid@ == m.uuid@) by {
        if names_member(fresh, m.uuid@) {
            let k = choose|k: int| 0 <= k < fresh.len() && (#[trigger] fresh[k]).uuid@ == m.uuid@;
            assert(fresh.contains(fresh[k]));
        }
        if exists|i: int|
            0 <= i < sampled.len() && (#[trigger] sampled[i]).candidate.kind
                != CandidateKind::Group && sampled[i].candidate.uuid@ == m.uuid@ {
            let i = choose|i: int|
                0 <= i < sampled.len() && (#[trigger] sampled[i]).candidate.kind
                    != CandidateKind::Group && sampled[i].candidate.uuid@ == m.uuid@;
            assert(fresh.contains(all[i]));
            let k = choose|k: int| 0 <= k < fresh.len() && fresh[k] == all[i];
            assert(fresh[k].uuid@ == m.uuid@);
        }
    }
    assert(carried.contains(m) <==> pool.contains(m) && !names_member(fresh, m.uuid@)) by {
        if carried.contains(m) {
            let k = choose|k: int| 0 <= k < carried.len() && carried[k] == m;
            assert(second.contains(second[k]));
            assert(pool[second[k]] == m);
            assert(other(pool[second[k]]));
        }
        if pool.contains(m) && !names_member(fresh, m.uuid@) {
            let i = choose|i: int| 0 <= i < pool.len() && pool[i] == m;
            assert(other(pool[i]));
            assert(second.contains(i));
            let k = choose|k: int| 0 <= k < second.len() && second[k] == i;
            assert(carried[k] == m);
        }
    }
    assert(both.contains(m) <==> fresh.contains(m) || carried.contains(m)) by {
        if fresh.contains(m) {
            let k = choose|k: int| 0 <= k < fresh.len() && fresh[k] == m;
            assert(both[k] == m);
        }
        if carried.contains(m) {
            let k = choose|k: int| 0 <= k < carried.len() && carried[k] == m;
            assert(both[fresh.len() + k] == m);
        }
        if both.contains(m) {
            let k = choose|k: int| 0 <= k < both.len() && both[k] == m;
            if k < fresh.len() {
                assert(fresh[k] == m);
            } else {
                assert(carried[k - fresh.len()] == m);
            }
        }
    }
}

/// The winners that cut one neuron are scored on their own by gain, the largest
/// first, and level ones by uuid; each of them once.
pub proof fn law_single_cuts_rank_by_gain_and_then_by_uuid(sampled: Seq<SampledWinner>)
    requires
        sampled.len() <= usize::MAX,
        forall|i: int| 0 <= i < sampled.len() ==> !(#[trigger] sampled[i]).delta.nan(),
    ensures
        ({
            let places = single_places(sampled);
            &&& forall|p: int| #[trigger]
                places.contains(p) <==> 0 <= p < sampled.len() && sampled[p].candidate.kind
                    != CandidateKind::Group
            &&& forall|i: int, j: int|
                #![trigger places[i], places[j]]
                0 <= i < j < places.len() ==> places[i] != places[j] && (
                sampled[places[i]].delta.position() > sampled[places[j]].delta.position() || (
                sampled[places[i]].delta.position() == sampled[places[j]].delta.position()
                    && !text_below(
                    sampled[places[j]].candidate.uuid@,
                    sampled[places[i]].candidate.uuid@,
                )))
        }),
{
    lemma_ranked_by_gain(sampled, false);
}

/// The winners that cut a neighbourhood come by gain in the same way.
pub proof fn law_sampled_groups_rank_by_gain(sampled: Seq<SampledWinner>) -> (places: Seq<int>)
    requires
        sampled.len() <= usize::MAX,
        forall|i: int| 0 <= i < sampled.len() ==> !(#[trigger] sampled[i]).delta.nan(),
    ensures
        sampled_groups(sampled).len() == places.len(),
        forall|p: int| #[trigger]
            places.contains(p) <==> 0 <= p < sampled.len() && sampled[p].candidate.kind
                == CandidateKind::Group,
        forall|k: int|
            0 <= k < places.len() ==> #[trigger] sampled_groups(sampled)[k] == texts(
                sampled[places[k]].candidate.members@,
            ),
        forall|i: int, j: int|
            #![trigger places[i], places[j]]
            0 <= i < j < places.len() ==> places[i] != places[j]
                && sampled[places[i]].delta.position() >= sampled[places[j]].delta.position(),
{
    lemma_ranked_by_gain(sampled, true);
    ranked_places(sorted(sample_ranks(sampled)), sampled, true)
}

proof fn lemma_ranked_by_gain(sampled: Seq<SampledWinner>, group: bool)
    requires
        sampled.len() <= usize::MAX,
        forall|i: int| 0 <= i < sampled.len() ==> !(#[trigger] sampled[i]).delta.nan(),
    ensures
        ({
            let places = ranked_places(sorted(sample_ranks(sampled)), sampled, group);
            &&& forall|p: int| #[trigger]
                places.contains(p) <==> 0 <= p < sampled.len() && (sampled[p].candidate.kind
                    == CandidateKind::Group) == group
            &&& forall|i: int, j: int|
                #![trigger places[i], places[j]]
                0 <= i < j < places.len() ==> places[i] != places[j] && (
                sampled[places[i]].delta.position() > sampled[places[j]].delta.position() || (
                sampled[places[i]].delta.position() == sampled[places[j]].delta.position()
                    && !text_below(
                    sampled[places[j]].candidate.uuid@,
                    sampled[places[i]].candidate.uuid@,
                )))
        }),
{
    let ranks = sample_ranks(sampled);
    let out = sorted(ranks);
    law_sorted_is_a_permutation(ranks);
    lemma_samples_are_well_ranked(sampled);
    law_sorted_is_in_order(ranks);
    let order = law_sorted_is_stable(ranks);
    let marks = Seq::new(
        out.len(),
        |i: int| (sampled[out[i].at as int].candidate.kind == CandidateKind::Group) == group,
    );
    law_ranked_winners_are_told_apart(out, sampled, group, marks);
    law_true_places_ascend(marks);
    let places = ranked_places(out, sampled, group);
    let kept = true_places(marks);
    assert forall|k: int| 0 <= k < out.len() implies (#[trigger] out[k]).at == order[k]
        && out[k].delta
        == sampled[order[k]].delta && out[k].uuid == sampled[order[k]].candidate.uuid by {
        assert(0 <= order[k] < ranks.len() && out[k] == ranks[order[k]]);
    }
    assert forall|p: int| #[trigger] places.contains(p) <==> 0 <= p < sampled.len() && (
    sampled[p].candidate.kind == CandidateKind::Group) == group by {
        if places.contains(p) {
            let k = choose|k: int| 0 <= k < places.len() && places[k] == p;
            assert(places[k] == out[kept[k]].at);
            assert(0 <= kept[k] < marks.len() && marks[kept[k]]);
            assert(0 <= order[kept[k]] < ranks.len());
        }
        if 0 <= p < sampled.len() && (sampled[p].candidate.kind == CandidateKind::Group)
            == group {
            assert(ranks.contains(ranks[p]));
            assert(out.contains(ranks[p]));
            let q = choose|q: int| 0 <= q < out.len() && out[q] == ranks[p];
            assert(marks[q]);
            assert(kept.contains(q));
            let k = choose|k: int| 0 <= k < kept.len() && kept[k] == q;
            assert(places[k] == out[kept[k]].at);
            assert(places[k] == p);
        }
    }
    assert forall|i: int, j: int|
        #![trigger places[i], places[j]]
        0 <= i < j < places.len() implies places[i] != places[j] && (
    sampled[places[i]].delta.position() > sampled[places[j]].delta.position() || (
    sampled[places[i]].delta.position() == sampled[places[j]].delta.position() && !text_below(
        sampled[places[j]].candidate.uuid@,
        sampled[places[i]].candidate.uuid@,
    ))) by {
        let a = kept[i];
        let b = kept[j];
        assert(a < b);
        assert(places[i] == out[a].at && places[j] == out[b].at);
        assert(order[a] != order[b]);
        assert(!out[b].before(out[a]));
        assert(0 <= order[a] < ranks.len() && 0 <= order[b] < ranks.len());
        assert(!sampled[order[a]].delta.nan() && !sampled[order[b]].delta.nan());
    }
}

proof fn lemma_samples_are_well_ranked(sampled: Seq<SampledWinner>)
    requires
        forall|i: int| 0 <= i < sampled.len() ==> !(#[trigger] sampled[i]).delta.nan(),
    ensures
        well_ranked(sample_ranks(sampled)),
{
    let ranks = sample_ranks(sampled);
    assert forall|a: SampleRank, b: SampleRank|
        ranks.contains(a) && ranks.contains(b) && #[trigger] a.before(b) implies !b.before(a) by {
        let i = choose|i: int| 0 <= i < ranks.len() && ranks[i] == a;
        let j = choose|j: int| 0 <= j < ranks.len() && ranks[j] == b;
        assert(!sampled[i].delta.nan() && !sampled[j].delta.nan());
        law_text_order_is_total(a.uuid@, b.uuid@);
    }
    assert forall|a: SampleRank, b: SampleRank, c: SampleRank|
        ranks.contains(a) && ranks.contains(b) && ranks.contains(c) && !(#[trigger] a.before(b))
            && !(#[trigger] b.before(c)) implies !a.before(c) by {
        let i = choose|i: int| 0 <= i < ranks.len() && ranks[i] == a;
        let j = choose|j: int| 0 <= j < ranks.len() && ranks[j] == b;
        let k = choose|k: int| 0 <= k < ranks.len() && ranks[k] == c;
        assert(!sampled[i].delta.nan() && !sampled[j].delta.nan() && !sampled[k].delta.nan());
        law_text_order_is_total(a.uuid@, b.uuid@);
        law_text_order_is_total(b.uuid@, c.uuid@);
        law_text_order_is_total(a.uuid@, c.uuid@);
        if text_below(a.uuid@, c.uuid@) && text_below(b.uuid@, a.uuid@) {
            law_text_order_is_transitive(b.uuid@, a.uuid@, c.uuid@);
        }
    }
}

/// A limit keeps the first of a list, and a budget of entries pays for one at
/// least.
pub proof fn law_limits_keep_the_first<T>(list: Seq<T>, most: usize, i: int)
    ensures
        capped(list, None) == list,
        capped(list, Some(most)).len() == vstd::math::min(list.len() as int, most as int),
        0 <= i < capped(list, Some(most)).len() ==> capped(list, Some(most))[i] == list[i],
        kept_entries(list.len() as int, None) == list.len(),
        kept_entries(list.len() as int, Some(most)) == vstd::math::min(
            list.len() as int,
            vstd::math::max(most as int, 1),
        ),
{
}

/// What a cohort could score, the ones that matter most first: the sampled
/// neighbourhoods and the given ones, the given combinations, those that must be
/// tried, the single cuts up to their limit, and the nested combinations.
pub proof fn law_entries_stand_by_importance(sampled: Seq<SampledWinner>, cfg: FullConfig, i: int)
    ensures
        ({
            let all = cohort_entries(sampled, cfg);
            let whole = sampled_groups(sampled);
            let given = text_lists(cfg.group_plans@);
            let extra = text_lists(cfg.extra_plans@);
            let pool = bundle_pool(sampled, cfg.pool@);
            let first = primary_draft(pool).plans;
            let plans = full_draft(pool).plans;
            let singles = capped(single_places(sampled), cfg.max_individuals);
            let a = whole.len() as int;
            let b = a + given.len();
            let c = b + extra.len();
            let d = c + first.len();
            let e = d + singles.len();
            &&& all.len() == e + plans.len() - first.len()
            &&& 0 <= i < a ==> all[i] == EntryView::Group(whole[i])
            &&& a <= i < b ==> all[i] == EntryView::Group(given[i - a])
            &&& b <= i < c ==> all[i] == EntryView::Bundle(extra[i - b])
            &&& c <= i < d ==> all[i] == EntryView::Bundle(first[i - c])
            &&& d <= i < e ==> all[i] == EntryView::Individual(singles[i - d])
            &&& e <= i < all.len() ==> all[i] == EntryView::Bundle(plans[i - e + first.len()])
        }),
{
    let pool = bundle_pool(sampled, cfg.pool@);
    law_plans_are_bounded_and_accounted_for(pool);
    let first = primary_draft(pool).plans;
    let plans = full_draft(pool).plans;
    assert(first =~= plans.subrange(0, first.len() as int));
    if 0 <= i < first.len() {
        assert(first[i] == plans.subrange(0, first.len() as int)[i]);
    }
    let c = sampled_groups(sampled).len() + cfg.group_plans@.len() + cfg.extra_plans@.len();
    if c <= i < c + first.len() {
        assert(first[i - c] == plans.subrange(0, first.len() as int)[i - c]);
    }
}

/// The lengths that a replay of `n` known wins tries: all, one less, half, sixteen,
/// eight and four, as far as they are two at least and no more than there are.
pub proof fn law_replays_shrink(n: int, len: int)
    ensures
        replay_length(n, len) <==> 2 <= len <= n && (len == n || len == n - 1 || len == n / 2
            || len == 16 || len == 8 || len == 4),
{
}

/// Every single cut up to its limit is either scored or counted as left out, and so
/// is every combination and neighbourhood; what the generator kept out of the
/// plans is told as it is.
pub proof fn law_cohorts_tell_what_they_leave_out(
    sampled: Seq<SampledWinner>,
    cfg: FullConfig,
    cohort: Cohort,
)
    requires
        plans_cohort(sampled, cfg, cohort),
    ensures
        ({
            let all = cohort_entries(sampled, cfg);
            let singles = capped(single_places(sampled), cfg.max_individuals);
            &&& cohort.individuals@.len() + cohort.dropped_individuals == singles.len()
            &&& cohort.bundles@.len() + cohort.groups@.len() + cohort.dropped_bundles == all.len()
                - singles.len()
            &&& cohort.individuals@.len() + cohort.bundles@.len() + cohort.groups@.len()
                == vstd::math::min(
                all.len() as int,
                match cfg.max_entries {
                    Some(most) => vstd::math::max(most as int, 1),
                    None => all.len() as int,
                },
            )
            &&& cohort.capped_plans == full_draft(bundle_pool(sampled, cfg.pool@)).dropped
        }),
{
    let all = cohort_entries(sampled, cfg);
    let keep = kept_entries(all.len() as int, cfg.max_entries);
    let a = all.take(keep);
    let b = all.skip(keep);
    assert(a + b =~= all);
    lemma_counts(a);
    lemma_counts(b);
    lemma_counts(all);
    lemma_places_add(a, b);
    law_carried_winners_are_not_scored_again(
        sampled,
        text_lists(cfg.group_plans@),
        text_lists(cfg.extra_plans@),
        cfg.max_individuals,
        cfg.pool@,
    );
    let places = Seq::new(
        cohort.individuals@.len(),
        |i: int| cohort.individuals@[i] as int,
    );
    assert(places.len() == cohort.individuals@.len());
    assert(text_lists(cohort.bundles@).len() == cohort.bundles@.len());
    assert(text_lists(cohort.groups@).len() == cohort.groups@.len());
}

/// A replay of two wins or more tries all of them first, then ever fewer of the best:
/// each plan is the beginning of the ranked wins, none is of a single win, and one
/// less than all, half of them, sixteen, eight and four are among them wherever they
/// are two at least and no more than there are.
pub proof fn law_replays_try_all_and_then_fewer(
    applied: Seq<Seq<char>>,
    plans: Seq<Vec<String>>,
    i: int,
    len: int,
)
    requires
        replays(applied, plans),
    ensures
        applied.len() >= 2 ==> plans.len() > 0 && texts(plans[0]@) == applied,
        applied.len() < 2 ==> plans.len() == 0,
        0 <= i < plans.len() ==> 2 <= plans[i]@.len() <= applied.len() && texts(plans[i]@)
            == applied.take(plans[i]@.len() as int),
        0 < i < plans.len() ==> plans[i]@.len() < plans[i - 1]@.len(),
        2 <= len <= applied.len() && (len == applied.len() - 1 || len == applied.len() as int / 2
            || len == 16 || len == 8 || len == 4) ==> exists|k: int|
            0 <= k < plans.len() && texts((#[trigger] plans[k])@) == applied.take(len),
{
    let n = applied.len() as int;
    if n >= 2 {
        assert(replay_length(n, n));
        let k = choose|k: int| 0 <= k < plans.len() && (#[trigger] plans[k])@.len() == n;
        if k > 0 {
            assert(plans[0]@.len() > plans[k]@.len());
            assert(replay_length(n, plans[0]@.len() as int));
        }
        assert(applied.take(n) =~= applied);
        assert(texts(plans[0]@) == applied.take(plans[0]@.len() as int));
    } else if plans.len() > 0 {
        assert(replay_length(n, plans[0]@.len() as int));
    }
    if 0 <= i < plans.len() {
        assert(replay_length(n, plans[i]@.len() as int));
    }
    if 0 < i < plans.len() {
        assert(plans[i - 1]@.len() > plans[i]@.len());
    }
    if 2 <= len <= n && (len == n - 1 || len == n / 2 || len == 16 || len == 8 || len == 4) {
        assert(replay_length(n, len));
        let k = choose|k: int| 0 <= k < plans.len() && (#[trigger] plans[k])@.len() == len;
        assert(texts(plans[k]@) == applied.take(len));
    }
}

/// The combinations that must be tried stand in the order of what they are worth:
/// everything at once, the first half, the second, the pass-through cuts and the
/// ablations.
pub proof fn law_the_telling_combinations_stand_in_order(members: Seq<BundleMember>) -> (from: Seq<
    int,
>)
    ensures
        ({
            let ranked = sorted(members);
            let ids = member_ids(ranked);
            let n = ids.len() as int;
            let a = ids_of_kind(ranked, CandidateKind::Identity);
            let b = ids_of_kind(ranked, CandidateKind::Ablation);
            let whole = if n >= 2 {
                seq![ids]
            } else {
                Seq::empty()
            };
            let halves = if n >= 8 {
                seq![ids.take(n / 2), ids.skip(n / 2)]
            } else {
                Seq::empty()
            };
            let kinds = if a.len() >= 2 && b.len() >= 2 {
                seq![a, b]
            } else {
                Seq::empty()
            };
            let wanted = whole + halves + kinds;
            let plans = primary_draft(members).plans;
            &&& plans.len() == from.len()
            &&& forall|i: int|
                0 <= i < from.len() ==> 0 <= (#[trigger] from[i]) < wanted.len() && plans[i]
                    == wanted[from[i]]
            &&& forall|i: int, j: int|
                #![trigger from[i], from[j]]
                0 <= i < j < from.len() ==> from[i] < from[j]
        }),
{
    let wanted = primary_plans(sorted(members));
    assert(tidy(no_plans()));
    let from = lemma_drafted_in_order(no_plans(), wanted);
    let plans = primary_draft(members).plans;
    assert forall|i: int| 0 <= i < from.len() implies 0 <= (#[trigger] from[i]) < wanted.len()
        && plans[i] == wanted[from[i]] by {
        assert(plans[0 + i] == wanted[from[i]]);
    }
    from
}

} // verus!
