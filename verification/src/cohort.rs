//! What limits leave of a cohort, from the winners of a screen to the outcome.
use vstd::prelude::*;

use crate::judge::{
    all_pending, evaluates, judges, of_kind, pending_individuals, pending_plans, pending_views,
    scores_entries, scores_entry, CohortCounts, EntryKind, FullCandidate, FullOutcome,
    PendingEntry, PendingView,
};
use crate::measure::Measure;
use crate::promote::{
    bundle_list, bundle_pool, bundles, capped, cohort_entries, full_draft, group_list, groups,
    individual_count, individual_places, individuals, kept_entries,
    law_carried_winners_are_not_scored_again, law_individual_limit_leaves_bundles_alone,
    lemma_bundle_list_add, lemma_counts, lemma_no_bundles, lemma_no_individuals, lemma_places_add,
    plans_cohort, primary_draft, sampled_groups, single_places, Cohort, EntryView, FullConfig,
};
use crate::scorer::ScoreEntry;
use crate::sweep::SampledWinner;
use crate::text::{text_lists, texts};

verus! {

/// Which plans could be built.
pub open spec fn flags(
    plans: Seq<Seq<Seq<char>>>,
    can: spec_fn(Seq<Seq<char>>) -> bool,
) -> Seq<bool> {
    Seq::new(plans.len(), |i: int| can(plans[i]))
}

/// The plans that can be built, in order.
pub open spec fn buildable(
    plans: Seq<Seq<Seq<char>>>,
    can: spec_fn(Seq<Seq<char>>) -> bool,
) -> Seq<Seq<Seq<char>>>
    decreases plans.len(),
{
    if plans.len() == 0 {
        Seq::empty()
    } else {
        let before = buildable(plans.drop_last(), can);
        if can(plans.last()) {
            before.push(plans.last())
        } else {
            before
        }
    }
}

/// A cohort from the plan to the outcome.
pub struct ScoredCohort {
    /// What was planned.
    pub cohort: Cohort,
    /// What was written for the scorer.
    pub pending: Seq<PendingEntry>,
    /// What the scorer answered.
    pub answer: Seq<ScoreEntry>,
    /// How far each score is ahead of the incumbent's.
    pub differences: Seq<Measure>,
    /// What was counted.
    pub counts: CohortCounts,
    /// What it came to.
    pub outcome: FullOutcome,
}

/// The cohort was planned of these winners, written as far as it could be built
/// on the incumbent, and scored.
pub open spec fn scored(
    sampled: Seq<SampledWinner>,
    cfg: FullConfig,
    can_group: spec_fn(Seq<Seq<char>>) -> bool,
    can: spec_fn(Seq<Seq<char>>) -> bool,
    run: ScoredCohort,
) -> bool {
    let whole = text_lists(run.cohort.groups@);
    let plans = text_lists(run.cohort.bundles@);
    &&& plans_cohort(sampled, cfg, run.cohort)
    &&& pending_views(run.pending) == all_pending(
        sampled,
        run.cohort,
        flags(whole, can_group),
        flags(plans, can),
    )
    &&& run.counts.skipped_bundles == whole.len() - buildable(whole, can_group).len()
        + plans.len() - buildable(plans, can).len()
    &&& run.counts.dropped_individuals == run.cohort.dropped_individuals
    &&& run.counts.dropped_bundles == run.cohort.dropped_bundles
    &&& run.counts.capped_plans == run.cohort.capped_plans
    &&& evaluates(
        run.pending,
        run.answer,
        run.differences,
        cfg.min_improvement,
        run.counts,
        run.outcome,
    )
}

/// What each entry cuts.
pub open spec fn entry_uuids(entries: Seq<FullCandidate>) -> Seq<Seq<Seq<char>>> {
    Seq::new(entries.len(), |i: int| texts(entries[i].uuids@))
}

/// What the winners at these places cut, one neuron each.
pub open spec fn single_cuts(sampled: Seq<SampledWinner>, places: Seq<int>) -> Seq<
    Seq<Seq<char>>,
> {
    Seq::new(places.len(), |i: int| seq![sampled[places[i]].candidate.uuid@])
}

/// What the written entries of one kind cut, in order.
spec fn view_uuids(views: Seq<PendingView>, kind: EntryKind) -> Seq<Seq<Seq<char>>>
    decreases views.len(),
{
    if views.len() == 0 {
        Seq::empty()
    } else {
        let before = view_uuids(views.drop_last(), kind);
        if views.last().kind == kind {
            before.push(views.last().uuids)
        } else {
            before
        }
    }
}

proof fn lemma_view_uuids_add(a: Seq<PendingView>, b: Seq<PendingView>, kind: EntryKind)
    ensures
        view_uuids(a + b, kind) == view_uuids(a, kind) + view_uuids(b, kind),
    decreases b.len(),
{
    if b.len() == 0 {
        assert(a + b =~= a);
        assert(view_uuids(a, kind) + view_uuids(b, kind) =~= view_uuids(a, kind));
    } else {
        assert((a + b).drop_last() =~= a + b.drop_last());
        lemma_view_uuids_add(a, b.drop_last(), kind);
        assert(view_uuids(a + b, kind) =~= view_uuids(a, kind) + view_uuids(b, kind));
    }
}

proof fn lemma_entries_by_kind(
    entries: Seq<FullCandidate>,
    pending: Seq<PendingEntry>,
    answer: Seq<ScoreEntry>,
    differences: Seq<Measure>,
    kind: EntryKind,
)
    requires
        scores_entries(entries, pending, answer, differences),
    ensures
        entry_uuids(of_kind(entries, kind)) == view_uuids(pending_views(pending), kind),
    decreases entries.len(),
{
    reveal(Seq::filter);
    if entries.len() == 0 {
        assert(entry_uuids(of_kind(entries, kind)) =~= Seq::empty());
    } else {
        let init = entries.drop_last();
        let rest = pending.drop_last();
        let n = init.len() as int;
        assert(scores_entries(init, rest, answer, differences)) by {
            assert forall|i: int| 0 <= i < rest.len() implies scores_entry(
                #[trigger] init[i],
                rest[i],
                answer,
                differences,
            ) by {
                assert(init[i] == entries[i] && rest[i] == pending[i]);
            }
        }
        lemma_entries_by_kind(init, rest, answer, differences, kind);
        assert(scores_entry(entries[n], pending[n], answer, differences));
        assert(pending_views(pending).drop_last() =~= pending_views(rest));
        assert(pending_views(pending).last() == pending[n]@);
        let head = of_kind(init, kind);
        let all = of_kind(entries, kind);
        assert(all == if entries.last().kind == kind {
            head.push(entries.last())
        } else {
            head
        });
        if entries.last().kind == kind {
            assert(entry_uuids(all) =~= entry_uuids(head).push(texts(entries.last().uuids@)));
        }
    }
}

proof fn lemma_individual_views(
    sampled: Seq<SampledWinner>,
    places: Seq<usize>,
    views: Seq<PendingView>,
)
    requires
        views.len() <= places.len(),
        views == pending_individuals(sampled, places).take(views.len() as int),
    ensures
        view_uuids(views, EntryKind::Individual) == single_cuts(
            sampled,
            Seq::new(views.len(), |i: int| places[i] as int),
        ),
        view_uuids(views, EntryKind::Bundle).len() == 0,
        view_uuids(views, EntryKind::Group).len() == 0,
    decreases views.len(),
{
    if views.len() > 0 {
        let init = views.drop_last();
        let all = pending_individuals(sampled, places);
        let n = init.len() as int;
        assert(init =~= all.take(n));
        lemma_individual_views(sampled, places, init);
        assert(views.last() == all[n]);
        assert(single_cuts(sampled, Seq::new(views.len(), |i: int| places[i] as int))
            =~= single_cuts(sampled, Seq::new(init.len(), |i: int| places[i] as int)).push(
            seq![sampled[places[n] as int].candidate.uuid@],
        ));
    } else {
        assert(view_uuids(views, EntryKind::Individual) =~= single_cuts(
            sampled,
            Seq::new(views.len(), |i: int| places[i] as int),
        ));
    }
}

proof fn lemma_plan_views(
    kind: EntryKind,
    plans: Seq<Seq<Seq<char>>>,
    built: Seq<bool>,
    can: spec_fn(Seq<Seq<char>>) -> bool,
    other: EntryKind,
)
    requires
        plans.len() <= built.len(),
        forall|i: int| 0 <= i < plans.len() ==> built[i] == can(#[trigger] plans[i]),
    ensures
        view_uuids(pending_plans(kind, plans, built), kind) == buildable(plans, can),
        pending_plans(kind, plans, built).len() == buildable(plans, can).len(),
        other != kind ==> view_uuids(pending_plans(kind, plans, built), other).len() == 0,
    decreases plans.len(),
{
    if plans.len() > 0 {
        let init = plans.drop_last();
        assert forall|i: int| 0 <= i < init.len() implies built[i] == can(#[trigger] init[i]) by {
            assert(init[i] == plans[i]);
        }
        lemma_plan_views(kind, init, built, can, other);
        assert(built[plans.len() - 1] == can(plans[plans.len() - 1]));
        let before = pending_plans(kind, init, built);
        let after = pending_plans(kind, plans, built);
        if can(plans.last()) {
            assert(after.drop_last() =~= before);
        }
    }
}

/// An outcome holds what was planned and could be built: every single cut, and
/// of the neighbourhoods and the combinations those that can be built.
pub proof fn law_outcome_follows_the_plan(
    sampled: Seq<SampledWinner>,
    cfg: FullConfig,
    can_group: spec_fn(Seq<Seq<char>>) -> bool,
    can: spec_fn(Seq<Seq<char>>) -> bool,
    run: ScoredCohort,
)
    requires
        scored(sampled, cfg, can_group, can, run),
    ensures
        ({
            let all = cohort_entries(sampled, cfg);
            let kept = all.take(kept_entries(all.len() as int, cfg.max_entries));
            &&& entry_uuids(run.outcome.individuals@) == single_cuts(
                sampled,
                individual_places(kept),
            )
            &&& entry_uuids(run.outcome.groups@) == buildable(group_list(kept), can_group)
            &&& entry_uuids(run.outcome.bundles@) == buildable(bundle_list(kept), can)
            &&& run.outcome.skipped_bundles == group_list(kept).len() - buildable(
                group_list(kept),
                can_group,
            ).len() + bundle_list(kept).len() - buildable(bundle_list(kept), can).len()
        }),
{
    let whole = text_lists(run.cohort.groups@);
    let plans = text_lists(run.cohort.bundles@);
    let views = pending_views(run.pending);
    let alone = pending_individuals(sampled, run.cohort.individuals@);
    let second = pending_plans(EntryKind::Group, whole, flags(whole, can_group));
    let third = pending_plans(EntryKind::Bundle, plans, flags(plans, can));
    assert(views == alone + second + third);
    assert(alone.take(alone.len() as int) =~= alone);
    lemma_individual_views(sampled, run.cohort.individuals@, alone);
    lemma_plan_views(
        EntryKind::Group,
        whole,
        flags(whole, can_group),
        can_group,
        EntryKind::Individual,
    );
    lemma_plan_views(
        EntryKind::Group,
        whole,
        flags(whole, can_group),
        can_group,
        EntryKind::Bundle,
    );
    lemma_plan_views(EntryKind::Bundle, plans, flags(plans, can), can, EntryKind::Individual);
    lemma_plan_views(EntryKind::Bundle, plans, flags(plans, can), can, EntryKind::Group);
    lemma_three_parts(alone, second, third, EntryKind::Individual);
    lemma_three_parts(alone, second, third, EntryKind::Group);
    lemma_three_parts(alone, second, third, EntryKind::Bundle);
    let (entries, baseline) = choose|entries: Seq<FullCandidate>, baseline: int|
        {
            &&& #[trigger] crate::scorer::scores_at(run.answer, "baseline"@, baseline)
            &&& #[trigger] scores_entries(entries, run.pending, run.answer, run.differences)
            &&& judges(
                entries,
                cfg.min_improvement,
                run.answer[baseline].result,
                run.counts,
                run.outcome,
            )
        };
    lemma_entries_by_kind(
        entries,
        run.pending,
        run.answer,
        run.differences,
        EntryKind::Individual,
    );
    lemma_entries_by_kind(entries, run.pending, run.answer, run.differences, EntryKind::Group);
    lemma_entries_by_kind(entries, run.pending, run.answer, run.differences, EntryKind::Bundle);
    let places = Seq::new(
        run.cohort.individuals@.len(),
        |i: int| run.cohort.individuals@[i] as int,
    );
    assert(Seq::new(alone.len(), |i: int| run.cohort.individuals@[i] as int) =~= places);
    assert(view_uuids(views, EntryKind::Individual) =~= single_cuts(sampled, places));
    assert(view_uuids(views, EntryKind::Group) =~= buildable(whole, can_group));
    assert(view_uuids(views, EntryKind::Bundle) =~= buildable(plans, can));
}

proof fn lemma_three_parts(
    a: Seq<PendingView>,
    b: Seq<PendingView>,
    c: Seq<PendingView>,
    kind: EntryKind,
)
    ensures
        view_uuids(a + b + c, kind) == view_uuids(a, kind) + view_uuids(b, kind) + view_uuids(
            c,
            kind,
        ),
{
    lemma_view_uuids_add(a + b, c, kind);
    lemma_view_uuids_add(a, b, kind);
}

/// Two configurations differ in their limits at most.
pub open spec fn alike(a: FullConfig, b: FullConfig) -> bool {
    &&& a.min_improvement == b.min_improvement
    &&& text_lists(a.extra_plans@) == text_lists(b.extra_plans@)
    &&& text_lists(a.group_plans@) == text_lists(b.group_plans@)
    &&& a.pool@ == b.pool@
}

/// A limit on individuals keeps the best of them, by gain and then by uuid, and
/// leaves alone which combinations and neighbourhoods are scored and how many
/// could not be built.
pub proof fn law_individual_limit_leaves_the_rest_of_the_outcome(
    sampled: Seq<SampledWinner>,
    free_cfg: FullConfig,
    capped_cfg: FullConfig,
    can_group: spec_fn(Seq<Seq<char>>) -> bool,
    can: spec_fn(Seq<Seq<char>>) -> bool,
    free: ScoredCohort,
    limited: ScoredCohort,
)
    requires
        scored(sampled, free_cfg, can_group, can, free),
        scored(sampled, capped_cfg, can_group, can, limited),
        alike(free_cfg, capped_cfg),
        free_cfg.max_individuals is None,
        free_cfg.max_entries is None,
        capped_cfg.max_entries is None,
    ensures
        entry_uuids(free.outcome.individuals@) == single_cuts(sampled, single_places(sampled)),
        entry_uuids(limited.outcome.individuals@) == single_cuts(
            sampled,
            capped(single_places(sampled), capped_cfg.max_individuals),
        ),
        entry_uuids(limited.outcome.bundles@) == entry_uuids(free.outcome.bundles@),
        entry_uuids(limited.outcome.groups@) == entry_uuids(free.outcome.groups@),
        limited.outcome.skipped_bundles == free.outcome.skipped_bundles,
{
    law_outcome_follows_the_plan(sampled, free_cfg, can_group, can, free);
    law_outcome_follows_the_plan(sampled, capped_cfg, can_group, can, limited);
    let a = cohort_entries(sampled, free_cfg);
    let b = cohort_entries(sampled, capped_cfg);
    assert(a.take(a.len() as int) =~= a);
    assert(b.take(b.len() as int) =~= b);
    let whole = text_lists(free_cfg.group_plans@);
    let extra = text_lists(free_cfg.extra_plans@);
    law_individual_limit_leaves_bundles_alone(
        sampled,
        whole,
        extra,
        free_cfg.pool@,
        free_cfg.max_individuals,
        capped_cfg.max_individuals,
    );
    law_carried_winners_are_not_scored_again(
        sampled,
        whole,
        extra,
        free_cfg.max_individuals,
        free_cfg.pool@,
    );
    law_carried_winners_are_not_scored_again(
        sampled,
        whole,
        extra,
        capped_cfg.max_individuals,
        free_cfg.pool@,
    );
}

/// How many entries an outcome holds.
pub open spec fn entry_count(outcome: FullOutcome) -> nat {
    outcome.individuals@.len() + outcome.bundles@.len() + outcome.groups@.len()
}

/// The combinations that a cohort does without last: the given ones, and the
/// plans that must be tried.
pub open spec fn firm_plans(sampled: Seq<SampledWinner>, cfg: FullConfig) -> Seq<Seq<Seq<char>>> {
    let members = bundle_pool(sampled, cfg.pool@);
    text_lists(cfg.extra_plans@) + full_draft(members).plans.take(
        primary_draft(members).plans.len() as int,
    )
}

/// A budget of entries accounts for everything: what it scores, what could not
/// be built and what it drops add up to what is scored and could not be built
/// without it, and it scores no more than it pays for. An individual is scored
/// only if every firm combination is tried, and another combination only if no
/// individual is dropped.
pub proof fn law_budget_keeps_what_matters_most(
    sampled: Seq<SampledWinner>,
    free_cfg: FullConfig,
    tight_cfg: FullConfig,
    can_group: spec_fn(Seq<Seq<char>>) -> bool,
    can: spec_fn(Seq<Seq<char>>) -> bool,
    free: ScoredCohort,
    tight: ScoredCohort,
    most: usize,
)
    requires
        scored(sampled, free_cfg, can_group, can, free),
        scored(sampled, tight_cfg, can_group, can, tight),
        alike(free_cfg, tight_cfg),
        free_cfg.max_individuals == tight_cfg.max_individuals,
        free_cfg.max_entries is None,
        tight_cfg.max_entries == Some(most),
    ensures
        free.outcome.dropped_individuals + free.outcome.dropped_bundles == 0,
        entry_count(tight.outcome) <= if most == 0 {
            1
        } else {
            most as int
        },
        entry_count(tight.outcome) + tight.outcome.skipped_bundles
            + tight.outcome.dropped_individuals + tight.outcome.dropped_bundles == entry_count(
            free.outcome,
        ) + free.outcome.skipped_bundles,
        ({
            let firm = firm_plans(sampled, tight_cfg);
            let tried = text_lists(tight.cohort.bundles@);
            &&& entry_uuids(tight.outcome.bundles@) == buildable(tried, can)
            &&& tight.outcome.individuals@.len() > 0 ==> firm.is_prefix_of(tried)
            &&& tight.outcome.dropped_individuals > 0 ==> tried.is_prefix_of(firm)
        }),
{
    law_outcome_follows_the_plan(sampled, free_cfg, can_group, can, free);
    law_outcome_follows_the_plan(sampled, tight_cfg, can_group, can, tight);
    let all = cohort_entries(sampled, free_cfg);
    assert(all == cohort_entries(sampled, tight_cfg));
    assert(all.take(all.len() as int) =~= all);
    let keep = kept_entries(all.len() as int, tight_cfg.max_entries);
    lemma_counts(all);
    lemma_counts(all.take(keep));
    lemma_counts(all.skip(all.len() as int));
    assert(entry_uuids(free.outcome.individuals@).len() == free.outcome.individuals@.len());
    assert(entry_uuids(free.outcome.bundles@).len() == free.outcome.bundles@.len());
    assert(entry_uuids(free.outcome.groups@).len() == free.outcome.groups@.len());
    assert(entry_uuids(tight.outcome.individuals@).len() == tight.outcome.individuals@.len());
    assert(entry_uuids(tight.outcome.bundles@).len() == tight.outcome.bundles@.len());
    assert(entry_uuids(tight.outcome.groups@).len() == tight.outcome.groups@.len());
    lemma_buildable_bound(group_list(all.take(keep)), can_group);
    lemma_buildable_bound(bundle_list(all.take(keep)), can);
    lemma_priorities(sampled, tight_cfg, keep);
}

proof fn lemma_buildable_bound(
    plans: Seq<Seq<Seq<char>>>,
    can: spec_fn(Seq<Seq<char>>) -> bool,
)
    ensures
        buildable(plans, can).len() <= plans.len(),
    decreases plans.len(),
{
    if plans.len() > 0 {
        lemma_buildable_bound(plans.drop_last(), can);
    }
}

proof fn lemma_bundles_listed(plans: Seq<Seq<Seq<char>>>)
    ensures
        bundle_list(bundles(plans)) == plans,
    decreases plans.len(),
{
    if plans.len() > 0 {
        lemma_bundles_listed(plans.drop_last());
        assert(bundles(plans).drop_last() =~= bundles(plans.drop_last()));
        assert(bundles(plans).last() == EntryView::Bundle(plans.last()));
        assert(plans.drop_last().push(plans.last()) =~= plans);
    } else {
        assert(bundle_list(bundles(plans)) =~= plans);
    }
}

proof fn lemma_priorities(sampled: Seq<SampledWinner>, cfg: FullConfig, keep: int)
    requires
        0 <= keep <= cohort_entries(sampled, cfg).len(),
    ensures
        ({
            let all = cohort_entries(sampled, cfg);
            let firm = firm_plans(sampled, cfg);
            let tried = bundle_list(all.take(keep));
            &&& individual_places(all.take(keep)).len() > 0 ==> firm.is_prefix_of(tried)
            &&& individual_count(all.skip(keep)) > 0 ==> tried.is_prefix_of(firm)
        }),
{
    let all = cohort_entries(sampled, cfg);
    let members = bundle_pool(sampled, cfg.pool@);
    let plans = full_draft(members).plans;
    let primary = primary_draft(members).plans.len() as int;
    let extra = text_lists(cfg.extra_plans@);
    let firm = firm_plans(sampled, cfg);
    let whole = groups(sampled_groups(sampled) + text_lists(cfg.group_plans@));
    let solid = bundles(firm);
    let alone = individuals(sampled, cfg.max_individuals);
    let back = bundles(plans.skip(primary));
    assert(solid =~= bundles(extra) + bundles(plans.take(primary)));
    assert(all =~= whole + solid + alone + back);
    let g = whole.len() as int;
    let f = g + solid.len();
    let t = f + alone.len();
    lemma_no_bundle_in_groups(whole);
    lemma_bundles_listed(firm);
    if keep <= f {
        let head = all.take(keep);
        assert forall|i: int| 0 <= i < head.len() implies !((#[trigger] head[i]) is Individual) by {
            assert(head[i] == (whole + solid)[i]);
        }
        lemma_no_individuals(head);
        if keep <= g {
            assert(head =~= whole.take(keep));
            lemma_no_bundle_in_groups(head);
            assert(bundle_list(head).is_prefix_of(firm)) by {
                assert(bundle_list(head) =~= firm.take(0));
            }
        } else {
            let part = firm.take(keep - g);
            assert(head =~= whole + bundles(part));
            lemma_bundle_list_add(whole, bundles(part));
            lemma_bundles_listed(part);
            assert(bundle_list(head) =~= part);
        }
    } else {
        lemma_bundle_list_add(whole, solid);
        let tail = all.take(keep).skip(f);
        assert(all.take(keep) =~= whole + solid + tail);
        lemma_bundle_list_add(whole + solid, tail);
        let tried = bundle_list(all.take(keep));
        assert(tried =~= firm + bundle_list(tail));
        assert(firm.is_prefix_of(tried)) by {
            assert(tried.take(firm.len() as int) =~= firm);
        }
        if keep <= t {
            assert forall|i: int| 0 <= i < tail.len() implies (#[trigger] tail[i]) is Individual by {
                assert(tail[i] == alone[i]);
            }
            lemma_no_bundles(tail);
            assert(tried =~= firm);
        } else {
            let left = all.skip(keep);
            assert forall|i: int| 0 <= i < left.len() implies !((
            #[trigger] left[i]) is Individual) by {
                assert(left[i] == back[i + keep - t]);
            }
            lemma_no_individuals(left);
            lemma_counts(left);
        }
    }
}

proof fn lemma_no_bundle_in_groups(entries: Seq<EntryView>)
    requires
        forall|i: int| 0 <= i < entries.len() ==> (#[trigger] entries[i]) is Group,
    ensures
        bundle_list(entries).len() == 0,
    decreases entries.len(),
{
    if entries.len() > 0 {
        assert(entries[entries.len() - 1] is Group);
        lemma_no_bundle_in_groups(entries.drop_last());
    }
}

} // verus!
