//! What the journals of a run add up to.
use vstd::prelude::*;

use crate::blocked::{count_texts, BlockedBreakdown, BlockedReason};
use crate::measure::Measure;
use crate::ordering::OrderingStrategy;
use crate::text::{joined, same_text, texts};

verus! {

/// How far screening has come.
#[derive(Clone, Copy, Debug, PartialEq, Eq, Structural)]
pub struct Coverage {
    /// Hidden neurons.
    pub hidden: usize,
    /// Hidden neurons with a tag.
    pub tagged: usize,
    /// Neurons that count.
    pub checkable: usize,
    /// Neurons that were looked at.
    pub checked: usize,
    /// Neurons that could not be proposed.
    pub blocked: usize,
    /// Why not.
    pub blocked_by_reason: BlockedBreakdown,
    /// Neurons that were cut.
    pub cut: usize,
}

impl Coverage {
    /// Neurons that were not looked at yet.
    pub open spec fn left(self) -> usize {
        if self.checkable > self.checked {
            (self.checkable - self.checked) as usize
        } else {
            0
        }
    }

    /// Neurons that were not looked at yet.
    pub fn unchecked(&self) -> (r: usize)
        ensures
            r == self.left(),
    {
        if self.checkable > self.checked {
            self.checkable - self.checked
        } else {
            0
        }
    }

    /// Whether every neuron was looked at.
    pub fn sweep_complete(&self) -> (r: bool)
        ensures
            r == (self.left() == 0),
    {
        self.unchecked() == 0
    }
}

/// What a run tried, kept and rejected.
#[derive(Clone, Copy, Debug, PartialEq, Eq, Structural)]
pub struct Winners {
    /// Candidates that a sample promised.
    pub screened: usize,
    /// Cuts that the whole corpus confirmed.
    pub confirmed: usize,
    /// Cuts that were applied.
    pub applied: usize,
    /// Confirmed cuts that are still waiting.
    pub carried: usize,
    /// Combinations that were scored.
    pub plans: usize,
    /// Combinations that could not be built.
    pub skipped: usize,
    /// The largest number of cuts that were applied at once.
    pub best_cuts: usize,
    /// What they gained.
    pub best_delta: Measure,
    /// Entries that the budget left out.
    pub dropped: usize,
    /// What scoring a creature is estimated to take.
    pub est_ms_per_creature: u64,
}

impl Winners {
    /// Whether anything was tried.
    pub fn has_any(&self) -> (r: bool)
        ensures
            r == (self.screened > 0 || self.plans > 0),
    {
        self.screened > 0 || self.plans > 0
    }
}

/// One record of a journal.
#[derive(Debug)]
pub enum Event {
    /// A run started.
    Start {
        /// The seed of the run.
        seed: u64,
        /// What neurons are ranked by.
        ordering: OrderingStrategy,
        /// The share of visits left to chance.
        ordering_random_quota: Measure,
        /// Hidden neurons at the start.
        hidden: usize,
        /// Synapses at the start.
        synapses: usize,
        /// The incumbent's score at the start.
        opening_score: Measure,
    },
    /// A batch was filled.
    Batch {
        /// Candidates of the batch.
        candidates: usize,
    },
    /// The sweep was rebuilt.
    SweepRestart,
    /// A cut was accepted.
    Cascade {
        /// How the cut was put together.
        kind: String,
        /// How many neurons it names.
        cuts: usize,
        /// Hidden neurons that it was estimated to remove.
        estimated_hidden: usize,
        /// Synapses that it was estimated to remove.
        estimated_synapses: usize,
        /// Hidden neurons that it removed.
        actual_hidden: i64,
        /// Synapses that it removed.
        actual_synapses: i64,
        /// Growth units that it was estimated to save.
        estimated_growth_units: Measure,
        /// Growth units that it saved.
        actual_growth_units: Measure,
    },
    /// A coverage tail ended.
    CoverageTail {
        /// Batches that it screened.
        batches: u64,
    },
    /// A batch was screened.
    Screen,
    /// Screens were filed.
    Screened {
        /// How many.
        screened: usize,
    },
    /// How far screening has come.
    Coverage {
        /// Hidden neurons.
        hidden: usize,
        /// Hidden neurons with a tag.
        tagged: usize,
        /// Neurons that were looked at.
        checked: usize,
        /// Neurons that could not be proposed.
        blocked: usize,
        /// Why not, as far as it was recorded.
        blocked_by_reason: BlockedBreakdown,
        /// Neurons that were cut.
        cut: usize,
        /// The corpus that was screened on.
        corpus_identity: Option<String>,
    },
    /// A cohort was sized.
    Budget {
        /// What scoring a creature is estimated to take.
        est_ms_per_creature: Measure,
        /// Individuals that were left out.
        dropped_individuals: usize,
        /// Combinations that were left out.
        dropped_bundles: usize,
    },
    /// What the run tried, kept and rejected.
    Winners(Winners),
    /// A cohort was scored.
    Full {
        /// Entries that cut one neuron.
        individuals: usize,
        /// Entries that combine cuts.
        bundles: usize,
        /// Entries that cut a neighbourhood.
        groups: usize,
        /// Whether it had a winner.
        accepted: bool,
        /// The winner's score.
        score: Option<Measure>,
        /// How far the winner is ahead.
        delta: Option<Measure>,
        /// How many neurons the winner cut.
        cuts: usize,
        /// When that was.
        elapsed_ms: u64,
    },
    /// The run ended.
    Stop {
        /// Why.
        reason: String,
        /// Cuts that were accepted.
        accepts: u64,
        /// Experiments that were made.
        experiments: u64,
        /// The incumbent's score at the end.
        final_score: Measure,
        /// What this run alone gained.
        cumulative_delta: Measure,
        /// Hidden neurons at the end.
        final_hidden: usize,
        /// Synapses at the end.
        final_synapses: usize,
        /// How long the run took.
        elapsed_ms: u64,
    },
}

/// How the blocked neurons of one corpus break down.
#[derive(Debug)]
pub struct EpochBlocked {
    /// The corpus, if the record names one.
    pub corpus_identity: Option<String>,
    /// Neurons that could not be proposed.
    pub blocked: usize,
    /// Why not.
    pub blocked_by_reason: BlockedBreakdown,
}

impl EpochBlocked {
    /// The row's own breakdown in words; nothing where nothing is blocked. The
    /// shares are those of its ranked reasons, in per cent.
    pub fn reasons(&self, shares: &Vec<String>) -> (r: String)
        requires
            shares@.len() == self.blocked_by_reason.by_count().len(),
        ensures
            r@ == joined(
                count_texts(self.blocked_by_reason.by_count(), texts(shares@)),
                " · "@,
            ),
            self.blocked_by_reason.sum() == 0 ==> r@.len() == 0,
    {
        self.blocked_by_reason.summary(shares)
    }
}

/// The breakdown with every blocked neuron accounted for.
pub open spec fn padded(blocked: usize, reasons: BlockedBreakdown) -> BlockedBreakdown {
    if reasons.sum() < blocked {
        BlockedBreakdown {
            unrecorded: (reasons.unrecorded + (blocked - reasons.sum())) as usize,
            ..reasons
        }
    } else {
        reasons
    }
}

/// Accounts for blocked neurons that no reason was recorded for.
pub fn account_for_every_blocked(blocked: usize, reasons: BlockedBreakdown) -> (r: BlockedBreakdown)
    ensures
        r == padded(blocked, reasons),
        r.sum() >= blocked,
        reasons.sum() <= blocked ==> r.sum() == blocked,
{
    match reasons.checked_total() {
        Some(total) => {
            if total < blocked {
                let mut out = reasons;
                out.unrecorded = reasons.unrecorded + (blocked - total);
                out
            } else {
                reasons
            }
        },
        None => reasons,
    }
}

/// Two optional texts are the same.
pub open spec fn same_identity(a: Option<String>, b: Option<String>) -> bool {
    match (a, b) {
        (Some(x), Some(y)) => x@ == y@,
        (None, None) => true,
        _ => false,
    }
}

fn is_same_identity(a: &Option<String>, b: &Option<String>) -> (r: bool)
    ensures
        r == same_identity(*a, *b),
{
    match (a, b) {
        (Some(x), Some(y)) => *x == *y,
        (None, None) => true,
        _ => false,
    }
}

/// The first row of a corpus; the number of rows if there is none.
pub open spec fn epoch_place(epochs: Seq<EpochBlocked>, identity: Option<String>) -> int
    decreases epochs.len(),
{
    if epochs.len() == 0 || same_identity(epochs[0].corpus_identity, identity) {
        0
    } else {
        1 + epoch_place(epochs.drop_first(), identity)
    }
}

proof fn lemma_epoch_place(epochs: Seq<EpochBlocked>, identity: Option<String>, at: int)
    requires
        0 <= at <= epochs.len(),
        forall|k: int|
            0 <= k < at ==> !same_identity((#[trigger] epochs[k]).corpus_identity, identity),
        at < epochs.len() ==> same_identity(epochs[at].corpus_identity, identity),
    ensures
        epoch_place(epochs, identity) == at,
    decreases epochs.len(),
{
    if epochs.len() > 0 && at > 0 {
        assert(!same_identity(epochs[0].corpus_identity, identity));
        let rest = epochs.drop_first();
        assert forall|k: int| 0 <= k < at - 1 implies !same_identity(
            (#[trigger] rest[k]).corpus_identity,
            identity,
        ) by {
            assert(rest[k] == epochs[k + 1]);
        }
        lemma_epoch_place(rest, identity, at - 1);
    }
}

/// The row that a corpus gets for its coverage.
pub open spec fn epoch_row(corpus_identity: Option<String>, cov: Coverage) -> EpochBlocked {
    EpochBlocked { corpus_identity, blocked: cov.blocked, blocked_by_reason: cov.blocked_by_reason }
}

/// Keeps the latest row of each corpus: the new row replaces an older one of
/// the same corpus, or comes last.
pub fn record_epoch_blocked(
    epochs: &mut Vec<EpochBlocked>,
    corpus_identity: &Option<String>,
    cov: &Coverage,
)
    ensures
        final(epochs)@ == with_epoch(old(epochs)@, epoch_row(*corpus_identity, *cov)),
{
    let identity = match corpus_identity {
        Some(text) => Some(text.clone()),
        None => None,
    };
    let entry = EpochBlocked {
        corpus_identity: identity,
        blocked: cov.blocked,
        blocked_by_reason: cov.blocked_by_reason,
    };
    let mut at: usize = 0;
    while at < epochs.len() && !is_same_identity(
        &epochs[at].corpus_identity,
        &entry.corpus_identity,
    )
        invariant
            at <= epochs@.len(),
            epochs@ == old(epochs)@,
            forall|k: int|
                0 <= k < at ==> !same_identity(
                    (#[trigger] epochs@[k]).corpus_identity,
                    entry.corpus_identity,
                ),
        decreases epochs.len() - at,
    {
        at += 1;
    }
    proof {
        lemma_epoch_place(epochs@, entry.corpus_identity, at as int);
    }
    if at < epochs.len() {
        epochs[at] = entry;
    } else {
        epochs.push(entry);
    }
}

/// The rows with one of them replaced or added.
pub open spec fn with_epoch(epochs: Seq<EpochBlocked>, entry: EpochBlocked) -> Seq<EpochBlocked> {
    let at = epoch_place(epochs, entry.corpus_identity);
    if 0 <= at < epochs.len() {
        epochs.update(at, entry)
    } else {
        epochs.push(entry)
    }
}

/// No two rows are of the same corpus.
pub open spec fn one_row_each(epochs: Seq<EpochBlocked>) -> bool {
    forall|i: int, j: int|
        #![trigger epochs[i], epochs[j]]
        0 <= i < j < epochs.len() ==> !same_identity(
            epochs[i].corpus_identity,
            epochs[j].corpus_identity,
        )
}

proof fn lemma_place_found(epochs: Seq<EpochBlocked>, identity: Option<String>)
    ensures
        0 <= epoch_place(epochs, identity) <= epochs.len(),
        epoch_place(epochs, identity) < epochs.len() ==> same_identity(
            epochs[epoch_place(epochs, identity)].corpus_identity,
            identity,
        ),
        forall|k: int|
            0 <= k < epoch_place(epochs, identity) ==> !same_identity(
                (#[trigger] epochs[k]).corpus_identity,
                identity,
            ),
    decreases epochs.len(),
{
    if epochs.len() > 0 && !same_identity(epochs[0].corpus_identity, identity) {
        let rest = epochs.drop_first();
        lemma_place_found(rest, identity);
        assert forall|k: int| 0 <= k < epoch_place(epochs, identity) implies !same_identity(
            (#[trigger] epochs[k]).corpus_identity,
            identity,
        ) by {
            if k > 0 {
                assert(rest[k - 1] == epochs[k]);
            }
        }
    }
}

/// Recording keeps one row per corpus: the new row takes the place of its
/// corpus, or comes last where the corpus had none, and every other row stays
/// as it was and where it was.
pub proof fn law_one_row_per_corpus(epochs: Seq<EpochBlocked>, entry: EpochBlocked)
    requires
        one_row_each(epochs),
    ensures
        one_row_each(with_epoch(epochs, entry)),
        ({
            let out = with_epoch(epochs, entry);
            let at = epoch_place(epochs, entry.corpus_identity);
            &&& 0 <= at < out.len()
            &&& out[at] == entry
            &&& forall|i: int| 0 <= i < epochs.len() && i != at ==> #[trigger] out[i] == epochs[i]
            &&& if exists|i: int|
                0 <= i < epochs.len() && same_identity(
                    (#[trigger] epochs[i]).corpus_identity,
                    entry.corpus_identity,
                ) {
                out.len() == epochs.len() && same_identity(
                    epochs[at].corpus_identity,
                    entry.corpus_identity,
                )
            } else {
                out.len() == epochs.len() + 1 && at == epochs.len()
            }
        }),
{
    let at = epoch_place(epochs, entry.corpus_identity);
    let out = with_epoch(epochs, entry);
    lemma_place_found(epochs, entry.corpus_identity);
    assert(out[at] == entry);
    assert forall|i: int, j: int|
        #![trigger out[i], out[j]]
        0 <= i < j < out.len() implies !same_identity(
        out[i].corpus_identity,
        out[j].corpus_identity,
    ) by {
        if i != at {
            assert(out[i] == epochs[i]);
        }
        if j != at {
            assert(out[j] == epochs[j]);
        }
        if i == at && at < epochs.len() {
            assert(!same_identity(epochs[at].corpus_identity, epochs[j].corpus_identity));
        }
        if j == at && at < epochs.len() {
            assert(!same_identity(epochs[i].corpus_identity, epochs[at].corpus_identity));
        }
    }
}

/// What journals add up to.
#[derive(Debug)]
pub struct Report {
    /// The journals that were read.
    pub journals: Vec<String>,
    /// What neurons are ranked by.
    pub ordering: Option<OrderingStrategy>,
    /// The share of visits left to chance.
    pub ordering_random_quota: Option<Measure>,
    /// The first incumbent's score.
    pub opening_score: Option<Measure>,
    /// The last incumbent's score.
    pub final_score: Option<Measure>,
    /// Cuts that the last run accepted.
    pub accepts: u64,
    /// Experiments.
    pub experiments: u64,
    /// Cohorts with a winner.
    pub full_accepts: u64,
    /// Cohorts without one.
    pub full_rejects: u64,
    /// Batches that were screened.
    pub screen_calls: u64,
    /// Cohorts that were scored.
    pub full_calls: u64,
    /// Screens that were filed.
    pub screened: u64,
    /// Sweeps that were rebuilt.
    pub sweep_restarts: u64,
    /// Batches that coverage tails screened.
    pub coverage_tail_batches: u64,
    /// How far screening has come.
    pub coverage: Option<Coverage>,
    /// The commonest reason for not proposing a neuron.
    pub dominant_blocked_reason: Option<BlockedReason>,
    /// The blocked neurons of each corpus.
    pub blocked_epochs: Vec<EpochBlocked>,
    /// The corpus that was screened on last.
    pub corpus_identity: Option<String>,
    /// What was tried, kept and rejected.
    pub winners: Option<Winners>,
    /// What scoring a creature is estimated to take.
    pub est_ms_per_creature: Option<Measure>,
    /// Entries that budgets left out.
    pub budget_dropped: usize,
    /// Cohorts that a budget trimmed.
    pub budget_trims: u64,
    /// When the first win came.
    pub first_win_ms: Option<u64>,
    /// Candidates that were filled in before it.
    pub candidates_before_first_win: Option<u64>,
    /// How many neurons each win cut.
    pub accepted_cut_sizes: Vec<usize>,
    /// How many neurons all wins cut.
    pub accepted_cuts: usize,
    /// How long the last run took.
    pub elapsed_ms: Option<u64>,
    /// Hidden neurons and synapses at the start.
    pub opening_structure: Option<(usize, usize)>,
    /// Hidden neurons and synapses at the end.
    pub final_structure: Option<(usize, usize)>,
    /// Cuts whose saving was estimated.
    pub cascade_accepts: u64,
    /// The estimates.
    pub cascade_estimated: Vec<Measure>,
    /// What the cuts saved.
    pub cascade_actual: Vec<Measure>,
    /// Neighbourhoods that were cut at once.
    pub group_accepts: u64,
    /// How many neurons those cuts name.
    pub group_cuts_accepted: usize,
    /// Hidden neurons that they removed.
    pub group_hidden_removed: i64,
    /// Growth units that each of them saved.
    pub group_growth_units: Vec<Measure>,
    /// Why the last run ended.
    pub stop_reason: Option<String>,
    /// The seed of the first run.
    pub seed: Option<u64>,
    /// Candidates filled in so far.
    pub candidates_seen: u64,
}

/// How the cut of a whole neighbourhood is recorded.
pub const GROUP_KIND: &'static str = "group";

/// Every count that the event raises has room for it.
pub open spec fn fits(report: Report, event: Event) -> bool {
    match event {
        Event::Batch { candidates } => report.experiments < u64::MAX && report.candidates_seen
            + candidates <= u64::MAX,
        Event::SweepRestart => report.sweep_restarts < u64::MAX,
        Event::Cascade { kind, cuts, actual_hidden, .. } => {
            &&& report.cascade_accepts < u64::MAX
            &&& kind@ == GROUP_KIND@ ==> report.group_accepts < u64::MAX
                && report.group_cuts_accepted + cuts <= usize::MAX && i64::MIN
                <= report.group_hidden_removed + actual_hidden <= i64::MAX
        },
        Event::CoverageTail { batches } => report.coverage_tail_batches + batches <= u64::MAX,
        Event::Screen => report.screen_calls < u64::MAX,
        Event::Screened { screened } => report.screened + screened <= u64::MAX,
        Event::Budget { est_ms_per_creature, dropped_individuals, dropped_bundles } =>
        report.budget_dropped + dropped_individuals + dropped_bundles <= usize::MAX && (
        dropped_individuals + dropped_bundles > 0 ==> report.budget_trims < u64::MAX),
        Event::Full { accepted, cuts, elapsed_ms, .. } => {
            &&& report.full_calls < u64::MAX
            &&& if accepted {
                report.full_accepts < u64::MAX && report.accepted_cuts + cuts <= usize::MAX
            } else {
                report.full_rejects < u64::MAX
            }
        },
        _ => true,
    }
}

/// The coverage that an event records: every hidden neuron counts.
pub open spec fn coverage_of(
    hidden: usize,
    tagged: usize,
    checked: usize,
    blocked: usize,
    reasons: BlockedBreakdown,
    cut: usize,
) -> Coverage {
    Coverage {
        hidden,
        tagged,
        checkable: hidden,
        checked,
        blocked,
        blocked_by_reason: padded(blocked, reasons),
        cut,
    }
}

/// The commonest reason of a breakdown, if there is any.
pub open spec fn names_dominant(
    reasons: BlockedBreakdown,
    dominant: Option<BlockedReason>,
) -> bool {
    match dominant {
        Some(reason) => reasons.led_by(reason),
        None => reasons.sum() == 0,
    }
}

/// `after` is `before` with the event taken in.
pub open spec fn records(before: Report, event: Event, after: Report) -> bool {
    match event {
        Event::Start {
            seed,
            ordering,
            ordering_random_quota,
            hidden,
            synapses,
            opening_score,
        } => after == (Report {
            seed: Some(before.seed.unwrap_or(seed)),
            ordering: if before.seed is None {
                Some(ordering)
            } else {
                before.ordering
            },
            ordering_random_quota: if before.seed is None {
                Some(ordering_random_quota)
            } else {
                before.ordering_random_quota
            },
            opening_score: Some(before.opening_score.unwrap_or(opening_score)),
            opening_structure: Some(before.opening_structure.unwrap_or((hidden, synapses))),
            ..before
        }),
        Event::Batch { candidates } => after == (Report {
            experiments: (before.experiments + 1) as u64,
            candidates_seen: (before.candidates_seen + candidates) as u64,
            ..before
        }),
        Event::SweepRestart => after == (Report {
            sweep_restarts: (before.sweep_restarts + 1) as u64,
            ..before
        }),
        Event::Cascade {
            kind,
            cuts,
            actual_hidden,
            estimated_growth_units,
            actual_growth_units,
            ..
        } => {
            let counted = Report {
                cascade_accepts: (before.cascade_accepts + 1) as u64,
                cascade_estimated: after.cascade_estimated,
                cascade_actual: after.cascade_actual,
                ..before
            };
            &&& after.cascade_estimated@ == before.cascade_estimated@.push(estimated_growth_units)
            &&& after.cascade_actual@ == before.cascade_actual@.push(actual_growth_units)
            &&& if kind@ == GROUP_KIND@ {
                &&& after.group_growth_units@ == before.group_growth_units@.push(
                    actual_growth_units,
                )
                &&& after == (Report {
                    group_accepts: (before.group_accepts + 1) as u64,
                    group_cuts_accepted: (before.group_cuts_accepted + cuts) as usize,
                    group_hidden_removed: (before.group_hidden_removed + actual_hidden) as i64,
                    group_growth_units: after.group_growth_units,
                    ..counted
                })
            } else {
                after == counted
            }
        },
        Event::CoverageTail { batches } => after == (Report {
            coverage_tail_batches: (before.coverage_tail_batches + batches) as u64,
            ..before
        }),
        Event::Screen => after == (Report {
            screen_calls: (before.screen_calls + 1) as u64,
            ..before
        }),
        Event::Screened { screened } => after == (Report {
            screened: (before.screened + screened) as u64,
            ..before
        }),
        Event::Coverage {
            hidden,
            tagged,
            checked,
            blocked,
            blocked_by_reason,
            cut,
            corpus_identity,
        } => {
            let cov = coverage_of(hidden, tagged, checked, blocked, blocked_by_reason, cut);
            &&& names_dominant(cov.blocked_by_reason, after.dominant_blocked_reason)
            &&& after.blocked_epochs@ == with_epoch(
                before.blocked_epochs@,
                epoch_row(corpus_identity, cov),
            )
            &&& after == (Report {
                coverage: Some(cov),
                dominant_blocked_reason: after.dominant_blocked_reason,
                blocked_epochs: after.blocked_epochs,
                corpus_identity,
                ..before
            })
        },
        Event::Budget { est_ms_per_creature, dropped_individuals, dropped_bundles } => {
            let dropped = dropped_individuals + dropped_bundles;
            after == (Report {
                est_ms_per_creature: if (Measure { bits: 0 }).below(est_ms_per_creature) {
                    Some(est_ms_per_creature)
                } else {
                    before.est_ms_per_creature
                },
                budget_dropped: (before.budget_dropped + dropped) as usize,
                budget_trims: if dropped > 0 {
                    (before.budget_trims + 1) as u64
                } else {
                    before.budget_trims
                },
                ..before
            })
        },
        Event::Winners(winners) => after == (Report { winners: Some(winners), ..before }),
        Event::Full { accepted, cuts, elapsed_ms, .. } => {
            if accepted {
                &&& after.accepted_cut_sizes@ == before.accepted_cut_sizes@.push(cuts)
                &&& after == (Report {
                    full_calls: (before.full_calls + 1) as u64,
                    full_accepts: (before.full_accepts + 1) as u64,
                    accepted_cut_sizes: after.accepted_cut_sizes,
                    accepted_cuts: (before.accepted_cuts + cuts) as usize,
                    first_win_ms: Some(before.first_win_ms.unwrap_or(elapsed_ms)),
                    candidates_before_first_win: if before.first_win_ms is None {
                        Some(before.candidates_seen)
                    } else {
                        before.candidates_before_first_win
                    },
                    ..before
                })
            } else {
                after == (Report {
                    full_calls: (before.full_calls + 1) as u64,
                    full_rejects: (before.full_rejects + 1) as u64,
                    ..before
                })
            }
        },
        Event::Stop {
            reason,
            accepts,
            experiments,
            final_score,
            final_hidden,
            final_synapses,
            elapsed_ms,
            ..
        } => after == (Report {
            stop_reason: Some(reason),
            accepts,
            experiments: if experiments > before.experiments {
                experiments
            } else {
                before.experiments
            },
            final_score: Some(final_score),
            final_structure: Some((final_hidden, final_synapses)),
            elapsed_ms: Some(elapsed_ms),
            ..before
        }),
    }
}

/// No record was taken in yet.
pub open spec fn is_blank(report: Report) -> bool {
    &&& report.blocked_epochs@.len() == 0
    &&& report.accepted_cut_sizes@.len() == 0
    &&& report.cascade_estimated@.len() == 0
    &&& report.cascade_actual@.len() == 0
    &&& report.group_growth_units@.len() == 0
    &&& report == (Report {
        journals: report.journals,
        ordering: None,
        ordering_random_quota: None,
        opening_score: None,
        final_score: None,
        accepts: 0,
        experiments: 0,
        full_accepts: 0,
        full_rejects: 0,
        screen_calls: 0,
        full_calls: 0,
        screened: 0,
        sweep_restarts: 0,
        coverage_tail_batches: 0,
        coverage: None,
        dominant_blocked_reason: None,
        blocked_epochs: report.blocked_epochs,
        corpus_identity: None,
        winners: None,
        est_ms_per_creature: None,
        budget_dropped: 0,
        budget_trims: 0,
        first_win_ms: None,
        candidates_before_first_win: None,
        accepted_cut_sizes: report.accepted_cut_sizes,
        accepted_cuts: 0,
        elapsed_ms: None,
        opening_structure: None,
        final_structure: None,
        cascade_accepts: 0,
        cascade_estimated: report.cascade_estimated,
        cascade_actual: report.cascade_actual,
        group_accepts: 0,
        group_cuts_accepted: 0,
        group_hidden_removed: 0,
        group_growth_units: report.group_growth_units,
        stop_reason: None,
        seed: None,
        candidates_seen: 0,
    })
}

/// One number less another.
#[derive(Clone, Copy, Debug, PartialEq, Eq, Structural)]
pub struct Difference {
    /// What is taken off.
    pub from: Measure,
    /// What it is taken off.
    pub to: Measure,
}

/// So many in so much time.
#[derive(Clone, Copy, Debug, PartialEq, Eq, Structural)]
pub struct Rate {
    /// How many.
    pub count: u64,
    /// In how many milliseconds.
    pub elapsed_ms: u64,
}

impl Report {
    /// What all runs together gained: the last score less the first.
    pub open spec fn gain(self) -> Option<Difference> {
        match (self.opening_score, self.final_score) {
            (Some(from), Some(to)) => Some(Difference { from, to }),
            _ => None,
        }
    }

    /// What all runs together gained: the last score less the first.
    pub fn cumulative_delta(&self) -> (r: Option<Difference>)
        ensures
            r == self.gain(),
    {
        match (self.opening_score, self.final_score) {
            (Some(from), Some(to)) => Some(Difference { from, to }),
            _ => None,
        }
    }

    /// A count in the time that the last run took, if it took any.
    pub open spec fn in_time(self, count: u64) -> Option<Rate> {
        match self.elapsed_ms {
            Some(elapsed_ms) => if elapsed_ms > 0 {
                Some(Rate { count, elapsed_ms })
            } else {
                None
            },
            None => None,
        }
    }

    fn rate_of(&self, count: u64) -> (r: Option<Rate>)
        ensures
            r == self.in_time(count),
    {
        match self.elapsed_ms {
            Some(elapsed_ms) => {
                if elapsed_ms > 0 {
                    Some(Rate { count, elapsed_ms })
                } else {
                    None
                }
            },
            None => None,
        }
    }

    /// How often a cut was accepted in the time that the last run took.
    pub fn accepts_per_hour(&self) -> (r: Option<Rate>)
        ensures
            r == self.in_time(self.accepts),
    {
        self.rate_of(self.accepts)
    }

    /// How many neurons were cut in the time that the last run took.
    pub fn cuts_per_hour(&self) -> (r: Option<Rate>)
        ensures
            r == self.in_time(self.accepted_cuts as u64),
    {
        self.rate_of(self.accepted_cuts as u64)
    }

    /// A report of nothing.
    pub fn new() -> (r: Report)
        ensures
            is_blank(r),
            r.journals@.len() == 0,
    {
        Report {
            journals: Vec::new(),
            ordering: None,
            ordering_random_quota: None,
            opening_score: None,
            final_score: None,
            accepts: 0,
            experiments: 0,
            full_accepts: 0,
            full_rejects: 0,
            screen_calls: 0,
            full_calls: 0,
            screened: 0,
            sweep_restarts: 0,
            coverage_tail_batches: 0,
            coverage: None,
            dominant_blocked_reason: None,
            blocked_epochs: Vec::new(),
            corpus_identity: None,
            winners: None,
            est_ms_per_creature: None,
            budget_dropped: 0,
            budget_trims: 0,
            first_win_ms: None,
            candidates_before_first_win: None,
            accepted_cut_sizes: Vec::new(),
            accepted_cuts: 0,
            elapsed_ms: None,
            opening_structure: None,
            final_structure: None,
            cascade_accepts: 0,
            cascade_estimated: Vec::new(),
            cascade_actual: Vec::new(),
            group_accepts: 0,
            group_cuts_accepted: 0,
            group_hidden_removed: 0,
            group_growth_units: Vec::new(),
            stop_reason: None,
            seed: None,
            candidates_seen: 0,
        }
    }

    /// Whether every count that an event raises has room for it.
    fn has_room(&self, event: &Event) -> (r: bool)
        ensures
            r == fits(*self, *event),
    {
        match event {
            Event::Batch { candidates } => self.experiments < u64::MAX && self.candidates_seen
                <= u64::MAX - *candidates as u64,
            Event::SweepRestart => self.sweep_restarts < u64::MAX,
            Event::Cascade { kind, cuts, actual_hidden, .. } => {
                self.cascade_accepts < u64::MAX && (!same_text(kind.as_str(), GROUP_KIND)
                    || self.group_accepts < u64::MAX && self.group_cuts_accepted <= usize::MAX
                    - *cuts && self.group_hidden_removed.checked_add(*actual_hidden).is_some())
            },
            Event::CoverageTail { batches } => self.coverage_tail_batches <= u64::MAX - *batches,
            Event::Screen => self.screen_calls < u64::MAX,
            Event::Screened { screened } => self.screened <= u64::MAX - *screened as u64,
            Event::Budget { dropped_individuals, dropped_bundles, .. } => {
                let trimmed = *dropped_individuals > 0 || *dropped_bundles > 0;
                if trimmed && self.budget_trims == u64::MAX {
                    return false;
                }
                match self.budget_dropped.checked_add(*dropped_individuals) {
                    Some(sum) => sum.checked_add(*dropped_bundles).is_some(),
                    None => false,
                }
            },
            Event::Full { accepted, cuts, .. } => self.full_calls < u64::MAX && if *accepted {
                self.full_accepts < u64::MAX && self.accepted_cuts <= usize::MAX - *cuts
            } else {
                self.full_rejects < u64::MAX
            },
            _ => true,
        }
    }

    /// Takes in one record of a journal, unless a count has no room for it.
    pub fn record(&mut self, event: Event) -> (done: bool)
        ensures
            done == fits(*old(self), event),
            done ==> records(*old(self), event, *final(self)),
            !done ==> *final(self) == *old(self),
    {
        if !self.has_room(&event) {
            return false;
        }
        match event {
            Event::Start {
                seed,
                ordering,
                ordering_random_quota,
                hidden,
                synapses,
                opening_score,
            } => {
                if self.seed.is_none() {
                    self.seed = Some(seed);
                    self.ordering = Some(ordering);
                    self.ordering_random_quota = Some(ordering_random_quota);
                }
                if self.opening_score.is_none() {
                    self.opening_score = Some(opening_score);
                }
                if self.opening_structure.is_none() {
                    self.opening_structure = Some((hidden, synapses));
                }
            },
            Event::Batch { candidates } => {
                self.experiments += 1;
                self.candidates_seen += candidates as u64;
            },
            Event::SweepRestart => {
                self.sweep_restarts += 1;
            },
            Event::Cascade {
                kind,
                cuts,
                actual_hidden,
                estimated_growth_units,
                actual_growth_units,
                ..
            } => {
                if same_text(kind.as_str(), GROUP_KIND) {
                    self.group_accepts += 1;
                    self.group_cuts_accepted += cuts;
                    self.group_hidden_removed += actual_hidden;
                    self.group_growth_units.push(actual_growth_units);
                }
                self.cascade_estimated.push(estimated_growth_units);
                self.cascade_actual.push(actual_growth_units);
                self.cascade_accepts += 1;
            },
            Event::CoverageTail { batches } => {
                self.coverage_tail_batches += batches;
            },
            Event::Screen => {
                self.screen_calls += 1;
            },
            Event::Screened { screened } => {
                self.screened += screened as u64;
            },
            Event::Coverage {
                hidden,
                tagged,
                checked,
                blocked,
                blocked_by_reason,
                cut,
                corpus_identity,
            } => {
                let cov = Coverage {
                    hidden,
                    tagged,
                    checkable: hidden,
                    checked,
                    blocked,
                    blocked_by_reason: account_for_every_blocked(blocked, blocked_by_reason),
                    cut,
                };
                self.coverage = Some(cov);
                self.dominant_blocked_reason = match cov.blocked_by_reason.dominant() {
                    Some((reason, _)) => Some(reason),
                    None => None,
                };
                record_epoch_blocked(&mut self.blocked_epochs, &corpus_identity, &cov);
                self.corpus_identity = corpus_identity;
            },
            Event::Budget { est_ms_per_creature, dropped_individuals, dropped_bundles } => {
                if Measure::zero().lt(est_ms_per_creature) {
                    self.est_ms_per_creature = Some(est_ms_per_creature);
                }
                let dropped: usize = dropped_individuals + dropped_bundles;
                self.budget_dropped += dropped;
                if dropped > 0 {
                    self.budget_trims += 1;
                }
            },
            Event::Winners(winners) => {
                self.winners = Some(winners);
            },
            Event::Full { accepted, cuts, elapsed_ms, .. } => {
                self.full_calls += 1;
                if accepted {
                    self.full_accepts += 1;
                    self.accepted_cut_sizes.push(cuts);
                    self.accepted_cuts += cuts;
                    if self.first_win_ms.is_none() {
                        self.first_win_ms = Some(elapsed_ms);
                        self.candidates_before_first_win = Some(self.candidates_seen);
                    }
                } else {
                    self.full_rejects += 1;
                }
            },
            Event::Stop {
                reason,
                accepts,
                experiments,
                final_score,
                final_hidden,
                final_synapses,
                elapsed_ms,
                ..
            } => {
                self.stop_reason = Some(reason);
                self.accepts = accepts;
                if experiments > self.experiments {
                    self.experiments = experiments;
                }
                self.final_score = Some(final_score);
                self.final_structure = Some((final_hidden, final_synapses));
                self.elapsed_ms = Some(elapsed_ms);
            },
        }
        true
    }
}

/// Each report follows from the one before it by the event between them.
pub open spec fn follows_events(states: Seq<Report>, events: Seq<Event>) -> bool {
    &&& states.len() == events.len() + 1
    &&& forall|i: int|
        #![trigger events[i]]
        0 <= i < events.len() ==> fits(states[i], events[i]) && records(
            states[i],
            events[i],
            states[i + 1],
        )
}

/// A report of nothing but the journals' names.
pub open spec fn starts_from(report: Report, names: Seq<String>) -> bool {
    report.journals@ == names && is_blank(report)
}

/// Adds up the records of journals, in order; nothing where a count has no
/// room for what the journals record.
pub fn summarise(names: Vec<String>, events: Vec<Event>) -> (r: Option<Report>)
    ensures
        match r {
            Some(report) => exists|states: Seq<Report>|
                {
                    &&& #[trigger] follows_events(states, events@)
                    &&& starts_from(states[0], names@)
                    &&& states.last() == report
                },
            None => exists|states: Seq<Report>, n: int|
                {
                    &&& 0 <= n < events@.len()
                    &&& #[trigger] follows_events(states, events@.take(n))
                    &&& starts_from(states[0], names@)
                    &&& !fits(states.last(), events@[n])
                },
        },
{
    let mut report = Report::new();
    report.journals = names;
    let ghost all = events@;
    let ghost mut states: Seq<Report> = seq![report];
    proof {
        assert(starts_from(report, names@));
        assert(all.take(0) =~= Seq::empty());
        assert(follows_events(states, all.take(0)));
    }
    let mut rest = crate::list::reversed(events);
    while rest.len() > 0
        invariant
            all == events@,
            rest@.len() <= all.len(),
            forall|k: int| 0 <= k < rest@.len() ==> rest@[k] == all[all.len() - 1 - k],
            follows_events(states, all.take(all.len() - rest@.len())),
            starts_from(states[0], names@),
            states.last() == report,
        decreases rest.len(),
    {
        let ghost at = all.len() - rest@.len();
        let ghost before = report;
        match rest.pop() {
            Some(event) => {
                assert(event == all[at]);
                if !report.record(event) {
                    assert(follows_events(states, all.take(at)));
                    return None;
                }
                proof {
                    let more = states.push(report);
                    assert(follows_events(more, all.take(at + 1))) by {
                        assert forall|i: int|
                            #![trigger all.take(at + 1)[i]]
                            0 <= i < at + 1 implies fits(more[i], all.take(at + 1)[i]) && records(
                            more[i],
                            all.take(at + 1)[i],
                            more[i + 1],
                        ) by {
                            if i < at {
                                assert(all.take(at)[i] == all[i]);
                                assert(more[i] == states[i] && more[i + 1] == states[i + 1]);
                            }
                        }
                    }
                    states = more;
                }
            },
            None => {},
        }
    }
    assert(all.take(all.len() as int) =~= all);
    Some(report)
}

/// The sum of the sizes.
pub open spec fn total_size(sizes: Seq<usize>) -> int
    decreases sizes.len(),
{
    if sizes.len() == 0 {
        0
    } else {
        total_size(sizes.drop_last()) + sizes.last()
    }
}

/// The figures of a report agree with each other.
pub open spec fn consistent(report: Report) -> bool {
    &&& report.full_calls == report.full_accepts + report.full_rejects
    &&& report.accepted_cut_sizes@.len() == report.full_accepts
    &&& report.accepted_cuts == total_size(report.accepted_cut_sizes@)
    &&& report.first_win_ms is Some <==> report.full_accepts > 0
    &&& report.candidates_before_first_win is Some <==> report.full_accepts > 0
    &&& report.cascade_estimated@.len() == report.cascade_accepts
    &&& report.cascade_actual@.len() == report.cascade_accepts
    &&& report.group_accepts <= report.cascade_accepts
    &&& report.group_growth_units@.len() == report.group_accepts
    &&& one_row_each(report.blocked_epochs@)
    &&& forall|i: int|
        0 <= i < report.blocked_epochs@.len() ==> (
        #[trigger] report.blocked_epochs@[i]).blocked_by_reason.sum()
            >= report.blocked_epochs@[i].blocked
    &&& report.coverage matches Some(cov) ==> cov.checkable == cov.hidden
        && cov.blocked_by_reason.sum() >= cov.blocked
}

/// A blank report is consistent.
pub proof fn law_blank_reports_are_consistent(report: Report)
    requires
        is_blank(report),
    ensures
        consistent(report),
{
}

/// The score at the first start.
pub open spec fn first_opening(events: Seq<Event>) -> Option<Measure>
    decreases events.len(),
{
    if events.len() == 0 {
        None
    } else {
        match first_opening(events.drop_last()) {
            Some(score) => Some(score),
            None => match events.last() {
                Event::Start { opening_score, .. } => Some(opening_score),
                _ => None,
            },
        }
    }
}

/// The score at the last stop.
pub open spec fn last_final(events: Seq<Event>) -> Option<Measure>
    decreases events.len(),
{
    if events.len() == 0 {
        None
    } else {
        match events.last() {
            Event::Stop { final_score, .. } => Some(final_score),
            _ => last_final(events.drop_last()),
        }
    }
}

/// However many runs the journals hold, the gain spans them all: from the first
/// start to the last stop.
pub proof fn law_gain_spans_all_runs(states: Seq<Report>, events: Seq<Event>)
    requires
        follows_events(states, events),
        is_blank(states[0]),
    ensures
        states.last().gain() == match (first_opening(events), last_final(events)) {
            (Some(from), Some(to)) => Some(Difference { from, to }),
            _ => None,
        },
{
    lemma_ends(states, events);
}

proof fn lemma_ends(states: Seq<Report>, events: Seq<Event>)
    requires
        follows_events(states, events),
        is_blank(states[0]),
    ensures
        states.last().opening_score == first_opening(events),
        states.last().final_score == last_final(events),
    decreases events.len(),
{
    if events.len() > 0 {
        let init = events.drop_last();
        let so_far = states.drop_last();
        assert(follows_events(so_far, init)) by {
            assert forall|i: int| #![trigger init[i]] 0 <= i < init.len() implies fits(
                so_far[i],
                init[i],
            ) && records(so_far[i], init[i], so_far[i + 1]) by {
                assert(init[i] == events[i]);
            }
        }
        lemma_ends(so_far, init);
        let n = init.len() as int;
        assert(events[n] == events.last());
        assert(records(states[n], events[n], states[n + 1]));
        assert(so_far.last() == states[n]);
    }
}

/// Taking in a record keeps the figures of a report consistent.
pub proof fn law_records_keep_the_figures_consistent(before: Report, event: Event, after: Report)
    requires
        consistent(before),
        fits(before, event),
        records(before, event, after),
    ensures
        consistent(after),
{
    match event {
        Event::Coverage {
            hidden,
            tagged,
            checked,
            blocked,
            blocked_by_reason,
            cut,
            corpus_identity,
        } => {
            let cov = coverage_of(hidden, tagged, checked, blocked, blocked_by_reason, cut);
            let row = epoch_row(corpus_identity, cov);
            let at = epoch_place(before.blocked_epochs@, corpus_identity);
            law_one_row_per_corpus(before.blocked_epochs@, row);
            assert forall|i: int| 0 <= i < after.blocked_epochs@.len() implies (
            #[trigger] after.blocked_epochs@[i]).blocked_by_reason.sum()
                >= after.blocked_epochs@[i].blocked by {
                if i != at {
                    assert(after.blocked_epochs@[i] == before.blocked_epochs@[i]);
                }
            }
        },
        Event::Full { accepted, cuts, elapsed_ms, .. } => {
            if accepted {
                assert(after.accepted_cut_sizes@.drop_last() =~= before.accepted_cut_sizes@);
            }
        },
        _ => {},
    }
}

/// What each record counts: batches and their candidates, rebuilt sweeps, screens,
/// filed screens, tail batches, cohorts by whether they had a winner and how many
/// neurons the winners cut, accepted cuts, those of them that cut a neighbourhood,
/// and what budgets left out. Nothing else moves these figures, but that a stop
/// tells how many cuts its run accepted and at least how many experiments there
/// were.
pub proof fn law_each_record_counts_for_itself(before: Report, event: Event, after: Report)
    requires
        fits(before, event),
        records(before, event, after),
    ensures
        after.experiments == match event {
            Event::Batch { .. } => before.experiments + 1,
            Event::Stop { experiments, .. } => vstd::math::max(
                before.experiments as int,
                experiments as int,
            ),
            _ => before.experiments as int,
        },
        after.candidates_seen == before.candidates_seen + match event {
            Event::Batch { candidates } => candidates as int,
            _ => 0,
        },
        after.accepts == match event {
            Event::Stop { accepts, .. } => accepts,
            _ => before.accepts,
        },
        after.sweep_restarts == before.sweep_restarts + if event is SweepRestart {
            1int
        } else {
            0
        },
        after.screen_calls == before.screen_calls + if event is Screen {
            1int
        } else {
            0
        },
        after.screened == before.screened + match event {
            Event::Screened { screened } => screened as int,
            _ => 0,
        },
        after.coverage_tail_batches == before.coverage_tail_batches + match event {
            Event::CoverageTail { batches } => batches as int,
            _ => 0,
        },
        ({
            let won = event matches Event::Full { accepted, .. } && accepted;
            let cuts = if won {
                event->Full_cuts as int
            } else {
                0
            };
            &&& after.full_calls == before.full_calls + if event is Full {
                1int
            } else {
                0
            }
            &&& after.full_accepts == before.full_accepts + if won {
                1int
            } else {
                0
            }
            &&& after.full_rejects == before.full_rejects + if event is Full && !won {
                1int
            } else {
                0
            }
            &&& after.accepted_cuts == before.accepted_cuts + cuts
            &&& after.accepted_cut_sizes@ == if won {
                before.accepted_cut_sizes@.push(cuts as usize)
            } else {
                before.accepted_cut_sizes@
            }
        }),
        ({
            let whole = event matches Event::Cascade { kind, .. } && kind@ == "group"@;
            &&& after.cascade_accepts == before.cascade_accepts + if event is Cascade {
                1int
            } else {
                0
            }
            &&& after.group_accepts == before.group_accepts + if whole {
                1int
            } else {
                0
            }
            &&& after.group_cuts_accepted == before.group_cuts_accepted + if whole {
                event->Cascade_cuts as int
            } else {
                0
            }
            &&& after.group_hidden_removed == before.group_hidden_removed + if whole {
                event->actual_hidden as int
            } else {
                0
            }
            &&& after.cascade_estimated@ == if event is Cascade {
                before.cascade_estimated@.push(event->estimated_growth_units)
            } else {
                before.cascade_estimated@
            }
            &&& after.cascade_actual@ == if event is Cascade {
                before.cascade_actual@.push(event->actual_growth_units)
            } else {
                before.cascade_actual@
            }
            &&& after.group_growth_units@ == if whole {
                before.group_growth_units@.push(event->actual_growth_units)
            } else {
                before.group_growth_units@
            }
        }),
        ({
            let left_out = match event {
                Event::Budget { dropped_individuals, dropped_bundles, .. } => dropped_individuals
                    + dropped_bundles,
                _ => 0int,
            };
            &&& after.budget_dropped == before.budget_dropped + left_out
            &&& after.budget_trims == before.budget_trims + if left_out > 0 {
                1int
            } else {
                0
            }
        }),
{
}

/// What a report keeps of the first record that tells it: the seed, the ordering and
/// the share left to chance, the opening score and structure, and when the first
/// win came and how many candidates had been filled in before it.
pub proof fn law_first_records_stand(before: Report, event: Event, after: Report)
    requires
        records(before, event, after),
    ensures
        before.seed is Some || !(event is Start) ==> after.seed == before.seed && after.ordering
            == before.ordering && after.ordering_random_quota == before.ordering_random_quota,
        before.seed is None && event is Start ==> after.seed == Some(event->seed)
            && after.ordering == Some(event->ordering) && after.ordering_random_quota == Some(
            event->ordering_random_quota,
        ),
        after.opening_score == if before.opening_score is None && event is Start {
            Some(event->opening_score)
        } else {
            before.opening_score
        },
        after.opening_structure == if before.opening_structure is None && event is Start {
            Some((event->Start_hidden, event->Start_synapses))
        } else {
            before.opening_structure
        },
        ({
            let won = event matches Event::Full { accepted, .. } && accepted;
            &&& before.first_win_ms is None && won ==> after.first_win_ms == Some(
                event->Full_elapsed_ms,
            ) && after.candidates_before_first_win == Some(before.candidates_seen)
            &&& before.first_win_ms is Some || !won ==> after.first_win_ms == before.first_win_ms
                && after.candidates_before_first_win == before.candidates_before_first_win
        }),
        after.journals == before.journals,
{
}

/// What a report keeps of the latest record that tells it: the final score and
/// structure, why and after what time the run stopped, the winners, an estimate of
/// what a creature costs, and the coverage with its corpus.
pub proof fn law_latest_records_stand(before: Report, event: Event, after: Report)
    requires
        records(before, event, after),
    ensures
        match event {
            Event::Stop {
                reason,
                final_score,
                final_hidden,
                final_synapses,
                elapsed_ms,
                ..
            } => {
                &&& after.stop_reason == Some(reason)
                &&& after.final_score == Some(final_score)
                &&& after.final_structure == Some((final_hidden, final_synapses))
                &&& after.elapsed_ms == Some(elapsed_ms)
            },
            _ => {
                &&& after.stop_reason == before.stop_reason
                &&& after.final_score == before.final_score
                &&& after.final_structure == before.final_structure
                &&& after.elapsed_ms == before.elapsed_ms
            },
        },
        after.winners == match event {
            Event::Winners(winners) => Some(winners),
            _ => before.winners,
        },
        after.est_ms_per_creature == match event {
            Event::Budget { est_ms_per_creature, .. } => if !est_ms_per_creature.nan()
                && est_ms_per_creature.position() > 0 {
                Some(est_ms_per_creature)
            } else {
                before.est_ms_per_creature
            },
            _ => before.est_ms_per_creature,
        },
        !(event is Coverage) ==> after.coverage == before.coverage && after.corpus_identity
            == before.corpus_identity && after.dominant_blocked_reason
            == before.dominant_blocked_reason && after.blocked_epochs@ == before.blocked_epochs@,
{
}

/// A coverage record stands as it is, over every hidden neuron, with each blocked
/// neuron accounted for: what no reason was recorded for counts as unrecorded. The
/// reason that is told is one that blocks most, and the row of the corpus holds
/// the same figures.
pub proof fn law_coverage_accounts_for_the_blocked(
    before: Report,
    event: Event,
    after: Report,
    row: int,
)
    requires
        records(before, event, after),
        event is Coverage,
    ensures
        ({
            let told = event->blocked_by_reason;
            let sum = told.aggregate_squash + told.missing_activation + told.unsafe_topology
                + told.validation_failed + told.unrecorded + told.other;
            let missing = if sum < event->blocked {
                event->blocked - sum
            } else {
                0
            };
            let cov = after.coverage->0;
            let kept = cov.blocked_by_reason;
            &&& after.coverage is Some
            &&& cov.hidden == event->Coverage_hidden && cov.checkable == event->Coverage_hidden
            &&& cov.tagged == event->tagged && cov.checked == event->checked
            &&& cov.blocked == event->blocked && cov.cut == event->cut
            &&& kept.aggregate_squash == told.aggregate_squash
            &&& kept.missing_activation == told.missing_activation
            &&& kept.unsafe_topology == told.unsafe_topology
            &&& kept.validation_failed == told.validation_failed
            &&& kept.other == told.other
            &&& sum <= usize::MAX ==> kept.unrecorded == told.unrecorded + missing
            &&& after.corpus_identity == event->corpus_identity
            &&& match after.dominant_blocked_reason {
                Some(reason) => {
                    let most = kept.of(reason);
                    &&& most > 0
                    &&& most >= kept.aggregate_squash && most >= kept.missing_activation
                    &&& most >= kept.unsafe_topology && most >= kept.validation_failed
                    &&& most >= kept.unrecorded && most >= kept.other
                },
                None => sum + missing == 0,
            }
            &&& 0 <= row < after.blocked_epochs@.len() && same_identity(
                after.blocked_epochs@[row].corpus_identity,
                event->corpus_identity,
            ) && one_row_each(before.blocked_epochs@) ==> after.blocked_epochs@[row].blocked
                == event->blocked && after.blocked_epochs@[row].blocked_by_reason == kept
        }),
{
    let cov = after.coverage->0;
    let kept = cov.blocked_by_reason;
    if let Some(reason) = after.dominant_blocked_reason {
        assert(kept.led_by(reason));
        assert(kept.of(BlockedReason::AggregateSquash) <= kept.of(reason));
        assert(kept.of(BlockedReason::MissingActivation) <= kept.of(reason));
        assert(kept.of(BlockedReason::UnsafeTopology) <= kept.of(reason));
        assert(kept.of(BlockedReason::ValidationFailed) <= kept.of(reason));
        assert(kept.of(BlockedReason::Unrecorded) <= kept.of(reason));
        assert(kept.of(BlockedReason::Other) <= kept.of(reason));
    }
    let new = epoch_row(event->corpus_identity, cov);
    let at = epoch_place(before.blocked_epochs@, event->corpus_identity);
    lemma_place_found(before.blocked_epochs@, event->corpus_identity);
    if one_row_each(before.blocked_epochs@) {
        law_one_row_per_corpus(before.blocked_epochs@, new);
        if 0 <= row < after.blocked_epochs@.len() && same_identity(
            after.blocked_epochs@[row].corpus_identity,
            event->corpus_identity,
        ) {
            let rows = after.blocked_epochs@;
            if row < at {
                assert(!same_identity(rows[row].corpus_identity, rows[at].corpus_identity));
            } else if at < row {
                assert(!same_identity(rows[at].corpus_identity, rows[row].corpus_identity));
            }
        }
    }
}

/// A gain is known exactly where both ends are, and leads from the first to the
/// last; a rate is known exactly where the last run took any time.
pub proof fn law_gains_and_rates_are_formed_from_their_ends(report: Report, count: u64)
    ensures
        report.gain() is Some <==> report.opening_score is Some && report.final_score is Some,
        report.gain() matches Some(gain) ==> gain.from == report.opening_score->0 && gain.to
            == report.final_score->0,
        report.in_time(count) is Some <==> report.elapsed_ms is Some && report.elapsed_ms->0 > 0,
        report.in_time(count) matches Some(rate) ==> rate.count == count && rate.elapsed_ms
            == report.elapsed_ms->0,
{
}

/// Records fit wherever the counts that they raise do.
pub proof fn law_only_full_counts_refuse_a_record(report: Report, event: Event)
    requires
        report.experiments < u64::MAX && report.sweep_restarts < u64::MAX,
        report.cascade_accepts < u64::MAX && report.group_accepts < u64::MAX,
        report.screen_calls < u64::MAX && report.budget_trims < u64::MAX,
        report.full_calls < u64::MAX && report.full_accepts < u64::MAX,
        report.full_rejects < u64::MAX,
        event matches Event::Batch { candidates } ==> report.candidates_seen + candidates
            <= u64::MAX,
        event matches Event::CoverageTail { batches } ==> report.coverage_tail_batches + batches
            <= u64::MAX,
        event matches Event::Screened { screened } ==> report.screened + screened <= u64::MAX,
        event matches Event::Budget { dropped_individuals, dropped_bundles, .. }
            ==> report.budget_dropped + dropped_individuals + dropped_bundles <= usize::MAX,
        event matches Event::Full { accepted, cuts, .. } ==> !accepted || report.accepted_cuts
            + cuts <= usize::MAX,
        event matches Event::Cascade { kind, cuts, actual_hidden, .. } ==> kind@ != "group"@ || (
        report.group_cuts_accepted + cuts <= usize::MAX && i64::MIN <= report.group_hidden_removed
            + actual_hidden <= i64::MAX),
    ensures
        fits(report, event),
{
}

/// A report of nothing has every count at nothing and tells nothing.
pub proof fn law_blank_reports_tell_nothing(report: Report)
    requires
        is_blank(report),
    ensures
        report.accepts == 0 && report.experiments == 0 && report.candidates_seen == 0,
        report.full_accepts == 0 && report.full_rejects == 0 && report.full_calls == 0,
        report.screen_calls == 0 && report.screened == 0 && report.sweep_restarts == 0,
        report.coverage_tail_batches == 0 && report.budget_dropped == 0 && report.budget_trims == 0,
        report.accepted_cuts == 0 && report.cascade_accepts == 0 && report.group_accepts == 0,
        report.group_cuts_accepted == 0 && report.group_hidden_removed == 0,
        report.seed is None && report.ordering is None && report.ordering_random_quota is None,
        report.opening_score is None && report.final_score is None && report.coverage is None,
        report.winners is None && report.est_ms_per_creature is None && report.stop_reason is None,
        report.first_win_ms is None && report.candidates_before_first_win is None,
        report.elapsed_ms is None && report.opening_structure is None && report.final_structure
            is None,
        report.dominant_blocked_reason is None && report.corpus_identity is None,
        report.blocked_epochs@.len() == 0 && report.accepted_cut_sizes@.len() == 0,
        report.cascade_estimated@.len() == 0 && report.cascade_actual@.len() == 0
            && report.group_growth_units@.len() == 0,
{
}

/// Two records are of the same corpus exactly if both name it alike or neither names
/// one.
pub proof fn law_corpora_are_told_apart_by_name(a: Option<String>, b: Option<String>)
    ensures
        same_identity(a, b) <==> (a is None && b is None) || (a is Some && b is Some && a->0@
            == b->0@),
{
}

/// What is left to look at is what counts and was not looked at, and nothing where
/// more was looked at than counts.
pub proof fn law_what_is_left_was_not_checked(cov: Coverage)
    ensures
        cov.checked <= cov.checkable ==> cov.left() + cov.checked == cov.checkable,
        cov.checked >= cov.checkable ==> cov.left() == 0,
{
}

} // verus!
