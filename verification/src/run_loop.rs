//! The pruning loop as a state machine.
//!
//! The loop itself scores creatures and writes files; what it does next, and
//! why it stops, is decided here.
use vstd::prelude::*;

use crate::list::{law_filter_picks_in_order, law_true_places_ascend, stands_at, true_places};
use crate::promote::{replay_plans, replays, REPLAY_PROBE_LIMIT};
use crate::text::{holds, texts};

verus! {

/// Why a run, or its coverage tail, came to an end.
#[derive(Clone, Copy, Debug, PartialEq, Eq, Structural)]
pub enum StopReason {
    /// No hidden neuron is left.
    NoHidden,
    /// The run was cancelled.
    Cancelled,
    /// The time is up.
    Timeout,
    /// The experiments are used up.
    MaxExperiments,
    /// A replayed win was accepted.
    ReplayAccepts,
    /// The scorer failed too often in a row.
    ScorerFailures,
    /// A whole pass proposed nothing.
    NoCandidates,
    /// Not even a minimal cohort fits the time that is left.
    Budget,
}

/// The code of a reason.
pub open spec fn stop_code(reason: StopReason) -> Seq<char> {
    match reason {
        StopReason::NoHidden => "no-hidden"@,
        StopReason::Cancelled => "cancelled"@,
        StopReason::Timeout => "timeout"@,
        StopReason::MaxExperiments => "max-experiments"@,
        StopReason::ReplayAccepts => "replay-accepts"@,
        StopReason::ScorerFailures => "scorer-failures"@,
        StopReason::NoCandidates => "no-candidates"@,
        StopReason::Budget => "budget"@,
    }
}

impl StopReason {
    /// The code that journals carry.
    pub fn code(self) -> (r: &'static str)
        ensures
            r@ == stop_code(self),
    {
        match self {
            StopReason::NoHidden => "no-hidden",
            StopReason::Cancelled => "cancelled",
            StopReason::Timeout => "timeout",
            StopReason::MaxExperiments => "max-experiments",
            StopReason::ReplayAccepts => "replay-accepts",
            StopReason::ScorerFailures => "scorer-failures",
            StopReason::NoCandidates => "no-candidates",
            StopReason::Budget => "budget",
        }
    }
}

/// Where the loop stands.
#[derive(Clone, Copy, Debug, PartialEq, Eq, Structural)]
pub struct LoopState {
    /// Cuts accepted so far.
    pub accepts: u64,
    /// Batches and replays attempted so far.
    pub experiments: u64,
    /// Scorer failures since the last success.
    pub consecutive_fail: u32,
    /// The number of the next batch.
    pub batch_idx: u64,
    /// Why the run would stop if it stopped now.
    pub stop_reason: StopReason,
    /// How often an exhausted sweep was rebuilt.
    pub restarts: u64,
    /// Candidates that the current pass proposed.
    pub pass_candidates: usize,
    /// Batches that were screened.
    pub screened_batches: u64,
    /// Whether nothing is left to replay.
    pub replay_done: bool,
    /// Whether the search is over and only coverage is advanced.
    pub coverage_tail: bool,
    /// Batches screened in the tail.
    pub tail_batches: u64,
    /// Candidates screened in the tail.
    pub tail_screened: usize,
    /// What ended the tail, where it was no fault.
    pub tail_end: Option<StopReason>,
}

/// What the loop sees at the top of an iteration.
#[derive(Clone, Copy, Debug)]
pub struct Gate {
    /// Hidden neurons of the incumbent.
    pub hidden: usize,
    /// Whether the run was cancelled.
    pub cancelled: bool,
    /// Whether the deadline has passed.
    pub timed_out: bool,
    /// Most experiments of the run.
    pub max_experiments: Option<u64>,
    /// Whether the last screening batch is reserved.
    pub reserving: bool,
    /// Whether the sweep has visited everything.
    pub exhausted: bool,
}

/// What the loop does next.
#[derive(Clone, Copy, Debug, PartialEq, Eq, Structural)]
pub enum Step {
    /// Leave the loop.
    Stop,
    /// Try to replay known wins.
    Replay,
    /// Rebuild the exhausted sweep.
    Restart,
    /// Screen the next batch.
    Batch,
}

impl LoopState {
    /// A benign end: the tail records it, a search stops for it.
    pub open spec fn ended(self, reason: StopReason) -> LoopState {
        if self.coverage_tail {
            LoopState { tail_end: Some(reason), ..self }
        } else {
            LoopState { stop_reason: reason, ..self }
        }
    }

    /// The experiments are used up.
    pub open spec fn spent(self, max_experiments: Option<u64>) -> bool {
        max_experiments matches Some(max) && self.experiments >= max
    }

    /// What the loop does next, and the state it does it in.
    pub open spec fn next(self, gate: Gate) -> (LoopState, Step) {
        if gate.hidden == 0 {
            (self, Step::Stop)
        } else if gate.cancelled {
            (LoopState { stop_reason: StopReason::Cancelled, ..self }, Step::Stop)
        } else if gate.timed_out {
            (self.ended(StopReason::Timeout), Step::Stop)
        } else if self.spent(gate.max_experiments) {
            (self.ended(StopReason::MaxExperiments), Step::Stop)
        } else if !self.replay_done && !gate.reserving && !self.coverage_tail {
            (self, Step::Replay)
        } else if gate.exhausted && self.pass_candidates == 0 {
            (self.ended(StopReason::NoCandidates), Step::Stop)
        } else if gate.exhausted {
            (
                LoopState { restarts: (self.restarts + 1) as u64, pass_candidates: 0, ..self },
                Step::Restart,
            )
        } else {
            (self, Step::Batch)
        }
    }

    /// Every counter can be raised once more, by `more` where it counts
    /// candidates.
    pub open spec fn has_room(self, more: usize) -> bool {
        &&& self.accepts < u64::MAX
        &&& self.experiments < u64::MAX
        &&& self.consecutive_fail < u32::MAX
        &&& self.batch_idx < u64::MAX
        &&& self.restarts < u64::MAX
        &&& self.screened_batches < u64::MAX
        &&& self.tail_batches < u64::MAX
        &&& self.pass_candidates + more <= usize::MAX
        &&& self.tail_screened + more <= usize::MAX
    }

    /// Whether every counter can be raised once more.
    pub fn can_count(&self, more: usize) -> (r: bool)
        ensures
            r == self.has_room(more),
    {
        self.accepts < u64::MAX && self.experiments < u64::MAX && self.consecutive_fail < u32::MAX
            && self.batch_idx < u64::MAX && self.restarts < u64::MAX && self.screened_batches
            < u64::MAX && self.tail_batches < u64::MAX && self.pass_candidates <= usize::MAX - more
            && self.tail_screened <= usize::MAX - more
    }

    /// The state in which a run starts.
    pub open spec fn fresh(self) -> bool {
        self == (LoopState {
            accepts: 0,
            experiments: 0,
            consecutive_fail: 0,
            batch_idx: 0,
            stop_reason: StopReason::NoHidden,
            restarts: 0,
            pass_candidates: 0,
            screened_batches: 0,
            replay_done: false,
            coverage_tail: false,
            tail_batches: 0,
            tail_screened: 0,
            tail_end: None,
        })
    }

    /// The state in which a run starts.
    pub fn new() -> (r: LoopState)
        ensures
            r.fresh(),
    {
        LoopState {
            accepts: 0,
            experiments: 0,
            consecutive_fail: 0,
            batch_idx: 0,
            stop_reason: StopReason::NoHidden,
            restarts: 0,
            pass_candidates: 0,
            screened_batches: 0,
            replay_done: false,
            coverage_tail: false,
            tail_batches: 0,
            tail_screened: 0,
            tail_end: None,
        }
    }

    fn end(&mut self, reason: StopReason)
        ensures
            *final(self) == old(self).ended(reason),
    {
        if self.coverage_tail {
            self.tail_end = Some(reason);
        } else {
            self.stop_reason = reason;
        }
    }

    /// Decides what the loop does next.
    pub fn advance(&mut self, gate: Gate) -> (step: Step)
        requires
            old(self).has_room(0),
        ensures
            (*final(self), step) == old(self).next(gate),
    {
        if gate.hidden == 0 {
            return Step::Stop;
        }
        if gate.cancelled {
            self.stop_reason = StopReason::Cancelled;
            return Step::Stop;
        }
        if gate.timed_out {
            self.end(StopReason::Timeout);
            return Step::Stop;
        }
        let spent = match gate.max_experiments {
            Some(max) => self.experiments >= max,
            None => false,
        };
        if spent {
            self.end(StopReason::MaxExperiments);
            return Step::Stop;
        }
        if !self.replay_done && !gate.reserving && !self.coverage_tail {
            return Step::Replay;
        }
        if gate.exhausted {
            if self.pass_candidates == 0 {
                self.end(StopReason::NoCandidates);
                return Step::Stop;
            }
            self.restarts += 1;
            self.pass_candidates = 0;
            return Step::Restart;
        }
        Step::Batch
    }

    /// The seed of a sweep that is built now.
    pub fn sweep_seed(&self, seed: u64) -> (r: u64)
        ensures
            r as int == (seed + self.accepts + self.restarts) % 0x1_0000_0000_0000_0000,
    {
        let moved: u64 = seed.wrapping_add(self.accepts);
        let r: u64 = moved.wrapping_add(self.restarts);
        r
    }

    /// A scorer call succeeded.
    pub fn scorer_worked(&mut self)
        ensures
            *final(self) == (LoopState { consecutive_fail: 0, ..*old(self) }),
    {
        self.consecutive_fail = 0;
    }

    /// A scorer call failed; tells whether that was one too many.
    pub fn scorer_failed(&mut self, limit: u32) -> (stop: bool)
        requires
            old(self).consecutive_fail < u32::MAX,
        ensures
            stop == (old(self).consecutive_fail + 1 >= limit),
            *final(self) == (LoopState {
                consecutive_fail: (old(self).consecutive_fail + 1) as u32,
                stop_reason: if stop {
                    StopReason::ScorerFailures
                } else {
                    old(self).stop_reason
                },
                ..*old(self)
            }),
    {
        self.consecutive_fail += 1;
        if self.consecutive_fail >= limit {
            self.stop_reason = StopReason::ScorerFailures;
            true
        } else {
            false
        }
    }

    /// A replay, or a probe of one, is attempted.
    pub fn begin_replay(&mut self)
        requires
            old(self).experiments < u64::MAX,
        ensures
            *final(self) == (LoopState {
                experiments: (old(self).experiments + 1) as u64,
                ..*old(self)
            }),
    {
        self.experiments += 1;
    }

    /// A cut was accepted; tells where it came from.
    pub fn accept(&mut self, phase: Phase, cuts: usize) -> (origin: Origin)
        requires
            old(self).accepts < u64::MAX,
        ensures
            *final(self) == (LoopState { accepts: (old(self).accepts + 1) as u64, ..*old(self) }),
            origin == origin_of(phase, cuts),
    {
        self.accepts += 1;
        match phase {
            Phase::Search => Origin::Search,
            Phase::Replay => {
                if cuts > 1 {
                    Origin::ReplayBundle
                } else {
                    Origin::Replay
                }
            },
        }
    }

    /// A replayed win was accepted: the search is over, and the loop goes on
    /// only where a coverage tail can be run.
    pub fn end_search(&mut self, tail: TailTerms) -> (goes_on: bool)
        ensures
            goes_on == tail_owed(tail),
            *final(self) == (LoopState {
                stop_reason: StopReason::ReplayAccepts,
                coverage_tail: old(self).coverage_tail || goes_on,
                pass_candidates: if goes_on {
                    0
                } else {
                    old(self).pass_candidates
                },
                ..*old(self)
            }),
    {
        self.stop_reason = StopReason::ReplayAccepts;
        if tail.hidden == 0 || tail.out_of_time || !tail.has_store || !tail.has_screen {
            return false;
        }
        self.coverage_tail = true;
        self.pass_candidates = 0;
        true
    }

    /// An accepted search cut restarts the sweep.
    pub fn restart_after_accept(&mut self)
        ensures
            *final(self) == (LoopState { pass_candidates: 0, ..*old(self) }),
    {
        self.pass_candidates = 0;
    }

    /// The sweep proposed candidates.
    pub fn batch_filled(&mut self, candidates: usize)
        requires
            old(self).pass_candidates + candidates <= usize::MAX,
        ensures
            *final(self) == (LoopState {
                pass_candidates: (old(self).pass_candidates + candidates) as usize,
                ..*old(self)
            }),
    {
        self.pass_candidates += candidates;
    }

    /// What a batch without a screen counts as.
    pub open spec fn lost(self) -> LoopState {
        LoopState {
            batch_idx: (self.batch_idx + 1) as u64,
            experiments: (self.experiments + 1) as u64,
            ..self
        }
    }

    /// The batch ended without a screen: it was empty, or the screen failed.
    pub fn batch_lost(&mut self)
        requires
            old(self).batch_idx < u64::MAX,
            old(self).experiments < u64::MAX,
        ensures
            *final(self) == old(self).lost(),
    {
        self.batch_idx += 1;
        self.experiments += 1;
    }

    /// What a screened batch counts as.
    pub open spec fn screened(self, batch_size: usize) -> LoopState {
        let counted = LoopState {
            experiments: (self.experiments + 1) as u64,
            batch_idx: (self.batch_idx + 1) as u64,
            screened_batches: (self.screened_batches + 1) as u64,
            ..self
        };
        if self.coverage_tail {
            LoopState {
                tail_batches: (self.tail_batches + 1) as u64,
                tail_screened: (self.tail_screened + batch_size) as usize,
                ..counted
            }
        } else {
            counted
        }
    }

    /// A batch was screened; tells whether its winners are scored in full.
    pub fn batch_screened(&mut self, batch_size: usize, sampled: usize) -> (score: bool)
        requires
            old(self).has_room(batch_size),
        ensures
            *final(self) == old(self).screened(batch_size),
            score == (!old(self).coverage_tail && sampled > 0),
    {
        self.experiments += 1;
        self.batch_idx += 1;
        self.screened_batches += 1;
        if self.coverage_tail {
            self.tail_batches += 1;
            self.tail_screened += batch_size;
            return false;
        }
        sampled > 0
    }

    /// Not even a minimal cohort fits: the run stops.
    pub fn out_of_budget(&mut self)
        ensures
            *final(self) == (LoopState { stop_reason: StopReason::Budget, ..*old(self) }),
    {
        self.stop_reason = StopReason::Budget;
    }

    /// What ended the coverage tail: its own end, or else the fault that
    /// stopped the run.
    pub fn tail_ended(&self) -> (r: StopReason)
        ensures
            r == match self.tail_end {
                Some(reason) => reason,
                None => self.stop_reason,
            },
    {
        match self.tail_end {
            Some(reason) => reason,
            None => self.stop_reason,
        }
    }
}

/// Which part of the loop found a win.
#[derive(Clone, Copy, Debug, PartialEq, Eq, Structural)]
pub enum Phase {
    /// The sweep.
    Search,
    /// The replay of known wins.
    Replay,
}

/// Where an accepted cut came from.
#[derive(Clone, Copy, Debug, PartialEq, Eq, Structural)]
pub enum Origin {
    /// The sweep.
    Search,
    /// One replayed win.
    Replay,
    /// Several replayed wins at once.
    ReplayBundle,
}

/// Where a cut of so many neurons came from.
pub open spec fn origin_of(phase: Phase, cuts: usize) -> Origin {
    match phase {
        Phase::Search => Origin::Search,
        Phase::Replay => if cuts > 1 {
            Origin::ReplayBundle
        } else {
            Origin::Replay
        },
    }
}

impl Origin {
    /// The origin as check-in tags carry it.
    pub fn label(self) -> (r: &'static str)
        ensures
            r@ == match self {
                Origin::Search => "search"@,
                Origin::Replay => "replay"@,
                Origin::ReplayBundle => "replay-bundle"@,
            },
    {
        match self {
            Origin::Search => "search",
            Origin::Replay => "replay",
            Origin::ReplayBundle => "replay-bundle",
        }
    }
}

/// What a coverage tail needs.
#[derive(Clone, Copy, Debug)]
pub struct TailTerms {
    /// Hidden neurons of the incumbent.
    pub hidden: usize,
    /// Whether no time is left.
    pub out_of_time: bool,
    /// Whether screens can be filed.
    pub has_store: bool,
    /// Whether there is a screen short of the whole corpus.
    pub has_screen: bool,
}

/// There is something to screen, time to do it, and a place to file it.
pub open spec fn tail_owed(tail: TailTerms) -> bool {
    tail.hidden > 0 && !tail.out_of_time && tail.has_store && tail.has_screen
}

/// How a replay goes on.
#[derive(Debug)]
pub enum ReplayStep {
    /// Nothing is left to replay.
    Finished,
    /// A single known win is left: it is proposed on its own.
    Single,
    /// The plans to score.
    Plans(Vec<Vec<String>>),
}

/// Nothing can be replayed.
pub open spec fn nothing_to_replay(wins: Seq<String>, applied: Seq<String>, groups: usize) -> bool {
    groups == 0 && (wins.len() == 0 || applied.len() == 0)
}

/// Decides how a replay goes on, given the known wins, those of them that
/// still apply, and how many accepted groups are still whole. Wins that no
/// longer apply are skipped from now on.
pub fn open_replay(
    wins: &Vec<String>,
    applied: &Vec<String>,
    groups: usize,
    skipped: &mut Vec<String>,
) -> (step: ReplayStep)
    ensures
        texts(final(skipped)@) == texts(old(skipped)@) + (if groups == 0 && wins@.len() == 0 {
            Seq::empty()
        } else {
            missing(texts(wins@), texts(applied@))
        }),
        match step {
            ReplayStep::Finished => nothing_to_replay(wins@, applied@, groups),
            ReplayStep::Single => !nothing_to_replay(wins@, applied@, groups) && applied@.len()
                == 1,
            ReplayStep::Plans(plans) => {
                &&& !nothing_to_replay(wins@, applied@, groups)
                &&& applied@.len() != 1
                &&& replays(texts(applied@), plans@)
            },
        },
{
    if wins.len() == 0 && groups == 0 {
        assert(texts(skipped@) + Seq::<Seq<char>>::empty() =~= texts(skipped@));
        return ReplayStep::Finished;
    }
    let ghost before = texts(skipped@);
    let ghost all = texts(wins@);
    let ghost still = texts(applied@);
    let mut i: usize = 0;
    assert(before + missing(all.take(0), still) =~= before);
    while i < wins.len()
        invariant
            i <= wins@.len(),
            all == texts(wins@),
            still == texts(applied@),
            texts(skipped@) == before + missing(all.take(i as int), still),
        decreases wins.len() - i,
    {
        let ghost so_far = skipped@;
        proof {
            assert(all.take(i + 1).drop_last() =~= all.take(i as int));
            assert(all.take(i + 1).last() == wins@[i as int]@);
        }
        if !holds(applied, &wins[i]) {
            skipped.push(wins[i].clone());
            proof {
                assert(texts(skipped@) =~= texts(so_far).push(wins@[i as int]@));
                assert(before + missing(all.take(i as int), still).push(wins@[i as int]@)
                    =~= (before + missing(all.take(i as int), still)).push(
                    wins@[i as int]@,
                ));
            }
        }
        i += 1;
    }
    assert(all.take(i as int) =~= all);
    if applied.len() == 0 && groups == 0 {
        return ReplayStep::Finished;
    }
    if applied.len() == 1 {
        return ReplayStep::Single;
    }
    ReplayStep::Plans(replay_plans(applied))
}

/// The texts of `wanted` that are not in `held`, in order.
pub open spec fn missing(wanted: Seq<Seq<char>>, held: Seq<Seq<char>>) -> Seq<Seq<char>>
    decreases wanted.len(),
{
    if wanted.len() == 0 {
        Seq::empty()
    } else if held.contains(wanted.last()) {
        missing(wanted.drop_last(), held)
    } else {
        missing(wanted.drop_last(), held).push(wanted.last())
    }
}

/// A cut that was confirmed earlier.
#[derive(Debug)]
pub struct ConfirmedWin {
    /// The neuron.
    pub uuid: String,
    /// Whether some creature had the cut applied.
    pub accepted: bool,
}

/// Known wins that are replayed, and where they come from.
#[derive(Debug)]
pub struct ReplayChoice {
    /// The neurons, best first.
    pub wins: Vec<String>,
    /// How many were applied elsewhere on this corpus.
    pub accepted_only: usize,
    /// How many were only confirmed on this corpus.
    pub confirmed_only: usize,
    /// How many are hypotheses from older corpora.
    pub from_history: usize,
}

/// The first known wins that were not skipped before, so many at most.
pub open spec fn replayable(
    ranked: Seq<ConfirmedWin>,
    skipped: Seq<Seq<char>>,
    cap: int,
) -> Seq<ConfirmedWin> {
    let left = ranked.filter(|win: ConfirmedWin| !skipped.contains(win.uuid@));
    if left.len() <= cap {
        left
    } else {
        left.take(cap)
    }
}

/// How many of the wins are from older corpora.
pub open spec fn old_wins(wins: Seq<ConfirmedWin>, historical: Seq<Seq<char>>) -> nat
    decreases wins.len(),
{
    if wins.len() == 0 {
        0
    } else {
        old_wins(wins.drop_last(), historical) + if historical.contains(wins.last().uuid@) {
            1nat
        } else {
            0nat
        }
    }
}

/// How many of the wins were applied on this corpus.
pub open spec fn applied_wins(wins: Seq<ConfirmedWin>, historical: Seq<Seq<char>>) -> nat
    decreases wins.len(),
{
    if wins.len() == 0 {
        0
    } else {
        applied_wins(wins.drop_last(), historical) + if !historical.contains(
            wins.last().uuid@,
        ) && wins.last().accepted {
            1nat
        } else {
            0nat
        }
    }
}

/// The neurons of wins.
pub open spec fn win_ids(wins: Seq<ConfirmedWin>) -> Seq<Seq<char>> {
    Seq::new(wins.len(), |i: int| wins[i].uuid@)
}

/// Picks the known wins to replay: those not skipped before, in order, up to
/// the cap.
pub fn choose_replay(
    ranked: &Vec<ConfirmedWin>,
    historical: &Vec<String>,
    skipped: &Vec<String>,
    cap: usize,
) -> (r: ReplayChoice)
    ensures
        texts(r.wins@) == win_ids(replayable(ranked@, texts(skipped@), cap as int)),
        r.accepted_only == applied_wins(
            replayable(ranked@, texts(skipped@), cap as int),
            texts(historical@),
        ),
        r.from_history == old_wins(
            replayable(ranked@, texts(skipped@), cap as int),
            texts(historical@),
        ),
        r.accepted_only + r.confirmed_only + r.from_history == r.wins@.len(),
{
    let ghost old = texts(historical@);
    let ghost left = |win: ConfirmedWin| !texts(skipped@).contains(win.uuid@);
    let mut wins: Vec<String> = Vec::new();
    let mut accepted_only: usize = 0;
    let mut from_history: usize = 0;
    let mut i: usize = 0;
    proof {
        reveal(Seq::filter);
        assert(ranked@.take(0).filter(left) =~= Seq::empty());
        assert(win_ids(replayable(ranked@.take(0), texts(skipped@), cap as int)) =~= Seq::empty());
        assert(texts(wins@) =~= Seq::empty());
    }
    while i < ranked.len()
        invariant
            i <= ranked@.len(),
            old == texts(historical@),
            left == (|win: ConfirmedWin| !texts(skipped@).contains(win.uuid@)),
            wins@.len() <= cap,
            wins@.len() <= i,
            texts(wins@) == win_ids(
                replayable(ranked@.take(i as int), texts(skipped@), cap as int),
            ),
            accepted_only == applied_wins(
                replayable(ranked@.take(i as int), texts(skipped@), cap as int),
                old,
            ),
            from_history == old_wins(
                replayable(ranked@.take(i as int), texts(skipped@), cap as int),
                old,
            ),
            accepted_only + from_history <= wins@.len(),
        decreases ranked.len() - i,
    {
        let ghost head = ranked@.take(i as int);
        let ghost more = ranked@.take(i + 1);
        let ghost win = ranked@[i as int];
        let ghost chosen = replayable(head, texts(skipped@), cap as int);
        let ghost next = replayable(more, texts(skipped@), cap as int);
        let ghost before = texts(wins@);
        proof {
            reveal(Seq::filter);
            assert(more.drop_last() =~= head);
            assert(more.last() == win);
            assert(win_ids(chosen).len() == chosen.len());
            assert(chosen.len() == wins@.len());
        }
        if !holds(skipped, &ranked[i].uuid) && wins.len() < cap {
            proof {
                assert(more.filter(left) == head.filter(left).push(win));
                assert(chosen =~= head.filter(left));
                assert(next =~= chosen.push(win));
                assert(next.drop_last() =~= chosen);
                assert(win_ids(next) =~= win_ids(chosen).push(win.uuid@));
            }
            if holds(historical, &ranked[i].uuid) {
                from_history += 1;
            } else if ranked[i].accepted {
                accepted_only += 1;
            }
            wins.push(ranked[i].uuid.clone());
            assert(texts(wins@) =~= before.push(win.uuid@));
        } else {
            proof {
                if !texts(skipped@).contains(win.uuid@) {
                    assert(more.filter(left) == head.filter(left).push(win));
                    assert(head.filter(left).len() >= cap);
                    assert(chosen =~= head.filter(left).take(cap as int));
                    assert(more.filter(left).take(cap as int) =~= head.filter(left).take(
                        cap as int,
                    ));
                } else {
                    assert(more.filter(left) == head.filter(left));
                }
                assert(next =~= chosen);
            }
        }
        i += 1;
    }
    assert(ranked@.take(i as int) =~= ranked@);
    let confirmed_only: usize = wins.len() - accepted_only - from_history;
    ReplayChoice { wins, accepted_only, confirmed_only, from_history }
}

/// How many known wins are probed one by one after a replay without a winner;
/// none where something was scored on its own already or only one win is left.
pub open spec fn probes_after(won: bool, scored_alone: bool, applied: usize) -> Option<usize> {
    if !won && !scored_alone && applied > 1 {
        Some(
            if applied < REPLAY_PROBE_LIMIT {
                applied
            } else {
                REPLAY_PROBE_LIMIT
            },
        )
    } else {
        None
    }
}

/// How many known wins are probed one by one after a replay.
pub fn probe_count(won: bool, scored_alone: bool, applied: usize) -> (r: Option<usize>)
    ensures
        r == probes_after(won, scored_alone, applied),
{
    if !won && !scored_alone && applied > 1 {
        if applied < REPLAY_PROBE_LIMIT {
            Some(applied)
        } else {
            Some(REPLAY_PROBE_LIMIT)
        }
    } else {
        None
    }
}

/// In a coverage tail nothing is replayed, and a benign end leaves the stop
/// reason of the search alone.
pub proof fn law_tail_keeps_the_stop_reason(state: LoopState, gate: Gate)
    requires
        state.coverage_tail,
    ensures
        state.next(gate).1 != Step::Replay,
        state.next(gate).0.coverage_tail,
        gate.hidden == 0 || !gate.cancelled ==> state.next(gate).0.stop_reason == state.stop_reason,
{
}

/// The loop goes on only with hidden neurons, time and experiments left.
pub proof fn law_loop_respects_its_limits(state: LoopState, gate: Gate)
    requires
        state.next(gate).1 != Step::Stop,
    ensures
        gate.hidden > 0,
        !gate.cancelled,
        !gate.timed_out,
        !state.spent(gate.max_experiments),
{
}

/// An exhausted sweep is rebuilt only if its pass proposed something, and a
/// rebuilt sweep starts a pass that has proposed nothing; so two passes in a
/// row that propose nothing stop the run.
pub proof fn law_barren_pass_stops_the_run(state: LoopState, gate: Gate, later: Gate)
    requires
        state.next(gate).1 == Step::Restart,
        later.exhausted,
        later.hidden > 0,
        state.replay_done || state.coverage_tail,
    ensures
        state.pass_candidates > 0,
        state.next(gate).0.pass_candidates == 0,
        state.next(gate).0.next(later).1 == Step::Stop,
{
}

/// Once the search has ended for a tail, no step of the loop leaves the tail.
pub proof fn law_search_never_resumes(state: LoopState, gate: Gate, batch_size: usize)
    requires
        state.coverage_tail,
    ensures
        state.next(gate).0.coverage_tail,
        state.screened(batch_size).coverage_tail,
        state.screened(batch_size).accepts == state.accepts,
{
}

/// Of the wanted texts those that are not held are missing, in order.
pub proof fn law_wins_that_no_longer_apply_are_skipped(
    wanted: Seq<Seq<char>>,
    held: Seq<Seq<char>>,
    marks: Seq<bool>,
)
    requires
        marks.len() == wanted.len(),
        forall|i: int| 0 <= i < marks.len() ==> (#[trigger] marks[i]
            <==> !held.contains(wanted[i])),
    ensures
        missing(wanted, held).len() == true_places(marks).len(),
        forall|k: int|
            0 <= k < true_places(marks).len() ==> (#[trigger] missing(wanted, held)[k])
                == wanted[true_places(marks)[k]],
    decreases wanted.len(),
{
    if wanted.len() > 0 {
        let init = wanted.drop_last();
        let some = marks.drop_last();
        let n = wanted.len() - 1;
        assert forall|i: int| 0 <= i < some.len() implies (#[trigger] some[i]
            <==> !held.contains(init[i])) by {
            assert(some[i] == marks[i]);
            assert(init[i] == wanted[i]);
        }
        law_wins_that_no_longer_apply_are_skipped(init, held, some);
        assert(marks[n] <==> !held.contains(wanted[n]));
        law_true_places_ascend(some);
        let before = missing(init, held);
        let after = missing(wanted, held);
        let was = true_places(some);
        let now = true_places(marks);
        assert forall|k: int| 0 <= k < now.len() implies (#[trigger] after[k])
            == wanted[now[k]] by {
            if k < was.len() {
                assert(now[k] == was[k]);
                assert(0 <= was[k] < some.len());
                assert(init[was[k]] == wanted[was[k]]);
                assert(after[k] == before[k]);
            }
        }
    }
}

/// Wins from older corpora are counted.
pub proof fn law_wins_from_history_are_counted(
    wins: Seq<ConfirmedWin>,
    historical: Seq<Seq<char>>,
    marks: Seq<bool>,
)
    requires
        marks.len() == wins.len(),
        forall|i: int| 0 <= i < marks.len() ==> (#[trigger] marks[i]
            <==> historical.contains(wins[i].uuid@)),
    ensures
        old_wins(wins, historical) == true_places(marks).len(),
    decreases wins.len(),
{
    if wins.len() > 0 {
        let init = wins.drop_last();
        let some = marks.drop_last();
        let n = wins.len() - 1;
        assert forall|i: int| 0 <= i < some.len() implies (#[trigger] some[i]
            <==> historical.contains(init[i].uuid@)) by {
            assert(some[i] == marks[i]);
            assert(init[i] == wins[i]);
        }
        law_wins_from_history_are_counted(init, historical, some);
        assert(marks[n] <==> historical.contains(wins[n].uuid@));
    }
}

/// Wins that were applied on this corpus are counted.
pub proof fn law_wins_applied_here_are_counted(
    wins: Seq<ConfirmedWin>,
    historical: Seq<Seq<char>>,
    marks: Seq<bool>,
)
    requires
        marks.len() == wins.len(),
        forall|i: int| 0 <= i < marks.len() ==> (#[trigger] marks[i] <==> (wins[i].accepted
            && !historical.contains(wins[i].uuid@))),
    ensures
        applied_wins(wins, historical) == true_places(marks).len(),
    decreases wins.len(),
{
    if wins.len() > 0 {
        let init = wins.drop_last();
        let some = marks.drop_last();
        let n = wins.len() - 1;
        assert forall|i: int| 0 <= i < some.len() implies (#[trigger] some[i]
            <==> (init[i].accepted && !historical.contains(init[i].uuid@))) by {
            assert(some[i] == marks[i]);
            assert(init[i] == wins[i]);
        }
        law_wins_applied_here_are_counted(init, historical, some);
        assert(marks[n] <==> (wins[n].accepted && !historical.contains(wins[n].uuid@)));
    }
}

/// The wins that are replayed are those that were not skipped before, in order, the
/// first ones up to the cap.
pub proof fn law_replays_take_the_first_unskipped(
    ranked: Seq<ConfirmedWin>,
    skipped: Seq<Seq<char>>,
    cap: int,
) -> (places: Seq<int>)
    requires
        0 <= cap,
    ensures
        ({
            let chosen = replayable(ranked, skipped, cap);
            &&& stands_at(ranked, chosen, places)
            &&& chosen.len() <= cap
            &&& forall|k: int|
                0 <= k < places.len() ==> !skipped.contains(ranked[#[trigger] places[k]].uuid@)
            &&& forall|i: int|
                0 <= i < ranked.len() && !skipped.contains((#[trigger] ranked[i]).uuid@)
                    ==> places.contains(i) || (chosen.len() == cap && forall|k: int|
                    0 <= k < places.len() ==> (#[trigger] places[k]) < i)
        }),
{
    let test = |win: ConfirmedWin| !skipped.contains(win.uuid@);
    let left = ranked.filter(test);
    let all = law_filter_picks_in_order(ranked, test);
    let chosen = replayable(ranked, skipped, cap);
    let places = all.take(chosen.len() as int);
    assert(stands_at(ranked, chosen, places)) by {
        assert forall|k: int| 0 <= k < places.len() implies 0 <= (#[trigger] places[k])
            < ranked.len() && chosen[k] == ranked[places[k]] by {
            assert(places[k] == all[k]);
            assert(chosen[k] == left[k]);
        }
        assert forall|i: int, j: int|
            #![trigger places[i], places[j]]
            0 <= i < j < places.len() implies places[i] < places[j] by {
            assert(all[i] < all[j]);
        }
    }
    assert forall|k: int| 0 <= k < places.len() implies !skipped.contains(
        ranked[#[trigger] places[k]].uuid@,
    ) by {
        assert(all.contains(all[k]));
        assert(test(ranked[all[k]]));
    }
    assert forall|i: int|
        0 <= i < ranked.len() && !skipped.contains((#[trigger] ranked[i]).uuid@) implies (
    places.contains(i) || (chosen.len() == cap && forall|k: int|
        0 <= k < places.len() ==> (#[trigger] places[k]) < i)) by {
        assert(test(ranked[i]));
        assert(all.contains(i));
        let q = choose|q: int| 0 <= q < all.len() && all[q] == i;
        if q < places.len() {
            assert(places[q] == i);
        } else {
            assert forall|k: int| 0 <= k < places.len() implies (#[trigger] places[k]) < i by {
                assert(places[k] == all[k] && all[k] < all[q]);
            }
        }
    }
    places
}

/// A run starts with nothing counted, in a search that may replay; and if nothing
/// else ends it, it ends for want of hidden neurons.
pub proof fn law_runs_start_from_nothing(state: LoopState)
    requires
        state.fresh(),
    ensures
        state.accepts == 0 && state.experiments == 0 && state.batch_idx == 0 && state.restarts == 0,
        state.consecutive_fail == 0 && state.pass_candidates == 0 && state.screened_batches == 0,
        state.tail_batches == 0 && state.tail_screened == 0 && state.tail_end is None,
        !state.replay_done && !state.coverage_tail,
        state.stop_reason == StopReason::NoHidden,
{
}

/// Nothing is left to replay exactly if no group is whole and no win is known or
/// none applies any more.
pub proof fn law_replays_end_when_nothing_applies(
    wins: Seq<String>,
    applied: Seq<String>,
    groups: usize,
)
    ensures
        nothing_to_replay(wins, applied, groups) <==> groups == 0 && (wins.len() == 0
            || applied.len() == 0),
{
}

/// What is replayed is named by the neurons of the wins, in order.
pub proof fn law_wins_are_named_in_order(wins: Seq<ConfirmedWin>, i: int)
    ensures
        win_ids(wins).len() == wins.len(),
        0 <= i < wins.len() ==> win_ids(wins)[i] == wins[i].uuid@,
{
}

/// A cut comes from the search, or from the replay of one win or of several.
pub proof fn law_origins_tell_phase_and_size(phase: Phase, cuts: usize)
    ensures
        origin_of(phase, cuts) == Origin::Search <==> phase == Phase::Search,
        origin_of(phase, cuts) == Origin::ReplayBundle <==> phase == Phase::Replay && cuts > 1,
        origin_of(phase, cuts) == Origin::Replay <==> phase == Phase::Replay && cuts <= 1,
{
}

/// Probes follow exactly a replay of several wins at once without a winner: one for
/// each win that still applies, eight at most.
pub proof fn law_probes_follow_missed_replays(won: bool, scored_alone: bool, applied: usize)
    ensures
        probes_after(won, scored_alone, applied) is Some <==> !won && !scored_alone && applied >= 2,
        probes_after(won, scored_alone, applied) matches Some(n) ==> n == vstd::math::min(
            applied as int,
            8,
        ),
{
}

/// A loop goes on counting until a counter is full: every number of batches, accepts
/// and candidates short of that has room.
pub proof fn law_only_full_counters_refuse(state: LoopState, more: usize)
    ensures
        state.has_room(more) <==> {
            &&& state.accepts < 0xFFFF_FFFF_FFFF_FFFF && state.experiments < 0xFFFF_FFFF_FFFF_FFFF
            &&& state.batch_idx < 0xFFFF_FFFF_FFFF_FFFF && state.restarts < 0xFFFF_FFFF_FFFF_FFFF
            &&& state.screened_batches < 0xFFFF_FFFF_FFFF_FFFF
            &&& state.tail_batches < 0xFFFF_FFFF_FFFF_FFFF
            &&& state.consecutive_fail < 0xFFFF_FFFF
            &&& state.pass_candidates <= usize::MAX - more
            &&& state.tail_screened <= usize::MAX - more
        },
{
}

/// Journals know each reason to stop by its own code.
pub proof fn law_stops_have_their_codes()
    ensures
        stop_code(StopReason::NoHidden) == "no-hidden"@,
        stop_code(StopReason::Cancelled) == "cancelled"@,
        stop_code(StopReason::Timeout) == "timeout"@,
        stop_code(StopReason::MaxExperiments) == "max-experiments"@,
        stop_code(StopReason::ReplayAccepts) == "replay-accepts"@,
        stop_code(StopReason::ScorerFailures) == "scorer-failures"@,
        stop_code(StopReason::NoCandidates) == "no-candidates"@,
        stop_code(StopReason::Budget) == "budget"@,
{
}

} // verus!
