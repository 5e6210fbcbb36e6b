//! The pruning loop, event by event.
//!
//! Whoever runs the loop performs the action that is asked for, and reports
//! what came of it; what is asked for next is decided here.
use vstd::prelude::*;

use crate::run::CohortBudget;
use crate::run_loop::{
    origin_of, probes_after, tail_owed, Gate, LoopState, Origin, Phase, Step, StopReason,
    TailTerms,
};

verus! {

/// What the loop waits for.
#[derive(Clone, Copy, Debug, PartialEq, Eq, Structural)]
pub enum Stage {
    /// A look at the limits and the sweep.
    Top,
    /// The known wins.
    Listing,
    /// The proposal of the only known win.
    Single,
    /// The scores of a replay.
    Replaying {
        /// Whether a single win is scored on its own.
        alone: bool,
        /// How many known wins still apply.
        applied: usize,
    },
    /// The proposals of known wins, each on its own.
    Probing,
    /// The scores of those proposals.
    ProbeScoring,
    /// The candidates of a batch.
    Filling,
    /// The screen of a batch.
    Screening {
        /// How many candidates the batch has.
        size: usize,
    },
    /// The size of the cohort that time allows.
    Sizing,
    /// The scores of a cohort.
    Scoring,
    /// The accepted creature.
    Applying(Phase),
    /// Nothing any more.
    Done,
}

/// What happened.
#[derive(Clone, Copy, Debug)]
pub enum LoopEvent {
    /// The limits and the sweep were looked at.
    Looked(Gate),
    /// Known wins were listed.
    Known {
        /// How many there are.
        wins: usize,
        /// How many of them still apply.
        applied: usize,
        /// How many accepted groups are still whole.
        groups: usize,
    },
    /// Known wins were proposed, so many with success.
    Proposed(usize),
    /// A cohort was scored; if it has a winner, the winner cuts so many.
    Scored(Option<usize>),
    /// The scorer failed.
    Failed,
    /// A batch was filled.
    Filled {
        /// Candidates that the sweep proposed.
        proposed: usize,
        /// Groups that ride along.
        groups: usize,
    },
    /// The batch was screened, and so many candidates passed.
    Screened(usize),
    /// There is no screen: the whole batch passes.
    Unscreened,
    /// The cohort was sized.
    Sized(CohortBudget),
    /// The winner was made the incumbent.
    Applied(TailTerms),
}

/// What the loop asks for.
#[derive(Clone, Copy, Debug, PartialEq, Eq, Structural)]
pub enum Action {
    /// Look at the limits and the sweep.
    Look,
    /// List the known wins, and see which still apply.
    ListWins,
    /// Propose the only known win.
    ProposeSingle,
    /// Score the replay.
    ScoreReplay,
    /// Propose so many known wins, each on its own.
    ProposeProbes(usize),
    /// Score those proposals.
    ScoreProbes,
    /// Make the winner the incumbent.
    Apply(Origin),
    /// Rebuild the exhausted sweep.
    RestartSweep,
    /// Rebuild the sweep on the new incumbent, with what stands of the pool.
    Renew,
    /// Do the same, and go on for coverage alone.
    OpenTail,
    /// Fill a batch.
    FillBatch,
    /// Screen the batch.
    Screen,
    /// File the visits without a candidate, then look again.
    FileVisits,
    /// File the visits without a candidate, then leave the loop.
    FileVisitsAndStop,
    /// Size the cohort.
    SizeCohort,
    /// Score the cohort, with so many entries at most.
    ScoreFull(Option<usize>),
    /// Leave the loop.
    Stop,
}

/// The loop.
#[derive(Clone, Copy, Debug)]
pub struct OckhamLoop {
    /// Its counters and reasons.
    pub state: LoopState,
    /// What it waits for.
    pub stage: Stage,
    /// How many scorer failures in a row stop it.
    pub failure_limit: u32,
}

/// How many candidates an event may add to a counter.
pub open spec fn event_size(stage: Stage, event: LoopEvent) -> usize {
    match (stage, event) {
        (_, LoopEvent::Filled { proposed, groups }) => proposed,
        (Stage::Screening { size }, _) => size,
        _ => 0,
    }
}

impl OckhamLoop {
    /// In this state it goes on with `action`, waiting for `stage`.
    pub open spec fn goes(self, state: LoopState, stage: Stage, action: Action) -> Option<
        (OckhamLoop, Action),
    > {
        Some((OckhamLoop { state, stage, ..self }, action))
    }

    /// A scorer failure: one too many ends the loop, another one `action`
    /// follows.
    pub open spec fn fails(self, state: LoopState, action: Action) -> Option<
        (OckhamLoop, Action),
    > {
        let failures = (self.state.consecutive_fail + 1) as u32;
        if failures >= self.failure_limit {
            let stopped = LoopState {
                consecutive_fail: failures,
                stop_reason: StopReason::ScorerFailures,
                ..self.state
            };
            self.goes(
                stopped,
                Stage::Done,
                if action == Action::FileVisits {
                    Action::FileVisitsAndStop
                } else {
                    Action::Stop
                },
            )
        } else {
            self.goes(LoopState { consecutive_fail: failures, ..state }, Stage::Top, action)
        }
    }

    /// A scored cohort: its winner is applied.
    pub open spec fn scored(self, phase: Phase, cuts: Option<usize>) -> Option<
        (OckhamLoop, Action),
    > {
        let state = LoopState { consecutive_fail: 0, ..self.state };
        match cuts {
            Some(cuts) => self.goes(
                LoopState { accepts: (state.accepts + 1) as u64, ..state },
                Stage::Applying(phase),
                Action::Apply(origin_of(phase, cuts)),
            ),
            None => self.goes(state, Stage::Top, Action::Look),
        }
    }

    /// A replay is counted and scored.
    pub open spec fn replays(self, stage: Stage, action: Action) -> Option<(OckhamLoop, Action)> {
        self.goes(
            LoopState { experiments: (self.state.experiments + 1) as u64, ..self.state },
            stage,
            action,
        )
    }

    /// A batch was screened, and so many candidates passed.
    pub open spec fn screened(self, state: LoopState, size: usize, sampled: usize) -> Option<
        (OckhamLoop, Action),
    > {
        let counted = state.screened(size);
        if !state.coverage_tail && sampled > 0 {
            self.goes(counted, Stage::Sizing, Action::SizeCohort)
        } else {
            self.goes(counted, Stage::Top, Action::Look)
        }
    }

    /// What the loop does when something happens; nothing where that was not
    /// what it waited for.
    pub open spec fn after(self, event: LoopEvent) -> Option<(OckhamLoop, Action)> {
        match (self.stage, event) {
            (Stage::Top, LoopEvent::Looked(gate)) => {
                let (state, step) = self.state.next(gate);
                match step {
                    Step::Stop => self.goes(state, Stage::Done, Action::Stop),
                    Step::Replay => self.goes(state, Stage::Listing, Action::ListWins),
                    Step::Restart => self.goes(state, Stage::Top, Action::RestartSweep),
                    Step::Batch => self.goes(state, Stage::Filling, Action::FillBatch),
                }
            },
            (Stage::Listing, LoopEvent::Known { wins, applied, groups }) => if groups == 0 && (wins
                == 0 || applied == 0) {
                self.goes(LoopState { replay_done: true, ..self.state }, Stage::Top, Action::Look)
            } else if applied == 1 {
                self.goes(self.state, Stage::Single, Action::ProposeSingle)
            } else {
                self.replays(Stage::Replaying { alone: false, applied }, Action::ScoreReplay)
            },
            (Stage::Single, LoopEvent::Proposed(built)) => if built == 0 {
                self.goes(self.state, Stage::Top, Action::Look)
            } else {
                self.replays(Stage::Replaying { alone: true, applied: 1 }, Action::ScoreReplay)
            },
            (Stage::Replaying { alone, applied }, LoopEvent::Scored(cuts)) => match probes_after(
                cuts is Some,
                alone,
                applied,
            ) {
                Some(n) => self.goes(
                    LoopState { consecutive_fail: 0, ..self.state },
                    Stage::Probing,
                    Action::ProposeProbes(n),
                ),
                None => self.scored(Phase::Replay, cuts),
            },
            (Stage::Replaying { .. }, LoopEvent::Failed) => self.fails(self.state, Action::Look),
            (Stage::Probing, LoopEvent::Proposed(built)) => if built == 0 {
                self.goes(self.state, Stage::Top, Action::Look)
            } else {
                self.replays(Stage::ProbeScoring, Action::ScoreProbes)
            },
            (Stage::ProbeScoring, LoopEvent::Scored(cuts)) => self.scored(Phase::Replay, cuts),
            (Stage::ProbeScoring, LoopEvent::Failed) => self.fails(self.state, Action::Look),
            (Stage::Filling, LoopEvent::Filled { proposed, groups }) => {
                let state = LoopState {
                    pass_candidates: (self.state.pass_candidates + proposed) as usize,
                    ..self.state
                };
                if proposed + groups > usize::MAX {
                    None
                } else if proposed == 0 && groups == 0 {
                    self.goes(state.lost(), Stage::Top, Action::FileVisits)
                } else {
                    self.goes(
                        state,
                        Stage::Screening { size: (proposed + groups) as usize },
                        Action::Screen,
                    )
                }
            },
            (Stage::Screening { size }, LoopEvent::Screened(sampled)) => self.screened(
                LoopState { consecutive_fail: 0, ..self.state },
                size,
                sampled,
            ),
            (Stage::Screening { size }, LoopEvent::Unscreened) => self.screened(
                self.state,
                size,
                size,
            ),
            (Stage::Screening { .. }, LoopEvent::Failed) => self.fails(
                self.state.lost(),
                Action::FileVisits,
            ),
            (Stage::Sizing, LoopEvent::Sized(budget)) => match budget {
                CohortBudget::TooSmall => self.goes(
                    LoopState { stop_reason: StopReason::Budget, ..self.state },
                    Stage::Done,
                    Action::Stop,
                ),
                CohortBudget::Unmeasured => self.goes(
                    self.state,
                    Stage::Scoring,
                    Action::ScoreFull(None),
                ),
                CohortBudget::Entries(n) => self.goes(
                    self.state,
                    Stage::Scoring,
                    Action::ScoreFull(Some(n)),
                ),
            },
            (Stage::Scoring, LoopEvent::Scored(cuts)) => self.scored(Phase::Search, cuts),
            (Stage::Scoring, LoopEvent::Failed) => self.fails(self.state, Action::Look),
            (Stage::Applying(Phase::Search), LoopEvent::Applied(_)) => self.goes(
                LoopState { pass_candidates: 0, ..self.state },
                Stage::Top,
                Action::Renew,
            ),
            (Stage::Applying(Phase::Replay), LoopEvent::Applied(tail)) => if tail_owed(tail) {
                self.goes(
                    LoopState {
                        stop_reason: StopReason::ReplayAccepts,
                        coverage_tail: true,
                        pass_candidates: 0,
                        ..self.state
                    },
                    Stage::Top,
                    Action::OpenTail,
                )
            } else {
                self.goes(
                    LoopState { stop_reason: StopReason::ReplayAccepts, ..self.state },
                    Stage::Done,
                    Action::Stop,
                )
            },
            _ => None,
        }
    }

    /// A loop that is about to start.
    pub fn new(failure_limit: u32) -> (r: OckhamLoop)
        ensures
            r.state.fresh(),
            r.stage == Stage::Top,
            r.failure_limit == failure_limit,
    {
        OckhamLoop { state: LoopState::new(), stage: Stage::Top, failure_limit }
    }

    fn go(&mut self, stage: Stage, action: Action) -> (r: Option<Action>)
        ensures
            r == Some(action),
            *final(self) == (OckhamLoop { stage, ..*old(self) }),
    {
        self.stage = stage;
        Some(action)
    }

    fn fail(&mut self, lost: bool) -> (r: Option<Action>)
        requires
            old(self).state.has_room(0),
        ensures
            r is Some,
            Some((*final(self), r->0)) == if lost {
                old(self).fails(old(self).state.lost(), Action::FileVisits)
            } else {
                old(self).fails(old(self).state, Action::Look)
            },
    {
        let stop = self.state.scorer_failed(self.failure_limit);
        if stop {
            if lost {
                self.go(Stage::Done, Action::FileVisitsAndStop)
            } else {
                self.go(Stage::Done, Action::Stop)
            }
        } else if lost {
            self.state.batch_lost();
            self.go(Stage::Top, Action::FileVisits)
        } else {
            self.go(Stage::Top, Action::Look)
        }
    }

    fn score(&mut self, phase: Phase, cuts: Option<usize>) -> (r: Option<Action>)
        requires
            old(self).state.has_room(0),
        ensures
            r is Some,
            Some((*final(self), r->0)) == old(self).scored(phase, cuts),
    {
        self.state.scorer_worked();
        match cuts {
            Some(cuts) => {
                let origin = self.state.accept(phase, cuts);
                self.go(Stage::Applying(phase), Action::Apply(origin))
            },
            None => self.go(Stage::Top, Action::Look),
        }
    }

    fn screen(&mut self, size: usize, sampled: usize) -> (r: Option<Action>)
        requires
            old(self).state.has_room(size),
        ensures
            r is Some,
            Some((*final(self), r->0)) == old(self).screened(old(self).state, size, sampled),
    {
        if self.state.batch_screened(size, sampled) {
            self.go(Stage::Sizing, Action::SizeCohort)
        } else {
            self.go(Stage::Top, Action::Look)
        }
    }

    /// Takes what happened and tells what to do next. Nothing changes where
    /// that was not what the loop waits for, or where a counter is full.
    pub fn step(&mut self, event: LoopEvent) -> (r: Option<Action>)
        ensures
            match r {
                Some(action) => {
                    &&& old(self).state.has_room(event_size(old(self).stage, event))
                    &&& old(self).after(event) == Some((*final(self), action))
                },
                None => {
                    &&& *final(self) == *old(self)
                    &&& old(self).after(event) is None || !old(self).state.has_room(
                        event_size(old(self).stage, event),
                    )
                },
            },
    {
        let more: usize = match (self.stage, event) {
            (_, LoopEvent::Filled { proposed, groups }) => proposed,
            (Stage::Screening { size }, _) => size,
            _ => 0,
        };
        if !self.state.can_count(more) {
            return None;
        }
        match (self.stage, event) {
            (Stage::Top, LoopEvent::Looked(gate)) => match self.state.advance(gate) {
                Step::Stop => self.go(Stage::Done, Action::Stop),
                Step::Replay => self.go(Stage::Listing, Action::ListWins),
                Step::Restart => self.go(Stage::Top, Action::RestartSweep),
                Step::Batch => self.go(Stage::Filling, Action::FillBatch),
            },
            (Stage::Listing, LoopEvent::Known { wins, applied, groups }) => {
                if groups == 0 && (wins == 0 || applied == 0) {
                    self.state.replay_done = true;
                    self.go(Stage::Top, Action::Look)
                } else if applied == 1 {
                    self.go(Stage::Single, Action::ProposeSingle)
                } else {
                    self.state.begin_replay();
                    self.go(Stage::Replaying { alone: false, applied }, Action::ScoreReplay)
                }
            },
            (Stage::Single, LoopEvent::Proposed(built)) => {
                if built == 0 {
                    self.go(Stage::Top, Action::Look)
                } else {
                    self.state.begin_replay();
                    self.go(Stage::Replaying { alone: true, applied: 1 }, Action::ScoreReplay)
                }
            },
            (Stage::Replaying { alone, applied }, LoopEvent::Scored(cuts)) => {
                match crate::run_loop::probe_count(cuts.is_some(), alone, applied) {
                    Some(n) => {
                        self.state.scorer_worked();
                        self.go(Stage::Probing, Action::ProposeProbes(n))
                    },
                    None => self.score(Phase::Replay, cuts),
                }
            },
            (Stage::Replaying { .. }, LoopEvent::Failed) => self.fail(false),
            (Stage::Probing, LoopEvent::Proposed(built)) => {
                if built == 0 {
                    self.go(Stage::Top, Action::Look)
                } else {
                    self.state.begin_replay();
                    self.go(Stage::ProbeScoring, Action::ScoreProbes)
                }
            },
            (Stage::ProbeScoring, LoopEvent::Scored(cuts)) => self.score(Phase::Replay, cuts),
            (Stage::ProbeScoring, LoopEvent::Failed) => self.fail(false),
            (Stage::Filling, LoopEvent::Filled { proposed, groups }) => {
                if groups > usize::MAX - proposed {
                    return None;
                }
                self.state.batch_filled(proposed);
                if proposed == 0 && groups == 0 {
                    self.state.batch_lost();
                    self.go(Stage::Top, Action::FileVisits)
                } else {
                    self.go(Stage::Screening { size: proposed + groups }, Action::Screen)
                }
            },
            (Stage::Screening { size }, LoopEvent::Screened(sampled)) => {
                self.state.scorer_worked();
                self.screen(size, sampled)
            },
            (Stage::Screening { size }, LoopEvent::Unscreened) => self.screen(size, size),
            (Stage::Screening { .. }, LoopEvent::Failed) => self.fail(true),
            (Stage::Sizing, LoopEvent::Sized(budget)) => match budget {
                CohortBudget::TooSmall => {
                    self.state.out_of_budget();
                    self.go(Stage::Done, Action::Stop)
                },
                CohortBudget::Unmeasured => self.go(Stage::Scoring, Action::ScoreFull(None)),
                CohortBudget::Entries(n) => self.go(Stage::Scoring, Action::ScoreFull(Some(n))),
            },
            (Stage::Scoring, LoopEvent::Scored(cuts)) => self.score(Phase::Search, cuts),
            (Stage::Scoring, LoopEvent::Failed) => self.fail(false),
            (Stage::Applying(Phase::Search), LoopEvent::Applied(_)) => {
                self.state.restart_after_accept();
                self.go(Stage::Top, Action::Renew)
            },
            (Stage::Applying(Phase::Replay), LoopEvent::Applied(tail)) => {
                if self.state.end_search(tail) {
                    self.go(Stage::Top, Action::OpenTail)
                } else {
                    self.go(Stage::Done, Action::Stop)
                }
            },
            _ => None,
        }
    }

    /// No probe of single wins comes after the cohort that is being scored.
    pub open spec fn verdicts_stand(self, won: bool) -> bool {
        match self.stage {
            Stage::Replaying { alone, applied } => probes_after(won, alone, applied) is None,
            _ => true,
        }
    }

    /// Whether the verdicts of the cohort that is being scored are filed. A
    /// replay that missed is probed one win at a time; those are the honest
    /// verdicts, and the replay itself files none.
    pub fn files_verdicts(&self, won: bool) -> (r: bool)
        ensures
            r == match self.stage {
                Stage::Replaying { alone, applied } => probes_after(won, alone, applied) is None,
                _ => true,
            },
            r == self.verdicts_stand(won),
    {
        match self.stage {
            Stage::Replaying { alone, applied } => crate::run_loop::probe_count(
                won,
                alone,
                applied,
            ).is_none(),
            _ => true,
        }
    }

    /// A coverage tail waits only for what coverage needs, and replays belong
    /// to a search.
    pub open spec fn orderly(self) -> bool {
        &&& self.state.coverage_tail ==> self.stage == Stage::Top || self.stage == Stage::Filling
            || self.stage is Screening || self.stage == Stage::Done
        &&& self.stage != Stage::Done ==> self.state.consecutive_fail < self.failure_limit
            || self.state.consecutive_fail == 0
    }
}

/// The action scores, proposes or accepts nothing beyond coverage.
pub open spec fn for_coverage(action: Action) -> bool {
    match action {
        Action::Look => true,
        Action::RestartSweep => true,
        Action::FillBatch => true,
        Action::Screen => true,
        Action::FileVisits => true,
        Action::FileVisitsAndStop => true,
        Action::Stop => true,
        _ => false,
    }
}

/// Every step leaves an orderly loop orderly.
pub proof fn law_every_step_is_orderly(before: OckhamLoop, event: LoopEvent)
    requires
        before.orderly(),
        before.state.has_room(event_size(before.stage, event)),
    ensures
        before.after(event) matches Some((after, _)) ==> after.orderly() && after.failure_limit
            == before.failure_limit,
{
}

/// A loop that is about to start is orderly.
pub proof fn law_fresh_loops_are_orderly(start: OckhamLoop)
    requires
        start.state.fresh(),
        start.stage == Stage::Top,
    ensures
        start.orderly(),
{
}

/// In a coverage tail nothing is replayed, scored in full or accepted, and the
/// tail never goes back to searching.
pub proof fn law_tail_is_for_coverage_alone(before: OckhamLoop, event: LoopEvent)
    requires
        before.orderly(),
        before.state.coverage_tail,
    ensures
        before.after(event) matches Some((after, action)) ==> for_coverage(action)
            && after.state.coverage_tail && after.state.accepts == before.state.accepts,
{
}

/// A cut is accepted exactly where a cohort that was scored on the whole
/// corpus has a winner.
pub proof fn law_only_full_scores_accept(before: OckhamLoop, event: LoopEvent)
    requires
        before.state.has_room(event_size(before.stage, event)),
    ensures
        before.after(event) matches Some((after, action)) ==> {
            let wins = event matches LoopEvent::Scored(Some(_));
            &&& action is Apply <==> wins
            &&& after.state.accepts == before.state.accepts + if wins {
                1int
            } else {
                0int
            }
        },
{
}

/// Every scored cohort and every batch counts as one experiment, and nothing
/// else does.
pub proof fn law_experiments_are_counted(before: OckhamLoop, event: LoopEvent)
    requires
        before.state.has_room(event_size(before.stage, event)),
    ensures
        before.after(event) matches Some((after, action)) ==> {
            let counts = action == Action::ScoreReplay || action == Action::ScoreProbes || action
                == Action::FileVisits || (before.stage is Screening && event != LoopEvent::Failed);
            after.state.experiments == before.state.experiments + if counts {
                1int
            } else {
                0int
            }
        },
{
}

/// Once the loop has stopped, nothing starts it again.
pub proof fn law_stopped_loops_stay_stopped(done: OckhamLoop, event: LoopEvent)
    requires
        done.stage == Stage::Done,
    ensures
        done.after(event) is None,
{
}

/// The loop stops exactly when it asks to leave.
pub proof fn law_stops_are_told(before: OckhamLoop, event: LoopEvent)
    ensures
        before.after(event) matches Some((after, action)) ==> (after.stage == Stage::Done <==> (
        action == Action::Stop || action == Action::FileVisitsAndStop)),
{
}

/// A scorer failure stops the loop exactly when it is as many in a row as the
/// limit says, and the loop then names it as the reason.
pub proof fn law_failures_in_a_row_stop_the_loop(before: OckhamLoop)
    requires
        before.state.consecutive_fail < u32::MAX,
        before.after(LoopEvent::Failed) is Some,
    ensures
        before.after(LoopEvent::Failed) matches Some((after, _)) ==> {
            &&& after.stage == Stage::Done <==> before.state.consecutive_fail + 1
                >= before.failure_limit
            &&& after.stage == Stage::Done ==> after.state.stop_reason
                == StopReason::ScorerFailures
            &&& after.state.accepts == before.state.accepts
        },
{
}

/// Whatever happens is heard only where the loop waits for it, and is then
/// always answered.
pub proof fn law_each_event_is_heard_in_its_stage(before: OckhamLoop, event: LoopEvent)
    ensures
        before.after(event) is Some <==> match event {
            LoopEvent::Looked(_) => before.stage == Stage::Top,
            LoopEvent::Known { .. } => before.stage == Stage::Listing,
            LoopEvent::Proposed(_) => before.stage == Stage::Single || before.stage
                == Stage::Probing,
            LoopEvent::Scored(_) => before.stage is Replaying || before.stage
                == Stage::ProbeScoring || before.stage == Stage::Scoring,
            LoopEvent::Failed => before.stage is Replaying || before.stage == Stage::ProbeScoring
                || before.stage == Stage::Scoring || before.stage is Screening,
            LoopEvent::Filled { proposed, groups } => before.stage == Stage::Filling && proposed
                + groups <= usize::MAX,
            LoopEvent::Screened(_) => before.stage is Screening,
            LoopEvent::Unscreened => before.stage is Screening,
            LoopEvent::Sized(_) => before.stage == Stage::Sizing,
            LoopEvent::Applied(_) => before.stage is Applying,
        },
{
}

/// After it asked for something, the loop waits for the answer to just that.
pub proof fn law_each_action_awaits_its_answer(before: OckhamLoop, event: LoopEvent)
    ensures
        before.after(event) matches Some((after, action)) ==> match action {
            Action::Look => after.stage == Stage::Top,
            Action::RestartSweep => after.stage == Stage::Top,
            Action::Renew => after.stage == Stage::Top,
            Action::OpenTail => after.stage == Stage::Top,
            Action::FileVisits => after.stage == Stage::Top,
            Action::ListWins => after.stage == Stage::Listing,
            Action::ProposeSingle => after.stage == Stage::Single,
            Action::ScoreReplay => after.stage is Replaying,
            Action::ProposeProbes(_) => after.stage == Stage::Probing,
            Action::ScoreProbes => after.stage == Stage::ProbeScoring,
            Action::Apply(origin) => after.stage == Stage::Applying(
                if origin == Origin::Search {
                    Phase::Search
                } else {
                    Phase::Replay
                },
            ),
            Action::FillBatch => after.stage == Stage::Filling,
            Action::Screen => after.stage is Screening,
            Action::SizeCohort => after.stage == Stage::Sizing,
            Action::ScoreFull(_) => after.stage == Stage::Scoring,
            Action::FileVisitsAndStop => after.stage == Stage::Done,
            Action::Stop => after.stage == Stage::Done,
        },
{
}

/// Whenever a winner of a search was made the incumbent, the sweep is rebuilt on
/// the new incumbent and its pass starts with no candidates; and the sweep is
/// so rebuilt for nothing else. A replayed winner ends the search instead: the
/// loop goes on for coverage alone exactly where something is left to screen,
/// with time, a screen and a store to file it, and leaves otherwise.
pub proof fn law_accepted_winners_renew_the_sweep(before: OckhamLoop, event: LoopEvent)
    ensures
        before.after(event) matches Some((after, action)) ==> {
            let searched = before.stage == Stage::Applying(Phase::Search);
            let replayed = before.stage == Stage::Applying(Phase::Replay);
            &&& action == Action::Renew <==> searched && event is Applied
            &&& action == Action::Renew ==> after.state == (LoopState {
                pass_candidates: 0,
                ..before.state
            })
            &&& action == Action::OpenTail <==> replayed && (event matches LoopEvent::Applied(
                tail,
            ) && tail.hidden > 0 && !tail.out_of_time && tail.has_store && tail.has_screen)
            &&& action == Action::OpenTail ==> after.state.pass_candidates == 0
                && after.state.coverage_tail
            &&& replayed && action != Action::OpenTail ==> action == Action::Stop
            &&& replayed ==> after.state.stop_reason == StopReason::ReplayAccepts
        },
{
}

/// A cohort with a winner has it applied, a search's as a search's and a
/// replay's as a replay's, of one win or of several; a cohort without one
/// leaves the loop to look again, unless a replay of several wins at once is
/// first probed win by win.
pub proof fn law_scored_cohorts_are_followed_up(before: OckhamLoop, cuts: Option<usize>)
    ensures
        before.after(LoopEvent::Scored(cuts)) matches Some((after, action)) ==> match cuts {
            Some(n) => action == Action::Apply(
                if before.stage == Stage::Scoring {
                    Origin::Search
                } else if n > 1 {
                    Origin::ReplayBundle
                } else {
                    Origin::Replay
                },
            ),
            None => match before.stage {
                Stage::Replaying { alone, applied } => if !alone && applied > 1 {
                    action == Action::ProposeProbes(
                        if applied < 8 {
                            applied
                        } else {
                            8
                        },
                    )
                } else {
                    action == Action::Look
                },
                _ => action == Action::Look,
            },
        },
{
}

/// Known wins are replayed together, a single one on its own, and where none
/// can be replayed the loop never asks for them again. What could be proposed is
/// scored, and nothing else is.
pub proof fn law_known_wins_are_replayed(before: OckhamLoop, event: LoopEvent)
    ensures
        before.after(event) matches Some((after, action)) ==> match event {
            LoopEvent::Known { wins, applied, groups } => {
                let nothing = groups == 0 && (wins == 0 || applied == 0);
                &&& action == Action::Look <==> nothing
                &&& action == Action::ProposeSingle <==> !nothing && applied == 1
                &&& action == Action::ScoreReplay <==> !nothing && applied != 1
                &&& after.state.replay_done <==> before.state.replay_done || nothing
                &&& action == Action::ScoreReplay ==> after.stage == (Stage::Replaying {
                    alone: false,
                    applied,
                })
            },
            LoopEvent::Proposed(built) => {
                &&& action == Action::Look <==> built == 0
                &&& action == Action::ScoreReplay <==> built > 0 && before.stage == Stage::Single
                &&& action == Action::ScoreProbes <==> built > 0 && before.stage == Stage::Probing
                &&& action == Action::ScoreReplay ==> after.stage == (Stage::Replaying {
                    alone: true,
                    applied: 1,
                })
                &&& after.state.replay_done == before.state.replay_done
            },
            _ => {
                &&& action != Action::ProposeSingle && action != Action::ScoreReplay && action
                    != Action::ScoreProbes
                &&& after.state.replay_done == before.state.replay_done
            },
        },
{
}

/// A filled batch is screened whole, an empty one only has its visits filed; a
/// screened batch goes on to a cohort exactly where a candidate passed, or all
/// do for want of a screen, and the search is not over; and the cohort is scored
/// with as many entries as time allows, or not at all.
pub proof fn law_batches_go_on_to_cohorts(before: OckhamLoop, event: LoopEvent)
    ensures
        before.after(event) matches Some((after, action)) ==> match event {
            LoopEvent::Filled { proposed, groups } => {
                &&& action == Action::Screen <==> proposed + groups > 0
                &&& action == Action::FileVisits <==> proposed + groups == 0
                &&& action == Action::Screen ==> after.stage == (Stage::Screening {
                    size: (proposed + groups) as usize,
                })
            },
            LoopEvent::Screened(passed) => {
                &&& action == Action::SizeCohort <==> passed > 0 && !before.state.coverage_tail
                &&& action == Action::Look <==> passed == 0 || before.state.coverage_tail
            },
            LoopEvent::Unscreened => {
                let size = before.stage->size;
                &&& action == Action::SizeCohort <==> size > 0 && !before.state.coverage_tail
                &&& action == Action::Look <==> size == 0 || before.state.coverage_tail
            },
            LoopEvent::Sized(budget) => match budget {
                CohortBudget::Unmeasured => action == Action::ScoreFull(None),
                CohortBudget::Entries(n) => action == Action::ScoreFull(Some(n)),
                CohortBudget::TooSmall => action == Action::Stop,
            },
            _ => action != Action::Screen && action != Action::SizeCohort
                && !(action is ScoreFull),
        },
{
}

/// At the top of the loop: nothing goes on without hidden neurons, time and
/// experiments. Known wins come first, unless none are left, the last batch is
/// reserved or the search is over; then the next batch, or where the sweep is
/// exhausted another pass, if the last one proposed anything.
pub proof fn law_the_top_of_the_loop_decides(before: OckhamLoop, gate: Gate)
    ensures
        before.after(LoopEvent::Looked(gate)) matches Some((after, action)) ==> {
            let open = gate.hidden > 0 && !gate.cancelled && !gate.timed_out && (
            gate.max_experiments matches Some(most) ==> before.state.experiments < most);
            let replay = !before.state.replay_done && !gate.reserving
                && !before.state.coverage_tail;
            let again = before.state.pass_candidates > 0;
            &&& action == Action::ListWins <==> open && replay
            &&& action == Action::FillBatch <==> open && !replay && !gate.exhausted
            &&& action == Action::RestartSweep <==> open && !replay && gate.exhausted && again
            &&& action == Action::Stop <==> !open || (!replay && gate.exhausted && !again)
        },
{
}

/// The reason why a run stops is set by what stops it, and by nothing else. What
/// ends a coverage tail benignly is kept apart, and leaves the reason of the
/// search alone.
pub proof fn law_stop_reasons_are_honest(before: OckhamLoop, event: LoopEvent)
    requires
        before.state.has_room(event_size(before.stage, event)),
    ensures
        before.after(event) matches Some((after, action)) ==> {
            let tail = before.state.coverage_tail;
            let was = before.state.stop_reason;
            match event {
                LoopEvent::Looked(gate) => {
                    let spent = gate.max_experiments matches Some(most)
                        && before.state.experiments >= most;
                    let benign = if gate.hidden == 0 || gate.cancelled {
                        None
                    } else if gate.timed_out {
                        Some(StopReason::Timeout)
                    } else if spent {
                        Some(StopReason::MaxExperiments)
                    } else if action == Action::Stop {
                        Some(StopReason::NoCandidates)
                    } else {
                        None
                    };
                    &&& after.state.stop_reason == if gate.hidden > 0 && gate.cancelled {
                        StopReason::Cancelled
                    } else if benign is Some && !tail {
                        benign->0
                    } else {
                        was
                    }
                    &&& after.state.tail_end == if benign is Some && tail {
                        benign
                    } else {
                        before.state.tail_end
                    }
                },
                _ => {
                    &&& after.state.tail_end == before.state.tail_end
                    &&& after.state.stop_reason == match event {
                        LoopEvent::Failed => if before.state.consecutive_fail + 1
                            >= before.failure_limit {
                            StopReason::ScorerFailures
                        } else {
                            was
                        },
                        LoopEvent::Sized(CohortBudget::TooSmall) => StopReason::Budget,
                        LoopEvent::Applied(_) => if before.stage == Stage::Applying(
                            Phase::Replay,
                        ) {
                            StopReason::ReplayAccepts
                        } else {
                            was
                        },
                        _ => was,
                    }
                },
            }
        },
{
}

/// Failures in a row are counted up by a failure, set back by whatever the scorer
/// answers, and left alone by everything else. A failed screen has its visits
/// filed, and any other failure just has the loop look again, unless it was one
/// too many.
pub proof fn law_failures_are_counted_in_a_row(before: OckhamLoop, event: LoopEvent)
    requires
        before.state.has_room(event_size(before.stage, event)),
    ensures
        before.after(event) matches Some((after, action)) ==> {
            &&& after.state.consecutive_fail == match event {
                LoopEvent::Failed => before.state.consecutive_fail + 1,
                LoopEvent::Scored(_) => 0,
                LoopEvent::Screened(_) => 0,
                _ => before.state.consecutive_fail as int,
            }
            &&& event is Failed ==> action == if before.state.consecutive_fail + 1
                >= before.failure_limit {
                if before.stage is Screening {
                    Action::FileVisitsAndStop
                } else {
                    Action::Stop
                }
            } else {
                if before.stage is Screening {
                    Action::FileVisits
                } else {
                    Action::Look
                }
            }
            &&& action == Action::FileVisits ==> event is Failed || event is Filled
        },
{
}

/// A batch is over once it was screened or lost: the next one gets the next
/// number. Batches that were screened are counted, those of a tail also apart,
/// with their candidates.
pub proof fn law_batches_are_numbered(before: OckhamLoop, event: LoopEvent)
    requires
        before.state.has_room(event_size(before.stage, event)),
    ensures
        before.after(event) matches Some((after, action)) ==> {
            let a = before.state;
            let b = after.state;
            let screened = event is Screened || event is Unscreened;
            let counts = if screened {
                1int
            } else {
                0
            };
            &&& b.batch_idx == a.batch_idx + if screened || action == Action::FileVisits {
                1int
            } else {
                0
            }
            &&& b.screened_batches == a.screened_batches + counts
            &&& b.tail_batches == a.tail_batches + if a.coverage_tail {
                counts
            } else {
                0
            }
            &&& b.tail_screened == a.tail_screened + if a.coverage_tail && screened {
                before.stage->size as int
            } else {
                0
            }
        },
{
}

/// A pass counts what the sweep proposed in it, and starts anew with a rebuilt
/// sweep; a sweep that was rebuilt because it was exhausted is counted; and only
/// an accepted replay turns a search into a tail.
pub proof fn law_passes_count_their_candidates(before: OckhamLoop, event: LoopEvent)
    requires
        before.state.has_room(event_size(before.stage, event)),
    ensures
        before.after(event) matches Some((after, action)) ==> {
            let a = before.state;
            let b = after.state;
            &&& b.pass_candidates == if action == Action::RestartSweep || action == Action::Renew
                || action == Action::OpenTail {
                0
            } else {
                a.pass_candidates + match event {
                    LoopEvent::Filled { proposed, .. } => proposed as int,
                    _ => 0,
                }
            }
            &&& b.restarts == a.restarts + if action == Action::RestartSweep {
                1int
            } else {
                0
            }
            &&& b.coverage_tail <==> a.coverage_tail || action == Action::OpenTail
        },
{
}

/// The verdicts of every scored cohort are filed, except of a replay of several
/// wins at once that has no winner.
pub proof fn law_only_missed_replays_file_nothing(run: OckhamLoop, won: bool)
    ensures
        run.verdicts_stand(won) <==> !(run.stage matches Stage::Replaying { alone, applied }
            && !won && !alone && applied > 1),
        run.verdicts_stand(won) <==> !(run.after(
            LoopEvent::Scored(
                if won {
                    Some(1)
                } else {
                    None
                },
            ),
        ) matches Some((_, action)) && action is ProposeProbes),
{
}

/// What an event may add to a counter: what a filled batch proposes, and the size of
/// the batch that is being screened.
pub proof fn law_events_add_their_candidates(stage: Stage, event: LoopEvent)
    ensures
        event_size(stage, event) == match event {
            LoopEvent::Filled { proposed, .. } => proposed,
            _ => if stage is Screening {
                stage->size
            } else {
                0
            },
        },
{
}

/// The limit on failures in a row never changes.
pub proof fn law_the_failure_limit_stands(before: OckhamLoop, event: LoopEvent)
    ensures
        before.after(event) matches Some((after, _)) ==> after.failure_limit
            == before.failure_limit,
{
}

} // verus!
