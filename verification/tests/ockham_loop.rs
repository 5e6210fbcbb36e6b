use ockham::ockham_loop::{Action, LoopEvent, OckhamLoop, Stage};
use ockham::run::CohortBudget;
use ockham::run_loop::{Gate, Origin, StopReason, TailTerms};

/// A run over a creature with so many hidden neurons. The sweep proposes them
/// all in one batch; what is scored in full wins by cutting one neuron.
struct World {
    hidden: usize,
    left: usize,
    proposes: bool,
    wins: bool,
    known: usize,
    max_experiments: Option<u64>,
    has_store: bool,
    has_screen: bool,
    budget: CohortBudget,
    scorer_works: bool,
}

impl World {
    fn new(hidden: usize) -> World {
        World {
            hidden,
            left: hidden,
            proposes: true,
            wins: true,
            known: 0,
            max_experiments: Some(20),
            has_store: true,
            has_screen: true,
            budget: CohortBudget::Unmeasured,
            scorer_works: true,
        }
    }

    fn scored(&self) -> LoopEvent {
        if !self.scorer_works {
            return LoopEvent::Failed;
        }
        LoopEvent::Scored(if self.wins { Some(1) } else { None })
    }

    /// Does what is asked for, and tells what came of it.
    fn perform(&mut self, action: Action) -> LoopEvent {
        match action {
            Action::ListWins => LoopEvent::Known {
                wins: self.known,
                applied: self.known,
                groups: 0,
            },
            Action::ProposeSingle => LoopEvent::Proposed(1),
            Action::ProposeProbes(n) => LoopEvent::Proposed(n),
            Action::ScoreReplay | Action::ScoreProbes | Action::ScoreFull(_) => self.scored(),
            Action::Apply(_) => {
                self.hidden -= 1;
                self.known = self.known.saturating_sub(1);
                LoopEvent::Applied(TailTerms {
                    hidden: self.hidden,
                    out_of_time: false,
                    has_store: self.has_store,
                    has_screen: self.has_screen,
                })
            }
            Action::FillBatch => {
                let proposed = if self.proposes { self.left } else { 0 };
                self.left = 0;
                LoopEvent::Filled {
                    proposed,
                    groups: 0,
                }
            }
            Action::Screen => {
                if !self.has_screen {
                    LoopEvent::Unscreened
                } else if self.scorer_works {
                    LoopEvent::Screened(1)
                } else {
                    LoopEvent::Failed
                }
            }
            Action::SizeCohort => LoopEvent::Sized(self.budget),
            Action::RestartSweep | Action::Renew | Action::OpenTail => {
                self.left = self.hidden;
                self.look()
            }
            Action::Look | Action::FileVisits => self.look(),
            Action::Stop | Action::FileVisitsAndStop => unreachable!(),
        }
    }

    fn look(&self) -> LoopEvent {
        LoopEvent::Looked(Gate {
            hidden: self.hidden,
            cancelled: false,
            timed_out: false,
            max_experiments: self.max_experiments,
            reserving: false,
            exhausted: self.left == 0,
        })
    }

    /// Runs the loop to its end; tells the actions.
    fn run(&mut self) -> (OckhamLoop, Vec<Action>) {
        let mut run = OckhamLoop::new(3);
        let mut actions = Vec::new();
        let mut event = self.look();
        loop {
            let action = run.step(event).expect("the loop waits for this");
            actions.push(action);
            if run.stage == Stage::Done {
                return (run, actions);
            }
            event = self.perform(action);
        }
    }
}

#[test]
fn an_accept_keeps_the_search_going() {
    let mut world = World {
        has_screen: false,
        ..World::new(2)
    };
    let (run, actions) = world.run();
    assert!(run.state.accepts > 1, "accepts={}", run.state.accepts);
    assert_eq!(
        run.state.stop_reason.code(),
        "no-hidden",
        "the search runs on until the creature has nothing left to cut"
    );
    assert!(!actions.contains(&Action::OpenTail));
    assert!(actions.contains(&Action::Apply(Origin::Search)));
}

#[test]
fn an_accept_that_leaves_no_hidden_neurons_stops_at_once() {
    let mut world = World {
        known: 1,
        ..World::new(1)
    };
    let (run, actions) = world.run();
    assert_eq!(run.state.stop_reason.code(), "replay-accepts");
    assert_eq!(actions.last(), Some(&Action::Stop));
    assert!(!actions.contains(&Action::FillBatch));
}

#[test]
fn no_tail_without_a_sampled_screen() {
    let mut world = World {
        known: 1,
        has_screen: false,
        ..World::new(3)
    };
    let (run, actions) = world.run();
    assert_eq!(run.state.stop_reason.code(), "replay-accepts");
    assert!(!actions.contains(&Action::OpenTail));
}

#[test]
fn a_replay_accept_spends_the_rest_on_coverage() {
    let mut world = World {
        known: 2,
        ..World::new(4)
    };
    let (run, actions) = world.run();
    let opened = actions
        .iter()
        .position(|a| *a == Action::OpenTail)
        .expect("a tail");
    assert!(actions[opened..].contains(&Action::Screen));
    assert!(!actions[opened + 1..].iter().any(|a| matches!(
        a,
        Action::ListWins | Action::SizeCohort | Action::ScoreFull(_) | Action::Apply(_)
    )));
    assert_eq!(run.state.accepts, 1);
    assert_eq!(run.state.stop_reason, StopReason::ReplayAccepts);
    assert_eq!(run.state.tail_ended(), StopReason::MaxExperiments);
    assert!(run.state.tail_batches > 0);
}

#[test]
fn a_missed_replay_is_probed_and_then_tried_again() {
    let mut world = World {
        known: 12,
        wins: false,
        max_experiments: Some(2),
        ..World::new(20)
    };
    let (run, actions) = world.run();
    assert_eq!(
        actions,
        vec![
            Action::ListWins,
            Action::ScoreReplay,
            Action::ProposeProbes(8),
            Action::ScoreProbes,
            Action::Look,
            Action::Stop,
        ]
    );
    assert_eq!(run.state.experiments, 2);
    assert_eq!(run.state.stop_reason.code(), "max-experiments");
}

#[test]
fn a_creature_that_can_never_propose_stops_instead_of_looping() {
    let mut world = World {
        proposes: false,
        ..World::new(2)
    };
    let (run, actions) = world.run();
    assert_eq!(run.state.stop_reason.code(), "no-candidates");
    assert!(actions.contains(&Action::FileVisits));
    assert_eq!(run.state.restarts, 0);
}

#[test]
fn a_starved_run_stops_before_launching_a_cohort_it_cannot_finish() {
    let mut world = World {
        budget: CohortBudget::TooSmall,
        ..World::new(2)
    };
    let (run, actions) = world.run();
    assert_eq!(run.state.stop_reason.code(), "budget");
    assert!(!actions.iter().any(|a| matches!(a, Action::ScoreFull(_))));
}

#[test]
fn a_budget_reaches_the_cohort() {
    let mut world = World {
        budget: CohortBudget::Entries(5),
        wins: false,
        ..World::new(2)
    };
    let (_, actions) = world.run();
    assert!(actions.contains(&Action::ScoreFull(Some(5))));
}

#[test]
fn an_exhausted_sweep_is_rebuilt() {
    let mut world = World {
        wins: false,
        max_experiments: Some(4),
        ..World::new(2)
    };
    let (run, actions) = world.run();
    assert_eq!(run.state.stop_reason.code(), "max-experiments");
    assert_eq!(run.state.restarts, 3);
    assert_eq!(
        actions.iter().filter(|a| **a == Action::FillBatch).count(),
        4,
        "no batch is empty"
    );
}

#[test]
fn a_broken_scorer_stops_the_run_with_its_visits_filed() {
    let mut world = World {
        scorer_works: false,
        ..World::new(2)
    };
    let (run, actions) = world.run();
    assert_eq!(run.state.stop_reason.code(), "scorer-failures");
    assert_eq!(actions.last(), Some(&Action::FileVisitsAndStop));
    assert_eq!(run.state.consecutive_fail, 3);
}

#[test]
fn an_event_out_of_turn_changes_nothing() {
    let mut run = OckhamLoop::new(3);
    assert_eq!(run.step(LoopEvent::Scored(Some(1))), None);
    assert_eq!(run.stage, Stage::Top);
    assert_eq!(run.state.accepts, 0);
}

#[test]
fn a_replay_that_missed_leaves_its_verdicts_to_the_probes() {
    let replaying = |alone: bool, applied: usize| {
        let mut run = OckhamLoop::new(3);
        run.stage = Stage::Replaying { alone, applied };
        run
    };
    assert!(!replaying(false, 2).files_verdicts(false));
    assert!(replaying(false, 2).files_verdicts(true));
    // A win that was scored alone is not probed again.
    assert!(replaying(true, 2).files_verdicts(false));
    assert!(replaying(false, 1).files_verdicts(false));
    for stage in [Stage::ProbeScoring, Stage::Scoring] {
        let mut run = OckhamLoop::new(3);
        run.stage = stage;
        assert!(run.files_verdicts(false));
    }
}
