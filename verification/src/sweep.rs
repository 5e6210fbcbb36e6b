//! Candidates of a sweep and what screening makes of them.
use vstd::prelude::*;

use crate::blocked::BlockedReason;
use crate::measure::Measure;

verus! {

/// The reason text of a visit that a standing verdict already answers.
pub const KNOWN_FAILURE_REASON: &'static str = "known-failure";

/// How a candidate cuts its neuron.
#[derive(Clone, Copy, Debug, PartialEq, Eq, Structural)]
pub enum CandidateKind {
    /// The neuron passes its input on.
    Identity,
    /// The neuron is replaced by a constant.
    Ablation,
    /// A whole neighbourhood is cut at once.
    Group,
}

/// One cut that is tried, apart from the creature it leaves.
#[derive(Debug)]
pub struct SweepCandidate {
    /// The neuron that the candidate is keyed on.
    pub uuid: String,
    /// Every neuron that the candidate cuts.
    pub members: Vec<String>,
    /// Where the sweep visited the neuron.
    pub permutation_index: usize,
    /// How the neuron is cut.
    pub kind: CandidateKind,
    /// The file name without its ending.
    pub stem: String,
}

impl SweepCandidate {
    /// Whether the candidate cuts a neighbourhood.
    pub fn is_group(&self) -> (r: bool)
        ensures
            r == (self.kind == CandidateKind::Group),
    {
        self.kind == CandidateKind::Group
    }
}

/// A candidate that beat the incumbent on a sample.
#[derive(Debug)]
pub struct SampledWinner {
    /// The candidate.
    pub candidate: SweepCandidate,
    /// Its score on the sample.
    pub score: Measure,
    /// The incumbent's score on the sample.
    pub baseline_score: Measure,
    /// How far the candidate is ahead.
    pub delta: Measure,
}

/// Why a screened candidate was dropped.
#[derive(Clone, Copy, Debug, PartialEq, Eq, Structural)]
pub enum ScreenRejection {
    /// Behind by more than an early stage's margin.
    ClearlyWorse,
    /// Not above the threshold of the last stage.
    BelowThreshold,
}

/// A candidate that screening dropped.
#[derive(Debug)]
pub struct ScreenedLoser {
    /// The neuron of the candidate.
    pub uuid: String,
    /// How it was cut.
    pub kind: CandidateKind,
    /// How far it was ahead on the sample, or behind.
    pub delta: Measure,
    /// The stage that dropped it.
    pub stage: usize,
    /// Why it was dropped.
    pub reason: ScreenRejection,
}

/// A visit of the sweep that produced no candidate.
#[derive(Debug)]
pub struct SweepSkip {
    /// The neuron that was visited.
    pub uuid: String,
    /// Where the sweep visited it.
    pub permutation_index: usize,
    /// Why, in words.
    pub reason: String,
    /// Why, by category, if the visit was blocked.
    pub blocked: Option<BlockedReason>,
}

} // verus!
