//! Whether a run's best creature may enter the population.
//!
//! The best creature and the latest champion are scored together, on the whole
//! corpus; scores from other calls are not compared.
use vstd::prelude::*;

use crate::measure::Measure;
use crate::scorer::{find_score, scores, scores_at, ScoreEntry};
use crate::text::{same_text, text_of};

verus! {

/// The two scores that are compared.
#[derive(Clone, Copy, Debug, PartialEq, Eq, Structural)]
pub struct ReentryScores {
    /// The score of the run's best creature.
    pub ockham: Measure,
    /// The score of the champion.
    pub champion: Measure,
}

/// The first entry under a key has that score.
pub open spec fn scored_as(answer: Seq<ScoreEntry>, key: Seq<char>, score: Measure) -> bool {
    exists|i: int| #[trigger] scores_at(answer, key, i) && answer[i].result.score == score
}

/// Reads both scores from a scorer's answer. The champion stands under the
/// reserved key of the comparison's parent, or else under its own.
pub fn reentry_scores(answer: &Vec<ScoreEntry>) -> (r: Result<ReentryScores, String>)
    ensures
        match r {
            Ok(found) => {
                &&& scored_as(answer@, "ockham"@, found.ockham)
                &&& if scores(answer@, "baseline"@) {
                    scored_as(answer@, "baseline"@, found.champion)
                } else {
                    scored_as(answer@, "champion"@, found.champion)
                }
            },
            Err(message) => if scores(answer@, "baseline"@) || scores(answer@, "champion"@) {
                &&& !scores(answer@, "ockham"@)
                &&& message@ == "re-entry: scorer returned no `ockham` entry"@
            } else {
                message@ == "re-entry: scorer returned no champion/baseline entry"@
            },
        },
{
    let parent = match find_score(answer, "baseline") {
        Some(at) => Some(at),
        None => find_score(answer, "champion"),
    };
    let champion = match parent {
        Some(at) => answer[at].result.score,
        None => {
            return Err(text_of("re-entry: scorer returned no champion/baseline entry"));
        },
    };
    match find_score(answer, "ockham") {
        Some(at) => Ok(ReentryScores { ockham: answer[at].result.score, champion }),
        None => Err(text_of("re-entry: scorer returned no `ockham` entry")),
    }
}

/// The differences between the scores.
#[derive(Clone, Copy, Debug, PartialEq, Eq, Structural)]
pub struct ReentryDifferences {
    /// The best creature's score less the opening score.
    pub cumulative_gain: Measure,
    /// The champion's score less the opening score.
    pub frontier_movement: Measure,
    /// The best creature's score less the champion's.
    pub population_headroom: Measure,
}

/// What the comparison came to.
#[derive(Debug)]
pub struct ReentryOutcome {
    /// The score that the run started from.
    pub opening_score: Measure,
    /// The score of the run's best creature.
    pub ockham_score: Measure,
    /// The score of the champion.
    pub champion_score: Measure,
    /// The best creature's score less the opening score.
    pub cumulative_gain: Measure,
    /// The champion's score less the opening score.
    pub frontier_movement: Measure,
    /// The best creature's score less the champion's.
    pub population_headroom: Measure,
    /// The checksum of the best creature.
    pub ockham_checksum: String,
    /// The checksum of the champion.
    pub champion_checksum: String,
    /// Whether the best creature may enter.
    pub population_ready: bool,
}

/// The best creature may enter the population.
pub open spec fn enters(differences: ReentryDifferences, min_improvement: Measure) -> bool {
    min_improvement.below(differences.population_headroom)
}

/// The best creature may enter exactly if it is ahead of the champion by more than
/// the minimum, however much the run gained.
pub proof fn law_only_better_creatures_enter(
    differences: ReentryDifferences,
    min_improvement: Measure,
)
    requires
        !min_improvement.nan(),
        !differences.population_headroom.nan(),
    ensures
        enters(differences, min_improvement) <==> differences.population_headroom.position()
            > min_improvement.position(),
{
}

/// Compares the best creature with the champion: it may enter only if it is
/// ahead by more than the minimum.
pub fn compare_with_champion(
    opening_score: Measure,
    found: ReentryScores,
    differences: ReentryDifferences,
    ockham_checksum: String,
    champion_checksum: String,
    min_improvement: Measure,
) -> (r: ReentryOutcome)
    ensures
        r == (ReentryOutcome {
            opening_score,
            ockham_score: found.ockham,
            champion_score: found.champion,
            cumulative_gain: differences.cumulative_gain,
            frontier_movement: differences.frontier_movement,
            population_headroom: differences.population_headroom,
            ockham_checksum,
            champion_checksum,
            population_ready: min_improvement.below(differences.population_headroom),
        }),
        enters(differences, min_improvement) == r.population_ready,
{
    ReentryOutcome {
        opening_score,
        ockham_score: found.ockham,
        champion_score: found.champion,
        cumulative_gain: differences.cumulative_gain,
        frontier_movement: differences.frontier_movement,
        population_headroom: differences.population_headroom,
        ockham_checksum,
        champion_checksum,
        population_ready: min_improvement.lt(differences.population_headroom),
    }
}

impl ReentryOutcome {
    /// What is written for the population: nothing unless the creature may
    /// enter, and then only the very creature that was scored.
    pub fn export(&self, exported_checksum: &str) -> (r: Result<bool, String>)
        ensures
            match r {
                Ok(written) => {
                    &&& written == self.population_ready
                    &&& written ==> exported_checksum@ == self.ockham_checksum@
                },
                Err(message) => {
                    &&& self.population_ready
                    &&& exported_checksum@ != self.ockham_checksum@
                    &&& message@ == "re-entry: exported Ockham JSON checksum drifted"@
                },
            },
    {
        if !self.population_ready {
            return Ok(false);
        }
        if same_text(exported_checksum, self.ockham_checksum.as_str()) {
            Ok(true)
        } else {
            Err(text_of("re-entry: exported Ockham JSON checksum drifted"))
        }
    }
}

} // verus!
