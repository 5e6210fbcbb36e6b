//! What an accepted cut stamps on the creature that it leaves.
use vstd::prelude::*;

use crate::judge::{EntryKind, FullCandidate};
use crate::measure::Measure;
use crate::report::Coverage;
use crate::run_loop::{LoopState, Origin};
use crate::text::text_of;

verus! {

/// An accept, as far as a later check-in needs it.
#[derive(Debug)]
pub struct StampedAccept {
    /// Cuts accepted so far, this one among them.
    pub accepts: u64,
    /// Experiments made until then.
    pub experiments: u64,
    /// The score of the creature.
    pub score: Measure,
    /// Its error.
    pub error: Measure,
    /// How the cut was put together.
    pub last: EntryKind,
    /// Where it came from.
    pub origin: Origin,
    /// How many neurons it cut.
    pub cuts: usize,
    /// The checksum of the creature.
    pub checksum: String,
}

/// What a creature's tag says of the run that left it.
#[derive(Debug)]
pub struct CheckIn {
    /// Cuts accepted so far.
    pub accepts: u64,
    /// Experiments made until the last one.
    pub experiments: u64,
    /// The score that the run started from.
    pub opening: Measure,
    /// The score of the creature.
    pub score: Measure,
    /// Its error.
    pub error: Measure,
    /// How the last cut was put together.
    pub last: EntryKind,
    /// Where it came from.
    pub origin: Origin,
    /// How many neurons it cut.
    pub cuts: usize,
    /// What of the creature was screened, where that is kept.
    pub coverage: Option<Coverage>,
    /// The corpus that the coverage is of.
    pub epoch: Option<String>,
}

/// The accept is this winner's, in this state of the loop.
pub open spec fn stamps(
    stamp: StampedAccept,
    state: LoopState,
    winner: FullCandidate,
    origin: Origin,
    checksum: Seq<char>,
) -> bool {
    &&& stamp.accepts == state.accepts
    &&& stamp.experiments == state.experiments
    &&& stamp.score == winner.score
    &&& stamp.error == winner.error
    &&& stamp.last == winner.kind
    &&& stamp.origin == origin
    &&& stamp.cuts == winner.uuids@.len()
    &&& stamp.checksum@ == checksum
}

/// How many hidden neurons a run has cut.
pub fn cut_so_far(opening_hidden: usize, hidden: usize) -> (r: usize)
    ensures
        r == if opening_hidden > hidden {
            opening_hidden - hidden
        } else {
            0
        },
        hidden <= opening_hidden ==> r + hidden == opening_hidden,
{
    if opening_hidden > hidden {
        opening_hidden - hidden
    } else {
        0
    }
}

impl StampedAccept {
    /// Stamps an accepted winner, once the loop has counted it.
    pub fn of(state: &LoopState, winner: &FullCandidate, origin: Origin, checksum: &str) -> (r:
        StampedAccept)
        ensures
            stamps(r, *state, *winner, origin, checksum@),
    {
        StampedAccept {
            accepts: state.accepts,
            experiments: state.experiments,
            score: winner.score,
            error: winner.error,
            last: winner.kind,
            origin,
            cuts: winner.uuids.len(),
            checksum: text_of(checksum),
        }
    }

    /// What the tag says. The corpus is named only where there is coverage for
    /// it to qualify. A tag that is stamped again keeps the figures of the
    /// accept, however many batches were screened since.
    pub fn check_in(&self, opening: Measure, coverage: Option<Coverage>, corpus: &str) -> (r:
        CheckIn)
        ensures
            r.accepts == self.accepts,
            r.experiments == self.experiments,
            r.opening == opening,
            r.score == self.score,
            r.error == self.error,
            r.last == self.last,
            r.origin == self.origin,
            r.cuts == self.cuts,
            r.coverage == coverage,
            match r.epoch {
                Some(epoch) => coverage is Some && epoch@ == corpus@,
                None => coverage is None,
            },
            tags(*self, opening, coverage, corpus@, r),
    {
        let epoch = match coverage {
            Some(_) => Some(text_of(corpus)),
            None => None,
        };
        CheckIn {
            accepts: self.accepts,
            experiments: self.experiments,
            opening,
            score: self.score,
            error: self.error,
            last: self.last,
            origin: self.origin,
            cuts: self.cuts,
            coverage,
            epoch,
        }
    }
}

/// An accept is stamped with the counts of its loop and with the score, error, kind
/// and size of the very winner that was applied.
pub proof fn law_accepts_are_stamped_with_their_winner(
    stamp: StampedAccept,
    state: LoopState,
    winner: FullCandidate,
    origin: Origin,
    checksum: Seq<char>,
)
    requires
        stamps(stamp, state, winner, origin, checksum),
    ensures
        stamp.accepts == state.accepts,
        stamp.experiments == state.experiments,
        stamp.score == winner.score,
        stamp.error == winner.error,
        stamp.last == winner.kind,
        stamp.origin == origin,
        stamp.cuts == winner.uuids@.len(),
        stamp.checksum@ == checksum,
{
}

/// The tag says what the accept was stamped with.
pub open spec fn tags(
    stamp: StampedAccept,
    opening: Measure,
    coverage: Option<Coverage>,
    corpus: Seq<char>,
    r: CheckIn,
) -> bool {
    &&& r.accepts == stamp.accepts
    &&& r.experiments == stamp.experiments
    &&& r.opening == opening
    &&& r.score == stamp.score
    &&& r.error == stamp.error
    &&& r.last == stamp.last
    &&& r.origin == stamp.origin
    &&& r.cuts == stamp.cuts
    &&& r.coverage == coverage
    &&& r.epoch is Some <==> coverage is Some
    &&& r.epoch matches Some(epoch) ==> epoch@ == corpus
}

/// A tag carries the winner's own figures, however often it is stamped and whatever
/// was screened since: two tags of one accept differ in their coverage at most.
pub proof fn law_tags_carry_the_winner(
    stamp: StampedAccept,
    state: LoopState,
    winner: FullCandidate,
    origin: Origin,
    checksum: Seq<char>,
    opening: Measure,
    first: Option<Coverage>,
    later: Option<Coverage>,
    corpus: Seq<char>,
    a: CheckIn,
    b: CheckIn,
)
    requires
        stamps(stamp, state, winner, origin, checksum),
        tags(stamp, opening, first, corpus, a),
        tags(stamp, opening, later, corpus, b),
    ensures
        a.score == winner.score && a.error == winner.error && a.last == winner.kind,
        a.cuts == winner.uuids@.len() && a.accepts == state.accepts && a.experiments
            == state.experiments,
        a.opening == opening && a.origin == origin && a.coverage == first,
        b.score == a.score && b.error == a.error && b.last == a.last && b.cuts == a.cuts,
        b.accepts == a.accepts && b.experiments == a.experiments && b.origin == a.origin,
        b.coverage == later,
        first is None ==> a.epoch is None,
        first is Some ==> a.epoch is Some && a.epoch->0@ == corpus,
{
}

} // verus!
