//! What scoring costs, as far as it was measured.
//!
//! Products and quotients of measured times are formed elsewhere; here is which
//! measurement counts, and what stands in where one is missing.
use vstd::prelude::*;

use crate::measure::{Measure, ONE_BITS};

verus! {

/// How much of the corpus a screen is taken to read where that is not known:
/// a full score costs this many times a sampled one, `20` as its bits.
pub const SCREEN_FALLBACK_MULTIPLE: u64 = 0x4034_0000_0000_0000;

/// The times that were measured, in milliseconds for each creature.
#[derive(Clone, Copy, Debug, PartialEq, Eq, Structural)]
pub struct CostModel {
    /// On the whole corpus, smoothed over cohorts.
    pub full_per_creature_ms: Option<Measure>,
    /// On a sample, at the last screen.
    pub screen_per_creature_ms: Option<Measure>,
    /// On the whole corpus, for the opening baseline.
    pub baseline_per_creature_ms: Option<Measure>,
    /// The share of the corpus that the last stage of a screen reads.
    pub sample_rate: Option<Measure>,
    /// What a batch costs in passes of that stage.
    pub batch_multiple: Measure,
}

/// What a screened batch costs: the product of its factors and the number of
/// creatures.
#[derive(Clone, Copy, Debug, PartialEq, Eq, Structural)]
pub struct BatchCost {
    /// The time for a creature.
    pub per_creature_ms: Measure,
    /// The share of that time that a screen takes.
    pub rate: Measure,
    /// Passes of the last stage.
    pub multiple: Measure,
}

/// What a full score is estimated from.
#[derive(Clone, Copy, Debug, PartialEq, Eq, Structural)]
pub enum CreatureCost {
    /// It was measured.
    Full(Measure),
    /// A screen read this share of the corpus.
    Sampled {
        /// The time on the sample.
        screen_ms: Measure,
        /// The share.
        rate: Measure,
    },
    /// A screen read a share that is not known.
    Guessed {
        /// The time on the sample.
        screen_ms: Measure,
        /// How many times as long the whole corpus is taken to be.
        multiple: Measure,
    },
}

/// A share that something can be divided by.
pub open spec fn usable_rate(rate: Option<Measure>) -> Option<Measure> {
    match rate {
        Some(share) => if (Measure { bits: 0 }).below(share) {
            Some(share)
        } else {
            None
        },
        None => None,
    }
}

fn usable(rate: Option<Measure>) -> (r: Option<Measure>)
    ensures
        r == usable_rate(rate),
{
    match rate {
        Some(share) => {
            if Measure::zero().lt(share) {
                Some(share)
            } else {
                None
            }
        },
        None => None,
    }
}

impl CostModel {
    /// Nothing is measured yet.
    pub fn new(sample_rate: Option<Measure>, batch_multiple: Measure) -> (r: CostModel)
        ensures
            r == (CostModel {
                full_per_creature_ms: None,
                screen_per_creature_ms: None,
                baseline_per_creature_ms: None,
                sample_rate,
                batch_multiple,
            }),
    {
        CostModel {
            full_per_creature_ms: None,
            screen_per_creature_ms: None,
            baseline_per_creature_ms: None,
            sample_rate,
            batch_multiple,
        }
    }

    /// The model once the opening baseline took so long.
    pub open spec fn with_baseline(self, baseline_ms: u64, measured: Measure) -> CostModel {
        CostModel {
            baseline_per_creature_ms: if baseline_ms > 0 {
                Some(measured)
            } else {
                self.baseline_per_creature_ms
            },
            ..self
        }
    }

    /// The model once a screen of so many creatures took so long for each.
    pub open spec fn with_screen(self, creatures: usize, per_creature_ms: Measure) -> CostModel {
        CostModel {
            screen_per_creature_ms: if creatures > 0 {
                Some(per_creature_ms)
            } else {
                self.screen_per_creature_ms
            },
            ..self
        }
    }

    /// The model once a cohort took so long for each creature.
    pub open spec fn with_full(self, sample_ms: Measure, smoothed_ms: Measure) -> CostModel {
        CostModel {
            full_per_creature_ms: if self.full_per_creature_ms is None {
                Some(sample_ms)
            } else {
                Some(smoothed_ms)
            },
            ..self
        }
    }

    /// The opening baseline took so long; a time of nothing tells nothing.
    pub fn observe_baseline(&mut self, baseline_ms: u64, measured: Measure)
        ensures
            *final(self) == if baseline_ms > 0 {
                CostModel { baseline_per_creature_ms: Some(measured), ..*old(self) }
            } else {
                *old(self)
            },
            *final(self) == old(self).with_baseline(baseline_ms, measured),
    {
        if baseline_ms > 0 {
            self.baseline_per_creature_ms = Some(measured);
        }
    }

    /// A screen of some creatures took so long for each; one of none tells
    /// nothing.
    pub fn observe_screen(&mut self, creatures: usize, per_creature_ms: Measure)
        ensures
            *final(self) == if creatures > 0 {
                CostModel { screen_per_creature_ms: Some(per_creature_ms), ..*old(self) }
            } else {
                *old(self)
            },
            *final(self) == old(self).with_screen(creatures, per_creature_ms),
    {
        if creatures == 0 {
            return;
        }
        self.screen_per_creature_ms = Some(per_creature_ms);
    }

    /// A cohort took so long for each creature. The first such time stands as
    /// it is, and a later one is smoothed into those before.
    pub fn observe_full(&mut self, sample_ms: Measure, smoothed_ms: Measure)
        ensures
            *final(self) == (CostModel {
                full_per_creature_ms: Some(
                    if old(self).full_per_creature_ms is None {
                        sample_ms
                    } else {
                        smoothed_ms
                    },
                ),
                ..*old(self)
            }),
            *final(self) == old(self).with_full(sample_ms, smoothed_ms),
    {
        if self.full_per_creature_ms.is_none() {
            self.full_per_creature_ms = Some(sample_ms);
        } else {
            self.full_per_creature_ms = Some(smoothed_ms);
        }
    }

    /// What a batch is estimated to cost: by the last screen, or else by the
    /// time on the whole corpus and the share of it that a screen reads.
    pub open spec fn batch_cost(self) -> Option<BatchCost> {
        let rate = match usable_rate(self.sample_rate) {
            Some(share) => share,
            None => Measure { bits: ONE_BITS },
        };
        if self.screen_per_creature_ms is Some {
            Some(
                BatchCost {
                    per_creature_ms: self.screen_per_creature_ms->0,
                    rate: Measure { bits: ONE_BITS },
                    multiple: self.batch_multiple,
                },
            )
        } else if self.full_per_creature_ms is Some {
            Some(
                BatchCost {
                    per_creature_ms: self.full_per_creature_ms->0,
                    rate,
                    multiple: self.batch_multiple,
                },
            )
        } else if self.baseline_per_creature_ms is Some {
            Some(
                BatchCost {
                    per_creature_ms: self.baseline_per_creature_ms->0,
                    rate,
                    multiple: self.batch_multiple,
                },
            )
        } else {
            None
        }
    }

    /// What a batch is estimated to cost.
    pub fn screen_batch_ms(&self) -> (r: Option<BatchCost>)
        ensures
            r == self.batch_cost(),
    {
        if let Some(per_creature_ms) = self.screen_per_creature_ms {
            return Some(
                BatchCost {
                    per_creature_ms,
                    rate: Measure::one(),
                    multiple: self.batch_multiple,
                },
            );
        }
        let full = match self.full_per_creature_ms {
            Some(ms) => Some(ms),
            None => self.baseline_per_creature_ms,
        };
        let rate = match usable(self.sample_rate) {
            Some(share) => share,
            None => Measure::one(),
        };
        match full {
            Some(per_creature_ms) => Some(
                BatchCost { per_creature_ms, rate, multiple: self.batch_multiple },
            ),
            None => None,
        }
    }

    /// What a full score is estimated from: full scores that were measured, or
    /// else the last screen.
    pub open spec fn creature_cost(self) -> Option<CreatureCost> {
        if self.full_per_creature_ms is Some {
            Some(CreatureCost::Full(self.full_per_creature_ms->0))
        } else if self.screen_per_creature_ms is Some {
            let screen_ms = self.screen_per_creature_ms->0;
            match usable_rate(self.sample_rate) {
                Some(rate) => Some(CreatureCost::Sampled { screen_ms, rate }),
                None => Some(
                    CreatureCost::Guessed {
                        screen_ms,
                        multiple: Measure { bits: SCREEN_FALLBACK_MULTIPLE },
                    },
                ),
            }
        } else {
            None
        }
    }

    /// What a full score is estimated from.
    pub fn per_creature_ms(&self) -> (r: Option<CreatureCost>)
        ensures
            r == self.creature_cost(),
    {
        if let Some(ms) = self.full_per_creature_ms {
            return Some(CreatureCost::Full(ms));
        }
        match self.screen_per_creature_ms {
            Some(screen_ms) => match usable(self.sample_rate) {
                Some(rate) => Some(CreatureCost::Sampled { screen_ms, rate }),
                None => Some(
                    CreatureCost::Guessed {
                        screen_ms,
                        multiple: Measure { bits: SCREEN_FALLBACK_MULTIPLE },
                    },
                ),
            },
            None => None,
        }
    }
}

/// Once a cohort was scored, screens no longer decide what a full score is
/// estimated to cost, and once a batch was screened, nothing else decides what
/// a batch is.
pub proof fn law_measurements_outrank_estimates(model: CostModel)
    ensures
        model.full_per_creature_ms is Some ==> model.creature_cost() == Some(
            CreatureCost::Full(model.full_per_creature_ms->0),
        ),
        model.screen_per_creature_ms is Some ==> model.batch_cost() is Some
            && model.batch_cost()->0.per_creature_ms == model.screen_per_creature_ms->0,
        model.creature_cost() is None <==> model.full_per_creature_ms is None
            && model.screen_per_creature_ms is None,
{
}

/// What a batch is priced by: the last screen as it is, or else the time on the
/// whole corpus, that of cohorts before that of the opening, times the share that a
/// screen reads where that is above nothing; always times what a whole batch takes.
pub proof fn law_batches_are_priced_by_what_was_measured(model: CostModel)
    ensures
        ({
            let share = if model.sample_rate is Some && !model.sample_rate->0.nan()
                && model.sample_rate->0.position() > 0 {
                model.sample_rate->0
            } else {
                Measure { bits: 0x3FF0_0000_0000_0000 }
            };
            let screen = model.screen_per_creature_ms;
            let full = model.full_per_creature_ms;
            let opening = model.baseline_per_creature_ms;
            &&& model.batch_cost() is None <==> screen is None && full is None && opening is None
            &&& model.batch_cost() matches Some(cost) ==> {
                &&& cost.multiple == model.batch_multiple
                &&& screen is Some ==> cost.per_creature_ms == screen->0 && cost.rate.bits
                    == 0x3FF0_0000_0000_0000
                &&& screen is None ==> cost.rate == share
                &&& screen is None && full is Some ==> cost.per_creature_ms == full->0
                &&& screen is None && full is None ==> cost.per_creature_ms == opening->0
            }
        }),
{
}

/// What a full score is priced by: what cohorts took, or else the last screen over
/// the share that it read where that is above nothing, and times twenty where it is
/// not known.
pub proof fn law_full_scores_are_priced_by_what_was_measured(model: CostModel)
    ensures
        ({
            let known = model.sample_rate is Some && !model.sample_rate->0.nan()
                && model.sample_rate->0.position() > 0;
            let screen = model.screen_per_creature_ms;
            let full = model.full_per_creature_ms;
            model.creature_cost() == if full is Some {
                Some(CreatureCost::Full(full->0))
            } else if screen is None {
                None
            } else if known {
                Some(CreatureCost::Sampled { screen_ms: screen->0, rate: model.sample_rate->0 })
            } else {
                Some(
                    CreatureCost::Guessed {
                        screen_ms: screen->0,
                        multiple: Measure { bits: 0x4034_0000_0000_0000 },
                    },
                )
            }
        }),
{
}

/// What is observed moves the estimates that it should and no others: the first cohort
/// prices full scores as it is, later ones as they were smoothed; a screen prices the
/// next batch; and a baseline prices batches only while nothing better is known. What
/// took no time or scored nothing tells nothing.
pub proof fn law_observations_move_their_own_estimate(
    model: CostModel,
    count: usize,
    ms: u64,
    a: Measure,
    b: Measure,
)
    ensures
        model.full_per_creature_ms is None ==> model.with_full(a, b).creature_cost() == Some(
            CreatureCost::Full(a),
        ),
        model.full_per_creature_ms is Some ==> model.with_full(a, b).creature_cost() == Some(
            CreatureCost::Full(b),
        ),
        model.with_full(a, b).screen_per_creature_ms == model.screen_per_creature_ms,
        model.with_full(a, b).baseline_per_creature_ms == model.baseline_per_creature_ms,
        count > 0 ==> model.with_screen(count, a).batch_cost() is Some && model.with_screen(
            count,
            a,
        ).batch_cost()->0.per_creature_ms == a,
        count == 0 ==> model.with_screen(count, a) == model,
        model.with_screen(count, a).full_per_creature_ms == model.full_per_creature_ms,
        model.with_screen(count, a).baseline_per_creature_ms == model.baseline_per_creature_ms,
        ms == 0 ==> model.with_baseline(ms, a) == model,
        model.with_baseline(ms, a).creature_cost() == model.creature_cost(),
        ms > 0 && model.screen_per_creature_ms is None && model.full_per_creature_ms is None
            ==> model.with_baseline(ms, a).batch_cost() is Some && model.with_baseline(
            ms,
            a,
        ).batch_cost()->0.per_creature_ms == a,
        model.screen_per_creature_ms is Some || model.full_per_creature_ms is Some
            ==> model.with_baseline(ms, a).batch_cost() == model.batch_cost(),
{
}

} // verus!
