//! Screening candidates on ever larger samples.
use vstd::prelude::*;

use crate::list::{law_true_places_ascend, reversed, true_places};
use crate::measure::{
    law_comparison_is_total_without_nan, law_negation_reverses_order, Measure, ONE_BITS,
};
use crate::sweep::{SampledWinner, ScreenRejection, ScreenedLoser, SweepCandidate};
use crate::text::{
    decimal, decimal_text, first_place, split_at_char, split_once_text, split_text, text_of, texts,
    trim_text, trimmed,
};

verus! {

/// One rung of a ladder.
#[derive(Clone, Copy, Debug, PartialEq, Eq, Structural)]
pub struct ScreenStage {
    /// The share of the corpus that is scored.
    pub rate: Measure,
    /// How far behind a candidate may be and still be carried on.
    pub reject_margin: Measure,
}

/// The share lies strictly between none and all.
pub open spec fn is_share(rate: Measure) -> bool {
    (Measure { bits: 0 }).below(rate) && rate.below(Measure { bits: ONE_BITS })
}

/// The stages climb from a small share to a larger one, and no stage but the
/// last rejects a candidate for being level.
pub open spec fn valid_ladder(stages: Seq<ScreenStage>) -> bool {
    &&& stages.len() > 0
    &&& forall|i: int|
        0 <= i < stages.len() ==> is_share((#[trigger] stages[i]).rate)
            && stages[i].reject_margin.finite()
    &&& forall|i: int, j: int|
        #![trigger stages[i], stages[j]]
        0 <= i < j < stages.len() ==> stages[i].rate.below(stages[j].rate)
    &&& forall|i: int|
        0 <= i < stages.len() - 1 ==> (Measure { bits: 0 }).below(
            (#[trigger] stages[i]).reject_margin,
        )
}

/// What is wrong with a ladder.
#[derive(Clone, Copy, Debug, PartialEq, Eq, Structural)]
pub enum LadderError {
    /// There is no stage.
    Empty,
    /// A share does not lie between none and all.
    Rate {
        /// The stage.
        stage: usize,
        /// Its share.
        rate: Measure,
    },
    /// A share is not above that of the stage before.
    NotAscending {
        /// The stage.
        stage: usize,
        /// Its share.
        rate: Measure,
        /// The share before it.
        previous: Measure,
    },
    /// A margin is not a number.
    MarginNotFinite {
        /// The stage.
        stage: usize,
    },
    /// An early stage would reject a candidate that is level.
    MarginNotPositive {
        /// The stage.
        stage: usize,
    },
}

/// What is wrong with one stage, given those before it.
pub open spec fn stage_fault(stages: Seq<ScreenStage>, i: int) -> Option<LadderError> {
    let stage = stages[i];
    if !is_share(stage.rate) {
        Some(LadderError::Rate { stage: i as usize, rate: stage.rate })
    } else if i > 0 && stage.rate.at_most(stages[i - 1].rate) {
        Some(
            LadderError::NotAscending {
                stage: i as usize,
                rate: stage.rate,
                previous: stages[i - 1].rate,
            },
        )
    } else if !stage.reject_margin.finite() {
        Some(LadderError::MarginNotFinite { stage: i as usize })
    } else if i != stages.len() - 1 && stage.reject_margin.at_most(Measure { bits: 0 }) {
        Some(LadderError::MarginNotPositive { stage: i as usize })
    } else {
        None
    }
}

/// The first fault at or behind a stage.
pub open spec fn fault_from(stages: Seq<ScreenStage>, i: int) -> Option<LadderError>
    decreases stages.len() - i,
{
    if i < 0 || i >= stages.len() {
        None
    } else {
        match stage_fault(stages, i) {
            Some(fault) => Some(fault),
            None => fault_from(stages, i + 1),
        }
    }
}

/// The first thing that is wrong with a ladder.
pub open spec fn ladder_fault(stages: Seq<ScreenStage>) -> Option<LadderError> {
    if stages.len() == 0 {
        Some(LadderError::Empty)
    } else {
        fault_from(stages, 0)
    }
}

proof fn lemma_no_fault_from(stages: Seq<ScreenStage>, i: int)
    requires
        0 <= i <= stages.len(),
        fault_from(stages, i) is None,
    ensures
        forall|k: int| i <= k < stages.len() ==> #[trigger] stage_fault(stages, k) is None,
    decreases stages.len() - i,
{
    if i < stages.len() {
        lemma_no_fault_from(stages, i + 1);
    }
}

proof fn lemma_ascends(stages: Seq<ScreenStage>, i: int, j: int)
    requires
        0 <= i < j < stages.len(),
        forall|k: int| 0 <= k < stages.len() ==> #[trigger] stage_fault(stages, k) is None,
    ensures
        stages[i].rate.below(stages[j].rate),
    decreases j,
{
    assert(stage_fault(stages, j) is None);
    assert(stage_fault(stages, j - 1) is None);
    if i < j - 1 {
        lemma_ascends(stages, i, j - 1);
    }
}

/// A ladder without a fault is valid, and a valid one has no fault.
pub proof fn law_faultless_ladders_are_valid(stages: Seq<ScreenStage>)
    ensures
        ladder_fault(stages) is None <==> valid_ladder(stages),
{
    if ladder_fault(stages) is None {
        lemma_no_fault_from(stages, 0);
        assert forall|i: int| 0 <= i < stages.len() implies is_share(
            (#[trigger] stages[i]).rate,
        ) && stages[i].reject_margin.finite() by {
            assert(stage_fault(stages, i) is None);
        }
        assert forall|i: int, j: int|
            #![trigger stages[i], stages[j]]
            0 <= i < j < stages.len() implies stages[i].rate.below(stages[j].rate) by {
            lemma_ascends(stages, i, j);
        }
        assert forall|i: int| 0 <= i < stages.len() - 1 implies (Measure { bits: 0 }).below(
            (#[trigger] stages[i]).reject_margin,
        ) by {
            assert(stage_fault(stages, i) is None);
        }
    }
    if valid_ladder(stages) {
        lemma_valid_has_no_fault(stages, 0);
    }
}

proof fn lemma_valid_has_no_fault(stages: Seq<ScreenStage>, i: int)
    requires
        valid_ladder(stages),
        0 <= i <= stages.len(),
    ensures
        fault_from(stages, i) is None,
    decreases stages.len() - i,
{
    if i < stages.len() {
        assert(is_share(stages[i].rate));
        if i > 0 {
            assert(stages[i - 1].rate.below(stages[i].rate));
        }
        lemma_valid_has_no_fault(stages, i + 1);
    }
}

/// The stage of a fault, for its words.
pub open spec fn fault_text(
    error: LadderError,
    rate: Seq<char>,
    previous: Seq<char>,
) -> Seq<char> {
    match error {
        LadderError::Empty => "--screen-stages must name at least one stage"@,
        LadderError::Rate { stage, rate: _ } => "--screen-stages: stage "@ + decimal(stage as nat)
            + " rate "@ + rate + " must be in (0, 1)"@,
        LadderError::NotAscending { stage, rate: _, previous: _ } =>
        "--screen-stages: rates must strictly ascend; stage "@ + decimal(stage as nat) + " rate "@
            + rate + " follows "@ + previous,
        LadderError::MarginNotFinite { stage } => "--screen-stages: stage "@ + decimal(
            stage as nat,
        ) + " reject margin must be finite"@,
        LadderError::MarginNotPositive { stage } => "--screen-stages: stage "@ + decimal(
            stage as nat,
        )
            + " reject margin must be > 0 so a borderline candidate collects more evidence instead of being rejected early"@,
    }
}

impl LadderError {
    /// The fault in words; `rate` and `previous` are the shares as they are
    /// written.
    pub fn message(&self, rate: &str, previous: &str) -> (r: String)
        ensures
            r@ == fault_text(*self, rate@, previous@),
    {
        match self {
            LadderError::Empty => text_of("--screen-stages must name at least one stage"),
            LadderError::Rate { stage, .. } => {
                let number = decimal_text(*stage as u64);
                let mut out = text_of("--screen-stages: stage ");
                out.append(number.as_str());
                out.append(" rate ");
                out.append(rate);
                out.append(" must be in (0, 1)");
                out
            },
            LadderError::NotAscending { stage, .. } => {
                let number = decimal_text(*stage as u64);
                let mut out = text_of("--screen-stages: rates must strictly ascend; stage ");
                out.append(number.as_str());
                out.append(" rate ");
                out.append(rate);
                out.append(" follows ");
                out.append(previous);
                out
            },
            LadderError::MarginNotFinite { stage } => {
                let number = decimal_text(*stage as u64);
                let mut out = text_of("--screen-stages: stage ");
                out.append(number.as_str());
                out.append(" reject margin must be finite");
                out
            },
            LadderError::MarginNotPositive { stage } => {
                let number = decimal_text(*stage as u64);
                let mut out = text_of("--screen-stages: stage ");
                out.append(number.as_str());
                out.append(
                    " reject margin must be > 0 so a borderline candidate collects more evidence instead of being rejected early",
                );
                out
            },
        }
    }
}

/// The stages that a screen climbs.
#[derive(Debug)]
pub struct ScreenLadder {
    stages: Vec<ScreenStage>,
}

/// One stage as it is written.
#[derive(Debug)]
pub struct StageField {
    /// The share, as it is written.
    pub rate: String,
    /// The margin, if one is written.
    pub margin: Option<String>,
    /// Whether nothing is written.
    pub empty: bool,
}

/// The number that a text stands for, or why it stands for none.
pub type ParsedNumber = Result<Measure, String>;

/// The numbers of one stage.
#[derive(Debug)]
pub struct ParsedStage {
    /// The share.
    pub rate: ParsedNumber,
    /// The margin, if one is written.
    pub margin: Option<ParsedNumber>,
}

/// What is wrong with a written ladder.
#[derive(Debug)]
pub enum LadderParseError {
    /// Nothing is written for a stage.
    EmptyStage(usize),
    /// A share is no number.
    Rate {
        /// The stage.
        stage: usize,
        /// What is written.
        text: String,
        /// Why it is no number.
        error: String,
    },
    /// A margin is no number.
    Margin {
        /// The stage.
        stage: usize,
        /// What is written.
        text: String,
        /// Why it is no number.
        error: String,
    },
    /// The numbers make no ladder.
    Ladder(LadderError),
}

/// One field of a written ladder: a share, and behind a colon a margin.
pub open spec fn reads_field(field: StageField, written: Seq<char>) -> bool {
    let text = trimmed(written);
    &&& field.empty == (text.len() == 0)
    &&& if text.contains(':') {
        let at = first_place(text, ':');
        &&& field.rate@ == trimmed(text.take(at))
        &&& field.margin matches Some(margin) && margin@ == trimmed(text.skip(at + 1))
    } else {
        field.rate@ == text && field.margin is None
    }
}

/// Splits a written ladder into its stages.
pub fn stage_fields(spec: &str) -> (r: Vec<StageField>)
    ensures
        r@.len() == split_at_char(spec@, ',').len(),
        forall|i: int|
            0 <= i < r@.len() ==> reads_field(#[trigger] r@[i], split_at_char(spec@, ',')[i]),
        r@.len() > 0,
{
    let parts = split_text(spec, ',');
    let mut out: Vec<StageField> = Vec::new();
    let mut i: usize = 0;
    while i < parts.len()
        invariant
            i <= parts@.len(),
            texts(parts@) == split_at_char(spec@, ','),
            out@.len() == i,
            forall|k: int|
                0 <= k < i ==> reads_field(#[trigger] out@[k], split_at_char(spec@, ',')[k]),
        decreases parts.len() - i,
    {
        assert(texts(parts@)[i as int] == parts@[i as int]@);
        let text = trim_text(parts[i].as_str());
        let empty = text.is_empty();
        let field = match split_once_text(text, ':') {
            Some((rate, margin)) => StageField {
                rate: text_of(trim_text(rate.as_str())),
                margin: Some(text_of(trim_text(margin.as_str()))),
                empty,
            },
            None => StageField { rate: text_of(text), margin: None, empty },
        };
        out.push(field);
        i += 1;
    }
    assert(texts(parts@).len() == parts@.len());
    out
}

/// There is a parsed stage for each field, with a margin exactly where the field
/// has one.
pub open spec fn reads_fields(fields: Seq<StageField>, parsed: Seq<ParsedStage>) -> bool {
    &&& parsed.len() == fields.len()
    &&& forall|i: int|
        0 <= i < fields.len() ==> (#[trigger] parsed[i]).margin is Some <==> fields[i].margin
            is Some
}

/// What one parsed field comes to.
pub open spec fn field_fault(
    fields: Seq<StageField>,
    parsed: Seq<ParsedStage>,
    i: int,
) -> bool {
    ||| fields[i].empty
    ||| parsed[i].rate is Err
    ||| parsed[i].margin matches Some(Err(_))
}

/// The stages that parsed fields describe.
pub open spec fn parsed_stages(
    fields: Seq<StageField>,
    parsed: Seq<ParsedStage>,
    default_margin: Measure,
) -> Seq<ScreenStage> {
    Seq::new(
        fields.len(),
        |i: int|
            ScreenStage {
                rate: parsed[i].rate->Ok_0,
                reject_margin: match parsed[i].margin {
                    Some(margin) => margin->Ok_0,
                    None => default_margin,
                },
            },
    )
}

impl ScreenLadder {
    #[verifier::type_invariant]
    spec fn holds_valid_stages(self) -> bool {
        valid_ladder(self.stages@)
    }

    /// The stages of the ladder, smallest share first.
    pub closed spec fn rungs(self) -> Seq<ScreenStage> {
        self.stages@
    }

    /// A ladder of the given stages.
    pub fn new(stages: Vec<ScreenStage>) -> (r: Result<ScreenLadder, LadderError>)
        ensures
            match r {
                Ok(ladder) => ladder_fault(stages@) is None && ladder.rungs() == stages@,
                Err(error) => ladder_fault(stages@) == Some(error),
            },
    {
        if stages.len() == 0 {
            return Err(LadderError::Empty);
        }
        let last: usize = stages.len() - 1;
        let mut i: usize = 0;
        while i < stages.len()
            invariant
                stages@.len() > 0,
                last == stages@.len() - 1,
                i <= stages@.len(),
                fault_from(stages@, 0) == fault_from(stages@, i as int),
            decreases stages.len() - i,
        {
            let stage = stages[i];
            if !(Measure::zero().lt(stage.rate) && stage.rate.lt(Measure::one())) {
                return Err(LadderError::Rate { stage: i, rate: stage.rate });
            }
            if i > 0 {
                let previous = stages[i - 1].rate;
                if stage.rate.le(previous) {
                    return Err(LadderError::NotAscending { stage: i, rate: stage.rate, previous });
                }
            }
            if !stage.reject_margin.is_finite() {
                return Err(LadderError::MarginNotFinite { stage: i });
            }
            if i != last && stage.reject_margin.le(Measure::zero()) {
                return Err(LadderError::MarginNotPositive { stage: i });
            }
            i += 1;
        }
        proof {
            law_faultless_ladders_are_valid(stages@);
        }
        Ok(ScreenLadder { stages })
    }

    /// A ladder of one stage, which rejects whatever is not ahead.
    pub fn single(rate: Measure) -> (r: Result<ScreenLadder, LadderError>)
        ensures
            match r {
                Ok(ladder) => is_share(rate) && ladder.rungs() == seq![
                    ScreenStage { rate, reject_margin: Measure { bits: 0 } },
                ],
                Err(error) => !is_share(rate) && error == (LadderError::Rate { stage: 0, rate }),
            },
    {
        let mut stages: Vec<ScreenStage> = Vec::new();
        stages.push(ScreenStage { rate, reject_margin: Measure::zero() });
        assert(stages@ =~= seq![ScreenStage { rate, reject_margin: Measure { bits: 0 } }]);
        proof {
            reveal_with_fuel(fault_from, 2);
        }
        ScreenLadder::new(stages)
    }

    /// The ladder that parsed fields describe. The first field that cannot be
    /// read is reported before anything is said of the numbers.
    pub fn parse(
        fields: &Vec<StageField>,
        parsed: &Vec<ParsedStage>,
        default_margin: Measure,
    ) -> (r: Result<ScreenLadder, LadderParseError>)
        requires
            reads_fields(fields@, parsed@),
        ensures
            match r {
                Ok(ladder) => {
                    &&& forall|i: int|
                        0 <= i < fields@.len() ==> !#[trigger] field_fault(fields@, parsed@, i)
                    &&& ladder.rungs() == parsed_stages(fields@, parsed@, default_margin)
                    &&& ladder_fault(ladder.rungs()) is None
                },
                Err(LadderParseError::Ladder(error)) => {
                    &&& forall|i: int|
                        0 <= i < fields@.len() ==> !#[trigger] field_fault(fields@, parsed@, i)
                    &&& ladder_fault(parsed_stages(fields@, parsed@, default_margin)) == Some(
                        error,
                    )
                },
                Err(error) => exists|i: int|
                    {
                        &&& 0 <= i < fields@.len()
                        &&& #[trigger] field_fault(fields@, parsed@, i)
                        &&& forall|k: int|
                            0 <= k < i ==> !#[trigger] field_fault(fields@, parsed@, k)
                        &&& tells_fault(error, fields@[i], parsed@[i], i)
                    },
            },
    {
        let mut stages: Vec<ScreenStage> = Vec::new();
        let mut i: usize = 0;
        while i < fields.len()
            invariant
                reads_fields(fields@, parsed@),
                i <= fields@.len(),
                forall|k: int| 0 <= k < i ==> !#[trigger] field_fault(fields@, parsed@, k),
                stages@ == parsed_stages(fields@, parsed@, default_margin).take(i as int),
            decreases fields.len() - i,
        {
            if fields[i].empty {
                assert(field_fault(fields@, parsed@, i as int));
                return Err(LadderParseError::EmptyStage(i));
            }
            let rate = match &parsed[i].rate {
                Ok(rate) => *rate,
                Err(error) => {
                    assert(field_fault(fields@, parsed@, i as int));
                    return Err(
                        LadderParseError::Rate {
                            stage: i,
                            text: fields[i].rate.clone(),
                            error: error.clone(),
                        },
                    );
                },
            };
            let reject_margin = match (&fields[i].margin, &parsed[i].margin) {
                (Some(text), Some(Err(error))) => {
                    assert(field_fault(fields@, parsed@, i as int));
                    return Err(
                        LadderParseError::Margin {
                            stage: i,
                            text: text.clone(),
                            error: error.clone(),
                        },
                    );
                },
                (Some(_), Some(Ok(margin))) => *margin,
                _ => default_margin,
            };
            assert(parsed@[i as int].margin is Some <==> fields@[i as int].margin is Some);
            assert(!field_fault(fields@, parsed@, i as int));
            stages.push(ScreenStage { rate, reject_margin });
            i += 1;
            assert(stages@ =~= parsed_stages(fields@, parsed@, default_margin).take(i as int));
        }
        assert(parsed_stages(fields@, parsed@, default_margin).take(i as int) =~= parsed_stages(
            fields@,
            parsed@,
            default_margin,
        ));
        match ScreenLadder::new(stages) {
            Ok(ladder) => Ok(ladder),
            Err(error) => Err(LadderParseError::Ladder(error)),
        }
    }

    /// The stages, smallest share first.
    pub fn stages(&self) -> (r: &Vec<ScreenStage>)
        ensures
            r@ == self.rungs(),
            valid_ladder(r@),
    {
        proof {
            use_type_invariant(self);
        }
        &self.stages
    }

    /// Whether there is more than one stage.
    pub fn is_progressive(&self) -> (r: bool)
        ensures
            r == (self.rungs().len() > 1),
    {
        self.stages.len() > 1
    }

    /// The share of the last stage, whose winners are scored in full.
    pub fn promotion_rate(&self) -> (r: Measure)
        ensures
            self.rungs().len() > 0,
            r == self.rungs().last().rate,
    {
        proof {
            use_type_invariant(self);
        }
        self.stages[self.stages.len() - 1].rate
    }

    /// Which sample a stage of a batch draws.
    pub fn phase(&self, batch: u64, stage: usize) -> (r: u64)
        ensures
            r as int == stage_phase(batch as int, self.rungs().len() as int, stage as int),
    {
        let len: u64 = self.stages.len() as u64;
        let scaled: u64 = batch.wrapping_mul(len);
        let r: u64 = scaled.wrapping_add(stage as u64);
        proof {
            vstd::arithmetic::div_mod::lemma_add_mod_noop(
                batch * len,
                stage as int,
                0x1_0000_0000_0000_0000,
            );
            vstd::arithmetic::div_mod::lemma_small_mod(stage as nat, 0x1_0000_0000_0000_0000);
        }
        r
    }

    /// The directory of a stage under that of its batch; none of its own where
    /// there is only one stage.
    pub fn stage_dir(&self, stage: usize) -> (r: Option<String>)
        ensures
            match r {
                Some(name) => self.rungs().len() > 1 && name@ == "s"@ + decimal(stage as nat),
                None => self.rungs().len() <= 1,
            },
    {
        if self.is_progressive() {
            let number = decimal_text(stage as u64);
            let mut name = text_of("s");
            name.append(number.as_str());
            Some(name)
        } else {
            None
        }
    }
}

/// An error that says what is wrong with a field.
pub open spec fn tells_fault(
    error: LadderParseError,
    field: StageField,
    parsed: ParsedStage,
    i: int,
) -> bool {
    if field.empty {
        error == LadderParseError::EmptyStage(i as usize)
    } else {
        match parsed.rate {
            Err(why) => error matches LadderParseError::Rate { stage, text, error: e } && stage
                == i && text == field.rate && e == why,
            Ok(_) => error matches LadderParseError::Margin { stage, text, error: e } && stage == i
                && field.margin == Some(text) && parsed.margin == Some(Err::<Measure, String>(e)),
        }
    }
}

/// Which sample a stage of a batch draws, as the numbers wrap.
pub open spec fn stage_phase(batch: int, stages: int, stage: int) -> int {
    (batch * stages + stage) % 0x1_0000_0000_0000_0000
}

/// No two stages draw the same sample, within a batch or across batches, as
/// long as the numbers do not wrap.
pub proof fn law_phases_are_distinct(b: int, c: int, stages: int, i: int, j: int)
    requires
        0 <= b,
        0 <= c,
        0 <= i < stages,
        0 <= j < stages,
        b * stages + i < 0x1_0000_0000_0000_0000,
        c * stages + j < 0x1_0000_0000_0000_0000,
        stage_phase(b, stages, i) == stage_phase(c, stages, j),
    ensures
        b == c,
        i == j,
{
    assert(b * stages >= 0) by (nonlinear_arith)
        requires
            0 <= b,
            0 <= stages,
    ;
    assert(c * stages >= 0) by (nonlinear_arith)
        requires
            0 <= c,
            0 <= stages,
    ;
    vstd::arithmetic::div_mod::lemma_small_mod((b * stages + i) as nat, 0x1_0000_0000_0000_0000);
    vstd::arithmetic::div_mod::lemma_small_mod((c * stages + j) as nat, 0x1_0000_0000_0000_0000);
    assert(b * stages + i == c * stages + j);
    assert(b == c) by (nonlinear_arith)
        requires
            b * stages + i == c * stages + j,
            0 <= i < stages,
            0 <= j < stages,
    ;
}

/// The words of a fault in a written ladder; a fault of the numbers has the
/// words of its own.
pub open spec fn parse_fault_text(
    error: LadderParseError,
    rate: Seq<char>,
    previous: Seq<char>,
) -> Seq<char> {
    match error {
        LadderParseError::EmptyStage(stage) => "--screen-stages: stage "@ + decimal(stage as nat)
            + " is empty"@,
        LadderParseError::Rate { stage, text, error: why } => "--screen-stages: stage "@ + decimal(
            stage as nat,
        ) + " rate `"@ + text@ + "`: "@ + why@,
        LadderParseError::Margin { stage, text, error: why } => "--screen-stages: stage "@
            + decimal(stage as nat) + " margin `"@ + text@ + "`: "@ + why@,
        LadderParseError::Ladder(fault) => fault_text(fault, rate, previous),
    }
}

impl LadderParseError {
    /// The fault in words; `rate` and `previous` are the shares as they are
    /// written.
    pub fn message(&self, rate: &str, previous: &str) -> (r: String)
        ensures
            r@ == parse_fault_text(*self, rate@, previous@),
    {
        match self {
            LadderParseError::EmptyStage(stage) => {
                let number = decimal_text(*stage as u64);
                let mut out = text_of("--screen-stages: stage ");
                out.append(number.as_str());
                out.append(" is empty");
                out
            },
            LadderParseError::Rate { stage, text, error } => {
                let number = decimal_text(*stage as u64);
                let mut out = text_of("--screen-stages: stage ");
                out.append(number.as_str());
                out.append(" rate `");
                out.append(text.as_str());
                out.append("`: ");
                out.append(error.as_str());
                out
            },
            LadderParseError::Margin { stage, text, error } => {
                let number = decimal_text(*stage as u64);
                let mut out = text_of("--screen-stages: stage ");
                out.append(number.as_str());
                out.append(" margin `");
                out.append(text.as_str());
                out.append("`: ");
                out.append(error.as_str());
                out
            },
            LadderParseError::Ladder(fault) => fault.message(rate, previous),
        }
    }
}

/// How a stage ended for those that passed it.
#[derive(Clone, Copy, Debug, PartialEq, Eq, Structural)]
pub enum StageEnd {
    /// They were carried to the next stage.
    Carried,
    /// They were promoted to full scoring.
    Promoted,
}

impl StageEnd {
    /// The end in a word.
    pub fn label(self) -> (r: &'static str)
        ensures
            r@ == if self == StageEnd::Promoted {
                "promoted"@
            } else {
                "carried"@
            },
    {
        match self {
            StageEnd::Carried => "carried",
            StageEnd::Promoted => "promoted",
        }
    }
}

/// What one stage did.
#[derive(Clone, Copy, Debug, PartialEq, Eq, Structural)]
pub struct StageRecord {
    /// The stage.
    pub stage: usize,
    /// Its share of the corpus.
    pub rate: Measure,
    /// Which sample it drew.
    pub phase: u64,
    /// Candidates that entered.
    pub entered: usize,
    /// Candidates that it dropped.
    pub rejected: usize,
    /// Candidates that passed.
    pub promoted: usize,
    /// Records that it scored.
    pub records_scored: u64,
    /// The incumbent's score on the sample.
    pub baseline_score: Measure,
    /// The mean gain over all candidates.
    pub mean_delta: Measure,
    /// How long it took.
    pub ms: u64,
    /// How it ended for those that passed.
    pub outcome: StageEnd,
}

/// What a whole screen did.
#[derive(Debug)]
pub struct ProgressiveScreen {
    /// Candidates that passed the last stage.
    pub winners: Vec<SampledWinner>,
    /// Candidates that a stage dropped.
    pub losers: Vec<ScreenedLoser>,
    /// The stages that ran.
    pub stages: Vec<StageRecord>,
    /// The incumbent's score on the last sample, if a stage ran.
    pub baseline_score: Option<Measure>,
    /// How long all stages took.
    pub screen_ms: u64,
}

/// The records that the stages scored.
pub open spec fn total_records(stages: Seq<StageRecord>) -> int
    decreases stages.len(),
{
    if stages.len() == 0 {
        0
    } else {
        total_records(stages.drop_last()) + stages.last().records_scored
    }
}

/// How many losers were dropped for a reason.
pub open spec fn rejected_for(losers: Seq<ScreenedLoser>, reason: ScreenRejection) -> nat
    decreases losers.len(),
{
    if losers.len() == 0 {
        0
    } else {
        rejected_for(losers.drop_last(), reason) + if losers.last().reason == reason {
            1nat
        } else {
            0nat
        }
    }
}

proof fn lemma_total_grows(stages: Seq<StageRecord>, n: int)
    requires
        0 <= n <= stages.len(),
    ensures
        0 <= total_records(stages.take(n)) <= total_records(stages),
    decreases stages.len(),
{
    if n == stages.len() {
        assert(stages.take(n) =~= stages);
        if n > 0 {
            lemma_total_grows(stages.drop_last(), n - 1);
        }
    } else {
        lemma_total_grows(stages.drop_last(), n);
        assert(stages.drop_last().take(n) =~= stages.take(n));
    }
}

impl ProgressiveScreen {
    /// The records that all stages scored.
    pub fn records_scored(&self) -> (r: u64)
        requires
            total_records(self.stages@) <= u64::MAX,
        ensures
            r == total_records(self.stages@),
    {
        let mut sum: u64 = 0;
        let mut i: usize = 0;
        while i < self.stages.len()
            invariant
                total_records(self.stages@) <= u64::MAX,
                i <= self.stages@.len(),
                sum == total_records(self.stages@.take(i as int)),
            decreases self.stages.len() - i,
        {
            proof {
                assert(self.stages@.take(i + 1).drop_last() =~= self.stages@.take(i as int));
                lemma_total_grows(self.stages@, i + 1);
            }
            sum += self.stages[i].records_scored;
            i += 1;
        }
        assert(self.stages@.take(i as int) =~= self.stages@);
        sum
    }

    /// How many losers were clearly worse, and how many below the threshold.
    pub fn rejection_tally(&self) -> (r: (usize, usize))
        ensures
            r.0 == rejected_for(self.losers@, ScreenRejection::ClearlyWorse),
            r.1 == rejected_for(self.losers@, ScreenRejection::BelowThreshold),
            r.0 + r.1 == self.losers@.len(),
    {
        let mut worse: usize = 0;
        let mut below: usize = 0;
        let mut i: usize = 0;
        while i < self.losers.len()
            invariant
                i <= self.losers@.len(),
                worse == rejected_for(
                    self.losers@.take(i as int),
                    ScreenRejection::ClearlyWorse,
                ),
                below == rejected_for(
                    self.losers@.take(i as int),
                    ScreenRejection::BelowThreshold,
                ),
                worse + below == i,
            decreases self.losers.len() - i,
        {
            assert(self.losers@.take(i + 1).drop_last() =~= self.losers@.take(i as int));
            if self.losers[i].reason == ScreenRejection::ClearlyWorse {
                worse += 1;
            } else {
                below += 1;
            }
            i += 1;
        }
        assert(self.losers@.take(i as int) =~= self.losers@);
        (worse, below)
    }
}

/// What scoring one stage came to.
#[derive(Debug)]
pub struct StageOutcome {
    /// Candidates ahead of the stage's threshold.
    pub winners: Vec<SampledWinner>,
    /// The other candidates.
    pub losers: Vec<ScreenedLoser>,
    /// The incumbent's score on the sample.
    pub baseline_score: Measure,
    /// The mean gain over all candidates.
    pub mean_delta: Measure,
    /// Records that were scored.
    pub records_scored: u64,
    /// How long it took.
    pub screen_ms: u64,
}

/// What the next stage is asked to do.
#[derive(Clone, Copy, Debug, PartialEq, Eq, Structural)]
pub struct StageRequest {
    /// The stage.
    pub stage: usize,
    /// Its share of the corpus.
    pub rate: Measure,
    /// Which sample it draws.
    pub phase: u64,
    /// What a candidate must be ahead by.
    pub threshold: Measure,
}

/// A screen on its way up the ladder.
#[derive(Debug)]
pub struct Screening {
    /// The stage that comes next.
    pub stage: usize,
    /// Candidates that are still in the race.
    pub survivors: Vec<SweepCandidate>,
    /// What happened so far.
    pub screen: ProgressiveScreen,
}

/// The candidates of winners, in order.
pub open spec fn carried(winners: Seq<SampledWinner>) -> Seq<SweepCandidate> {
    Seq::new(winners.len(), |i: int| winners[i].candidate)
}

/// A loser of a stage: an early stage drops what is clearly worse.
pub open spec fn dropped_at(loser: ScreenedLoser, stage: usize, last: bool) -> ScreenedLoser {
    ScreenedLoser {
        uuid: loser.uuid,
        kind: loser.kind,
        delta: loser.delta,
        stage,
        reason: if last {
            loser.reason
        } else {
            ScreenRejection::ClearlyWorse
        },
    }
}

/// The losers of a stage, in order.
pub open spec fn all_dropped_at(
    losers: Seq<ScreenedLoser>,
    stage: usize,
    last: bool,
) -> Seq<ScreenedLoser> {
    Seq::new(losers.len(), |i: int| dropped_at(losers[i], stage, last))
}

fn candidates_of(winners: Vec<SampledWinner>) -> (r: Vec<SweepCandidate>)
    ensures
        r@ == carried(winners@),
{
    let ghost all = winners@;
    let mut rest = reversed(winners);
    let mut out: Vec<SweepCandidate> = Vec::new();
    while rest.len() > 0
        invariant
            rest@.len() + out@.len() == all.len(),
            forall|k: int| 0 <= k < rest@.len() ==> rest@[k] == all[all.len() - 1 - k],
            out@ == carried(all).take(out@.len() as int),
        decreases rest.len(),
    {
        let ghost before = out@;
        match rest.pop() {
            Some(winner) => {
                out.push(winner.candidate);
                assert(out@ =~= carried(all).take(out@.len() as int));
            },
            None => {},
        }
    }
    assert(carried(all).take(out@.len() as int) =~= carried(all));
    out
}

fn add_losers(to: &mut Vec<ScreenedLoser>, losers: Vec<ScreenedLoser>, stage: usize, last: bool)
    ensures
        final(to)@ == old(to)@ + all_dropped_at(losers@, stage, last),
{
    let ghost all = losers@;
    let ghost marked = all_dropped_at(all, stage, last);
    let ghost before = to@;
    let mut rest = reversed(losers);
    assert(before + marked.take(0) =~= before);
    while rest.len() > 0
        invariant
            marked == all_dropped_at(all, stage, last),
            rest@.len() <= all.len(),
            forall|k: int| 0 <= k < rest@.len() ==> rest@[k] == all[all.len() - 1 - k],
            to@ == before + marked.take(all.len() - rest@.len()),
        decreases rest.len(),
    {
        let ghost at = all.len() - rest@.len();
        match rest.pop() {
            Some(loser) => {
                let reason = if last {
                    loser.reason
                } else {
                    ScreenRejection::ClearlyWorse
                };
                to.push(
                    ScreenedLoser {
                        uuid: loser.uuid,
                        kind: loser.kind,
                        delta: loser.delta,
                        stage,
                        reason,
                    },
                );
                assert(to@ =~= before + marked.take(at + 1));
            },
            None => {},
        }
    }
    assert(marked.take(all.len() as int) =~= marked);
}

/// The candidate is ahead by more than the stage asks for.
pub open spec fn passes_stage(delta: Measure, request: StageRequest) -> bool {
    request.threshold.below(delta)
}

/// The candidates that pass a stage, in order, with their scores.
pub open spec fn stage_winners(
    candidates: Seq<SweepCandidate>,
    scores: Seq<Measure>,
    deltas: Seq<Measure>,
    baseline: Measure,
    request: StageRequest,
) -> Seq<SampledWinner>
    decreases candidates.len(),
{
    if candidates.len() == 0 {
        Seq::empty()
    } else {
        let last = candidates.len() - 1;
        let before = stage_winners(candidates.drop_last(), scores, deltas, baseline, request);
        if passes_stage(deltas[last], request) {
            before.push(
                SampledWinner {
                    candidate: candidates[last],
                    score: scores[last],
                    baseline_score: baseline,
                    delta: deltas[last],
                },
            )
        } else {
            before
        }
    }
}

/// The candidates that do not, in order.
pub open spec fn stage_losers(
    candidates: Seq<SweepCandidate>,
    deltas: Seq<Measure>,
    request: StageRequest,
) -> Seq<ScreenedLoser>
    decreases candidates.len(),
{
    if candidates.len() == 0 {
        Seq::empty()
    } else {
        let last = candidates.len() - 1;
        let before = stage_losers(candidates.drop_last(), deltas, request);
        if passes_stage(deltas[last], request) {
            before
        } else {
            before.push(
                ScreenedLoser {
                    uuid: candidates[last].uuid,
                    kind: candidates[last].kind,
                    delta: deltas[last],
                    stage: request.stage,
                    reason: ScreenRejection::BelowThreshold,
                },
            )
        }
    }
}

/// Splits the candidates of a stage by how far each is ahead of the
/// incumbent's score on the same sample.
pub fn split_batch(
    candidates: Vec<SweepCandidate>,
    scores: &Vec<Measure>,
    deltas: &Vec<Measure>,
    baseline: Measure,
    request: &StageRequest,
) -> (r: (Vec<SampledWinner>, Vec<ScreenedLoser>))
    requires
        scores@.len() == candidates@.len(),
        deltas@.len() == candidates@.len(),
    ensures
        r.0@ == stage_winners(candidates@, scores@, deltas@, baseline, *request),
        r.1@ == stage_losers(candidates@, deltas@, *request),
        r.0@.len() + r.1@.len() == candidates@.len(),
{
    let ghost all = candidates@;
    let n: usize = candidates.len();
    let mut rest = reversed(candidates);
    let mut winners: Vec<SampledWinner> = Vec::new();
    let mut losers: Vec<ScreenedLoser> = Vec::new();
    let mut i: usize = 0;
    assert(all.take(0) =~= Seq::empty());
    while rest.len() > 0
        invariant
            i + rest@.len() == n,
            n == all.len(),
            scores@.len() == all.len(),
            deltas@.len() == all.len(),
            forall|k: int| 0 <= k < rest@.len() ==> rest@[k] == all[all.len() - 1 - k],
            winners@ == stage_winners(all.take(i as int), scores@, deltas@, baseline, *request),
            losers@ == stage_losers(all.take(i as int), deltas@, *request),
            winners@.len() + losers@.len() == i,
        decreases rest.len(),
    {
        match rest.pop() {
            Some(candidate) => {
                proof {
                    assert(candidate == all[i as int]);
                    assert(all.take(i + 1).drop_last() =~= all.take(i as int));
                    assert(all.take(i + 1)[i as int] == candidate);
                }
                if request.threshold.lt(deltas[i]) {
                    winners.push(
                        SampledWinner {
                            candidate,
                            score: scores[i],
                            baseline_score: baseline,
                            delta: deltas[i],
                        },
                    );
                } else {
                    losers.push(
                        ScreenedLoser {
                            uuid: candidate.uuid,
                            kind: candidate.kind,
                            delta: deltas[i],
                            stage: request.stage,
                            reason: ScreenRejection::BelowThreshold,
                        },
                    );
                }
                i += 1;
            },
            None => {},
        }
    }
    assert(all.take(i as int) =~= all);
    (winners, losers)
}

impl Screening {
    /// A screen before its first stage.
    pub fn start(candidates: Vec<SweepCandidate>) -> (r: Screening)
        ensures
            r.stage == 0,
            r.survivors == candidates,
            r.screen.winners@.len() == 0,
            r.screen.losers@.len() == 0,
            r.screen.stages@.len() == 0,
            r.screen.baseline_score is None,
            r.screen.screen_ms == 0,
    {
        Screening {
            stage: 0,
            survivors: candidates,
            screen: ProgressiveScreen {
                winners: Vec::new(),
                losers: Vec::new(),
                stages: Vec::new(),
                baseline_score: None,
                screen_ms: 0,
            },
        }
    }

    /// What is asked for next: nothing where no stage or no candidate is left.
    pub open spec fn asks(
        self,
        rungs: Seq<ScreenStage>,
        threshold: Measure,
        batch: u64,
        r: Option<StageRequest>,
    ) -> bool {
        if self.stage >= rungs.len() || self.survivors@.len() == 0 {
            r is None
        } else {
            r == Some(
                StageRequest {
                    stage: self.stage,
                    rate: rungs[self.stage as int].rate,
                    phase: stage_phase(
                        batch as int,
                        rungs.len() as int,
                        self.stage as int,
                    ) as u64,
                    threshold: if self.stage == rungs.len() - 1 {
                        threshold
                    } else {
                        rungs[self.stage as int].reject_margin.opposite()
                    },
                },
            )
        }
    }

    /// What the next stage is asked to do; nothing where no stage or no
    /// candidate is left. An early stage lets through whatever is behind by no
    /// more than its margin; only the last one holds candidates to the
    /// threshold.
    pub fn request(&self, ladder: &ScreenLadder, threshold: Measure, batch: u64) -> (r: Option<
        StageRequest,
    >)
        ensures
            match r {
                Some(request) => {
                    let rungs = ladder.rungs();
                    &&& self.stage < rungs.len()
                    &&& self.survivors@.len() > 0
                    &&& request.stage == self.stage
                    &&& request.rate == rungs[self.stage as int].rate
                    &&& request.phase as int == stage_phase(
                        batch as int,
                        rungs.len() as int,
                        self.stage as int,
                    )
                    &&& request.threshold == if self.stage == rungs.len() - 1 {
                        threshold
                    } else {
                        rungs[self.stage as int].reject_margin.opposite()
                    }
                },
                None => self.stage >= ladder.rungs().len() || self.survivors@.len() == 0,
            },
            self.asks(ladder.rungs(), threshold, batch, r),
    {
        let stages = ladder.stages();
        if self.stage >= stages.len() || self.survivors.len() == 0 {
            return None;
        }
        let stage = stages[self.stage];
        let asked = if self.stage == stages.len() - 1 {
            threshold
        } else {
            stage.reject_margin.negated()
        };
        Some(
            StageRequest {
                stage: self.stage,
                rate: stage.rate,
                phase: ladder.phase(batch, self.stage),
                threshold: asked,
            },
        )
    }

    /// `after` is this with the outcome of its stage taken in.
    pub open spec fn observed(
        self,
        rungs: Seq<ScreenStage>,
        batch: u64,
        outcome: StageOutcome,
        after: Screening,
    ) -> bool {
        let at = self.stage;
        let last = at == rungs.len() - 1;
        &&& after.stage == at + 1
        &&& after.screen.losers@ == self.screen.losers@ + all_dropped_at(
            outcome.losers@,
            at,
            last,
        )
        &&& after.screen.winners@ == if last {
            outcome.winners@
        } else {
            self.screen.winners@
        }
        &&& after.survivors@ == if last {
            Seq::empty()
        } else {
            carried(outcome.winners@)
        }
        &&& after.screen.baseline_score == Some(outcome.baseline_score)
        &&& after.screen.screen_ms == if self.screen.screen_ms + outcome.screen_ms <= u64::MAX {
            (self.screen.screen_ms + outcome.screen_ms) as u64
        } else {
            u64::MAX
        }
        &&& after.screen.stages@.len() == self.screen.stages@.len() + 1
        &&& after.screen.stages@.drop_last() == self.screen.stages@
        &&& records_stage(
            after.screen.stages@.last(),
            rungs,
            at,
            batch,
            self.survivors@.len(),
            outcome,
        )
    }

    /// The screen accounts for the candidates that it was given: those at the
    /// places `live` are in the race or were promoted, those at the places
    /// `out` were dropped, each in that order; and only the last stage
    /// promotes.
    pub open spec fn accounts_for(
        self,
        candidates: Seq<SweepCandidate>,
        stages: nat,
        live: Seq<int>,
        out: Seq<int>,
    ) -> bool {
        &&& self.stage <= stages
        &&& self.stage < stages ==> self.screen.winners@.len() == 0
        &&& self.stage == stages ==> self.survivors@.len() == 0
        &&& parts(live, out, candidates.len())
        &&& stands_at(self.survivors@ + carried(self.screen.winners@), candidates, live)
        &&& dropped_from(self.screen.losers@, candidates, out)
    }

    /// Takes in what a stage came to: its losers are out for good, and its
    /// winners go on, to full scoring after the last stage.
    pub fn observe(&mut self, ladder: &ScreenLadder, batch: u64, outcome: StageOutcome)
        requires
            old(self).stage < ladder.rungs().len(),
        ensures
            old(self).observed(ladder.rungs(), batch, outcome, *final(self)),
    {
        let stages = ladder.stages();
        let at: usize = self.stage;
        let last = at == stages.len() - 1;
        let entered: usize = self.survivors.len();
        let record = StageRecord {
            stage: at,
            rate: stages[at].rate,
            phase: ladder.phase(batch, at),
            entered,
            rejected: outcome.losers.len(),
            promoted: outcome.winners.len(),
            records_scored: outcome.records_scored,
            baseline_score: outcome.baseline_score,
            mean_delta: if entered == 0 {
                Measure::zero()
            } else {
                outcome.mean_delta
            },
            ms: outcome.screen_ms,
            outcome: if last {
                StageEnd::Promoted
            } else {
                StageEnd::Carried
            },
        };
        let ghost recorded = self.screen.stages@;
        self.screen.screen_ms = self.screen.screen_ms.saturating_add(outcome.screen_ms);
        self.screen.baseline_score = Some(outcome.baseline_score);
        self.screen.stages.push(record);
        assert(self.screen.stages@.drop_last() =~= recorded);
        add_losers(&mut self.screen.losers, outcome.losers, at, last);
        if last {
            self.screen.winners = outcome.winners;
            self.survivors = Vec::new();
        } else {
            self.survivors = candidates_of(outcome.winners);
        }
        self.stage = at + 1;
    }
}

/// The record that a stage leaves.
pub open spec fn records_stage(
    record: StageRecord,
    rungs: Seq<ScreenStage>,
    at: usize,
    batch: u64,
    entered: nat,
    outcome: StageOutcome,
) -> bool {
    &&& record.stage == at
    &&& record.rate == rungs[at as int].rate
    &&& record.phase as int == stage_phase(batch as int, rungs.len() as int, at as int)
    &&& record.entered == entered
    &&& record.rejected == outcome.losers@.len()
    &&& record.promoted == outcome.winners@.len()
    &&& record.records_scored == outcome.records_scored
    &&& record.baseline_score == outcome.baseline_score
    &&& record.mean_delta == if entered == 0 {
        Measure { bits: 0 }
    } else {
        outcome.mean_delta
    }
    &&& record.ms == outcome.screen_ms
    &&& record.outcome == if at == rungs.len() - 1 {
        StageEnd::Promoted
    } else {
        StageEnd::Carried
    }
}

/// Each of `n` places is in exactly one of the two lists, once.
pub open spec fn parts(live: Seq<int>, out: Seq<int>, n: nat) -> bool {
    &&& live.no_duplicates()
    &&& out.no_duplicates()
    &&& forall|p: int| #[trigger] live.contains(p) ==> 0 <= p < n && !out.contains(p)
    &&& forall|p: int| #[trigger] out.contains(p) ==> 0 <= p < n && !live.contains(p)
    &&& forall|p: int|
        #![trigger live.contains(p)]
        #![trigger out.contains(p)]
        0 <= p < n ==> live.contains(p) || out.contains(p)
}

/// The list holds the candidates at those places, in that order.
pub open spec fn stands_at(
    list: Seq<SweepCandidate>,
    candidates: Seq<SweepCandidate>,
    places: Seq<int>,
) -> bool {
    &&& list.len() == places.len()
    &&& forall|i: int| 0 <= i < list.len() ==> #[trigger] list[i] == candidates[places[i]]
}

/// The losers are the candidates at those places, in that order.
pub open spec fn dropped_from(
    losers: Seq<ScreenedLoser>,
    candidates: Seq<SweepCandidate>,
    places: Seq<int>,
) -> bool {
    &&& losers.len() == places.len()
    &&& forall|i: int|
        0 <= i < losers.len() ==> (#[trigger] losers[i]).uuid == candidates[places[i]].uuid
            && losers[i].kind == candidates[places[i]].kind
}

/// Of the first `n` candidates of a stage, the places of those that pass, or of
/// those that do not.
pub open spec fn split_places(n: int, deltas: Seq<Measure>, request: StageRequest, pass: bool)
    -> Seq<int>
    decreases n,
{
    if n <= 0 {
        Seq::empty()
    } else {
        let before = split_places(n - 1, deltas, request, pass);
        if passes_stage(deltas[n - 1], request) == pass {
            before.push(n - 1)
        } else {
            before
        }
    }
}

/// What stands at those places of a list of places.
pub open spec fn picked(live: Seq<int>, places: Seq<int>) -> Seq<int> {
    Seq::new(places.len(), |i: int| live[places[i]])
}

proof fn lemma_split_places(n: int, deltas: Seq<Measure>, request: StageRequest, pass: bool)
    requires
        0 <= n,
    ensures
        split_places(n, deltas, request, pass).no_duplicates(),
        forall|p: int| #[trigger]
            split_places(n, deltas, request, pass).contains(p) <==> 0 <= p < n && passes_stage(
                deltas[p],
                request,
            ) == pass,
    decreases n,
{
    let after = split_places(n, deltas, request, pass);
    if n > 0 {
        lemma_split_places(n - 1, deltas, request, pass);
        let before = split_places(n - 1, deltas, request, pass);
        assert forall|p: int| #[trigger] after.contains(p) <==> 0 <= p < n && passes_stage(
            deltas[p],
            request,
        ) == pass by {
            if before.contains(p) {
                let k = choose|k: int| 0 <= k < before.len() && before[k] == p;
                assert(after[k] == p);
            }
            if p == n - 1 && passes_stage(deltas[p], request) == pass {
                assert(after[before.len() as int] == p);
            }
            if after.contains(p) {
                let k = choose|k: int| 0 <= k < after.len() && after[k] == p;
                if k < before.len() {
                    assert(before[k] == p);
                    assert(before.contains(p));
                }
            }
        }
        assert forall|i: int, j: int|
            0 <= i < after.len() && 0 <= j < after.len() && i != j implies after[i] != after[j] by {
            if i < before.len() {
                assert(before.contains(before[i]));
            }
            if j < before.len() {
                assert(before.contains(before[j]));
            }
        }
    }
}

proof fn lemma_winners_by_place(
    candidates: Seq<SweepCandidate>,
    scores: Seq<Measure>,
    deltas: Seq<Measure>,
    baseline: Measure,
    request: StageRequest,
)
    ensures
        stands_at(
            carried(stage_winners(candidates, scores, deltas, baseline, request)),
            candidates,
            split_places(candidates.len() as int, deltas, request, true),
        ),
    decreases candidates.len(),
{
    if candidates.len() > 0 {
        let init = candidates.drop_last();
        let n = candidates.len() as int;
        lemma_winners_by_place(init, scores, deltas, baseline, request);
        lemma_split_places(n - 1, deltas, request, true);
        let before = carried(stage_winners(init, scores, deltas, baseline, request));
        let after = carried(stage_winners(candidates, scores, deltas, baseline, request));
        let was = split_places(n - 1, deltas, request, true);
        let places = split_places(n, deltas, request, true);
        assert forall|i: int| 0 <= i < after.len() implies #[trigger] after[i]
            == candidates[places[i]] by {
            if i < before.len() {
                assert(after[i] == before[i]);
                assert(was.contains(was[i]));
                assert(init[was[i]] == candidates[was[i]]);
            }
        }
    }
}

proof fn lemma_losers_by_place(
    candidates: Seq<SweepCandidate>,
    deltas: Seq<Measure>,
    request: StageRequest,
)
    ensures
        dropped_from(
            stage_losers(candidates, deltas, request),
            candidates,
            split_places(candidates.len() as int, deltas, request, false),
        ),
    decreases candidates.len(),
{
    if candidates.len() > 0 {
        let init = candidates.drop_last();
        let n = candidates.len() as int;
        lemma_losers_by_place(init, deltas, request);
        lemma_split_places(n - 1, deltas, request, false);
        let before = stage_losers(init, deltas, request);
        let after = stage_losers(candidates, deltas, request);
        let was = split_places(n - 1, deltas, request, false);
        let places = split_places(n, deltas, request, false);
        assert forall|i: int| 0 <= i < after.len() implies (#[trigger] after[i]).uuid
            == candidates[places[i]].uuid && after[i].kind == candidates[places[i]].kind by {
            if i < before.len() {
                assert(after[i] == before[i]);
                assert(was.contains(was[i]));
                assert(init[was[i]] == candidates[was[i]]);
            }
        }
    }
}

proof fn lemma_parts_split(
    live: Seq<int>,
    out: Seq<int>,
    n: nat,
    stay: Seq<int>,
    go: Seq<int>,
)
    requires
        parts(live, out, n),
        parts(stay, go, live.len()),
    ensures
        parts(picked(live, stay), out + picked(live, go), n),
{
    let kept = picked(live, stay);
    let gone = picked(live, go);
    let all = out + gone;
    assert forall|p: int| #[trigger] kept.contains(p) implies live.contains(p) && !out.contains(p)
        && !gone.contains(p) by {
        let i = choose|i: int| 0 <= i < kept.len() && kept[i] == p;
        assert(stay.contains(stay[i]));
        assert(live[stay[i]] == p);
        if gone.contains(p) {
            let j = choose|j: int| 0 <= j < gone.len() && gone[j] == p;
            assert(go.contains(go[j]));
            assert(live[go[j]] == p);
            assert(stay[i] == go[j]);
        }
    }
    assert forall|p: int| #[trigger] gone.contains(p) implies live.contains(p) && !out.contains(
        p,
    ) by {
        let j = choose|j: int| 0 <= j < gone.len() && gone[j] == p;
        assert(go.contains(go[j]));
        assert(live[go[j]] == p);
    }
    assert forall|p: int| #[trigger] live.contains(p) implies kept.contains(p) || gone.contains(
        p,
    ) by {
        let k = choose|k: int| 0 <= k < live.len() && live[k] == p;
        assert(stay.contains(k) || go.contains(k));
        if stay.contains(k) {
            let i = choose|i: int| 0 <= i < stay.len() && stay[i] == k;
            assert(kept[i] == p);
        } else {
            let j = choose|j: int| 0 <= j < go.len() && go[j] == k;
            assert(gone[j] == p);
        }
    }
    assert forall|p: int| #[trigger] all.contains(p) <==> out.contains(p) || gone.contains(p) by {
        if out.contains(p) {
            let k = choose|k: int| 0 <= k < out.len() && out[k] == p;
            assert(all[k] == p);
        }
        if gone.contains(p) {
            let k = choose|k: int| 0 <= k < gone.len() && gone[k] == p;
            assert(all[out.len() + k] == p);
        }
        if all.contains(p) {
            let k = choose|k: int| 0 <= k < all.len() && all[k] == p;
            if k < out.len() {
                assert(out[k] == p);
            } else {
                assert(gone[k - out.len()] == p);
            }
        }
    }
    assert forall|i: int, j: int|
        0 <= i < kept.len() && 0 <= j < kept.len() && i != j implies kept[i] != kept[j] by {
        assert(stay.contains(stay[i]) && stay.contains(stay[j]));
    }
    assert forall|i: int, j: int|
        0 <= i < all.len() && 0 <= j < all.len() && i != j implies all[i] != all[j] by {
        if i >= out.len() {
            assert(gone.contains(gone[i - out.len()]));
            assert(go.contains(go[i - out.len()]));
        } else {
            assert(out.contains(out[i]));
        }
        if j >= out.len() {
            assert(gone.contains(gone[j - out.len()]));
            assert(go.contains(go[j - out.len()]));
        } else {
            assert(out.contains(out[j]));
        }
    }
}

/// A screen that was just started accounts for its candidates: all of them are
/// in the race.
pub proof fn law_fresh_screens_hold_every_candidate(start: Screening, stages: nat)
    requires
        stages > 0,
        start.stage == 0,
        start.screen.winners@.len() == 0,
        start.screen.losers@.len() == 0,
    ensures
        start.accounts_for(
            start.survivors@,
            stages,
            Seq::new(start.survivors@.len(), |i: int| i),
            Seq::empty(),
        ),
{
    let n = start.survivors@.len();
    let live = Seq::new(n, |i: int| i);
    assert forall|p: int| 0 <= p < n implies #[trigger] live.contains(p) by {
        assert(live[p] == p);
    }
}

/// A stage that splits its candidates loses none of them and takes none twice:
/// the screen still accounts for every candidate that it was given. Those that
/// pass stay live, in order, and those that do not join the ones that were
/// dropped.
pub proof fn law_stage_loses_no_candidate(
    before: Screening,
    after: Screening,
    candidates: Seq<SweepCandidate>,
    rungs: Seq<ScreenStage>,
    live: Seq<int>,
    out: Seq<int>,
    batch: u64,
    scores: Seq<Measure>,
    deltas: Seq<Measure>,
    baseline: Measure,
    request: StageRequest,
    outcome: StageOutcome,
)
    requires
        before.accounts_for(candidates, rungs.len(), live, out),
        before.stage < rungs.len(),
        outcome.winners@ == stage_winners(before.survivors@, scores, deltas, baseline, request),
        outcome.losers@ == stage_losers(before.survivors@, deltas, request),
        before.observed(rungs, batch, outcome, after),
    ensures
        after.accounts_for(
            candidates,
            rungs.len(),
            picked(live, split_places(live.len() as int, deltas, request, true)),
            out + picked(live, split_places(live.len() as int, deltas, request, false)),
        ),
{
    let n = live.len() as int;
    let stay = split_places(n, deltas, request, true);
    let go = split_places(n, deltas, request, false);
    let racing = before.survivors@;
    assert(racing + carried(before.screen.winners@) =~= racing);
    assert(racing.len() == n);
    lemma_split_places(n, deltas, request, true);
    lemma_split_places(n, deltas, request, false);
    assert(parts(stay, go, live.len()));
    lemma_parts_split(live, out, candidates.len(), stay, go);
    lemma_winners_by_place(racing, scores, deltas, baseline, request);
    lemma_losers_by_place(racing, deltas, request);
    let passed = carried(outcome.winners@);
    assert(after.survivors@ + carried(after.screen.winners@) =~= passed);
    assert forall|i: int| 0 <= i < passed.len() implies #[trigger] passed[i]
        == candidates[picked(live, stay)[i]] by {
        assert(stay.contains(stay[i]));
        assert(passed[i] == racing[stay[i]]);
    }
    let dropped = after.screen.losers@;
    let places = out + picked(live, go);
    assert forall|i: int| 0 <= i < dropped.len() implies (#[trigger] dropped[i]).uuid
        == candidates[places[i]].uuid && dropped[i].kind == candidates[places[i]].kind by {
        if i < out.len() {
            assert(dropped[i] == before.screen.losers@[i]);
        } else {
            let k = i - out.len();
            assert(go.contains(go[k]));
            assert(dropped[i].uuid == outcome.losers@[k].uuid);
            assert(dropped[i].kind == outcome.losers@[k].kind);
            assert(racing[go[k]] == candidates[live[go[k]]]);
        }
    }
}

/// Once nothing is left to ask, every candidate that the screen was given ended
/// exactly once: those at the places `live` are the winners, in order, and the
/// others are the losers.
pub proof fn law_every_candidate_ends_once(
    done: Screening,
    candidates: Seq<SweepCandidate>,
    stages: nat,
    live: Seq<int>,
    out: Seq<int>,
)
    requires
        done.accounts_for(candidates, stages, live, out),
        done.stage >= stages || done.survivors@.len() == 0,
    ensures
        parts(live, out, candidates.len()),
        stands_at(carried(done.screen.winners@), candidates, live),
        dropped_from(done.screen.losers@, candidates, out),
{
    assert(done.survivors@ + carried(done.screen.winners@) =~= carried(done.screen.winners@));
}

proof fn lemma_losers_fail(
    candidates: Seq<SweepCandidate>,
    deltas: Seq<Measure>,
    request: StageRequest,
)
    ensures
        forall|i: int|
            0 <= i < stage_losers(candidates, deltas, request).len() ==> !passes_stage(
                (#[trigger] stage_losers(candidates, deltas, request)[i]).delta,
                request,
            ),
    decreases candidates.len(),
{
    if candidates.len() > 0 {
        lemma_losers_fail(candidates.drop_last(), deltas, request);
    }
}

/// A stage before the last drops only what is behind by its whole margin, or
/// does not compare, and marks it as clearly worse, with its own number.
pub proof fn law_early_losers_are_clearly_worse(
    rungs: Seq<ScreenStage>,
    candidates: Seq<SweepCandidate>,
    deltas: Seq<Measure>,
    request: StageRequest,
    i: int,
)
    requires
        valid_ladder(rungs),
        request.stage < rungs.len() - 1,
        request.threshold == rungs[request.stage as int].reject_margin.opposite(),
        0 <= i < stage_losers(candidates, deltas, request).len(),
    ensures
        ({
            let dropped = all_dropped_at(
                stage_losers(candidates, deltas, request),
                request.stage,
                false,
            )[i];
            &&& dropped.reason == ScreenRejection::ClearlyWorse
            &&& dropped.stage == request.stage
            &&& dropped.delta.nan() || dropped.delta.at_most(
                rungs[request.stage as int].reject_margin.opposite(),
            )
        }),
{
    lemma_losers_fail(candidates, deltas, request);
    let margin = rungs[request.stage as int].reject_margin;
    let delta = stage_losers(candidates, deltas, request)[i].delta;
    law_negation_reverses_order(margin, delta);
    law_comparison_is_total_without_nan(request.threshold, delta);
}

/// The winners of a stage are the candidates whose measured difference is above the
/// threshold, in order, and each carries the score and the difference that were
/// measured for it, against the incumbent's score.
pub proof fn law_winners_carry_what_was_measured(
    candidates: Seq<SweepCandidate>,
    scores: Seq<Measure>,
    deltas: Seq<Measure>,
    baseline: Measure,
    request: StageRequest,
    marks: Seq<bool>,
)
    requires
        marks.len() == candidates.len(),
        forall|i: int|
            0 <= i < marks.len() ==> (#[trigger] marks[i] <==> (
                !deltas[i].nan()
                && !request.threshold.nan()
                && request.threshold.position() < deltas[i].position()
            )),
    ensures
        stage_winners(candidates, scores, deltas, baseline, request).len()
            == true_places(marks).len(),
        forall|k: int|
            0 <= k < true_places(marks).len() ==> {
                let at = true_places(marks)[k];
                let from = candidates[at];
                let made = #[trigger] stage_winners(candidates, scores, deltas, baseline,
                    request)[k];
                &&& made.candidate == from
                &&& made.score == scores[at]
                &&& made.delta == deltas[at]
                &&& made.baseline_score == baseline
            },
    decreases candidates.len(),
{
    if candidates.len() > 0 {
        let init = candidates.drop_last();
        let some = marks.drop_last();
        let n = candidates.len() - 1;
        assert forall|i: int| 0 <= i < some.len() implies (#[trigger] some[i] <==> (
            !deltas[i].nan()
            && !request.threshold.nan()
            && request.threshold.position() < deltas[i].position()
        )) by {
            assert(some[i] == marks[i]);
            assert(init[i] == candidates[i]);
        }
        law_winners_carry_what_was_measured(init, scores, deltas, baseline, request, some);
        assert(marks[n] <==> (
            !deltas[n].nan()
            && !request.threshold.nan()
            && request.threshold.position() < deltas[n].position()
        ));
        law_true_places_ascend(some);
        let before = stage_winners(init, scores, deltas, baseline, request);
        let after = stage_winners(candidates, scores, deltas, baseline, request);
        let was = true_places(some);
        let now = true_places(marks);
        assert forall|k: int| 0 <= k < now.len() implies ({
            let at = now[k];
            let from = candidates[at];
            let made = #[trigger] after[k];
            &&& made.candidate == from
            &&& made.score == scores[at]
            &&& made.delta == deltas[at]
            &&& made.baseline_score == baseline
        }) by {
            if k < was.len() {
                assert(now[k] == was[k]);
                assert(0 <= was[k] < some.len());
                assert(init[was[k]] == candidates[was[k]]);
                assert(after[k] == before[k]);
            }
        }
    }
}

/// The losers of a stage are the other candidates, in order, and each carries the
/// difference that was measured for it.
pub proof fn law_losers_carry_what_was_measured(
    candidates: Seq<SweepCandidate>,
    deltas: Seq<Measure>,
    request: StageRequest,
    marks: Seq<bool>,
)
    requires
        marks.len() == candidates.len(),
        forall|i: int|
            0 <= i < marks.len() ==> (#[trigger] marks[i] <==> deltas[i].nan()
                || request.threshold.nan()
                    || request.threshold.position() >= deltas[i].position()),
    ensures
        stage_losers(candidates, deltas, request).len() == true_places(marks).len(),
        forall|k: int|
            0 <= k < true_places(marks).len() ==> {
                let at = true_places(marks)[k];
                let from = candidates[at];
                let made = #[trigger] stage_losers(candidates, deltas, request)[k];
                &&& made.uuid == from.uuid
                &&& made.kind == from.kind
                &&& made.delta == deltas[at]
                &&& made.stage == request.stage
                &&& made.reason == ScreenRejection::BelowThreshold
            },
    decreases candidates.len(),
{
    if candidates.len() > 0 {
        let init = candidates.drop_last();
        let some = marks.drop_last();
        let n = candidates.len() - 1;
        assert forall|i: int| 0 <= i < some.len() implies (#[trigger] some[i]
            <==> deltas[i].nan() || request.threshold.nan()
                    || request.threshold.position() >= deltas[i].position()) by {
            assert(some[i] == marks[i]);
            assert(init[i] == candidates[i]);
        }
        law_losers_carry_what_was_measured(init, deltas, request, some);
        assert(marks[n] <==> deltas[n].nan() || request.threshold.nan()
                    || request.threshold.position() >= deltas[n].position());
        law_true_places_ascend(some);
        let before = stage_losers(init, deltas, request);
        let after = stage_losers(candidates, deltas, request);
        let was = true_places(some);
        let now = true_places(marks);
        assert forall|k: int| 0 <= k < now.len() implies ({
            let at = now[k];
            let from = candidates[at];
            let made = #[trigger] after[k];
            &&& made.uuid == from.uuid
            &&& made.kind == from.kind
            &&& made.delta == deltas[at]
            &&& made.stage == request.stage
            &&& made.reason == ScreenRejection::BelowThreshold
        }) by {
            if k < was.len() {
                assert(now[k] == was[k]);
                assert(0 <= was[k] < some.len());
                assert(init[was[k]] == candidates[was[k]]);
                assert(after[k] == before[k]);
            }
        }
    }
}

/// Rejections are counted by their reason.
pub proof fn law_rejections_are_counted(
    losers: Seq<ScreenedLoser>,
    reason: ScreenRejection,
    marks: Seq<bool>,
)
    requires
        marks.len() == losers.len(),
        forall|i: int| 0 <= i < marks.len() ==> (#[trigger] marks[i]
            <==> losers[i].reason == reason),
    ensures
        rejected_for(losers, reason) == true_places(marks).len(),
    decreases losers.len(),
{
    if losers.len() > 0 {
        let init = losers.drop_last();
        let some = marks.drop_last();
        let n = losers.len() - 1;
        assert forall|i: int| 0 <= i < some.len() implies (#[trigger] some[i]
            <==> init[i].reason == reason) by {
            assert(some[i] == marks[i]);
            assert(init[i] == losers[i]);
        }
        law_rejections_are_counted(init, reason, some);
        assert(marks[n] <==> losers[n].reason == reason);
    }
}

/// A ladder is accepted exactly if it has a stage, every share lies strictly
/// between none and all and above the one before, every margin is finite, and
/// every margin but the last is above nothing.
pub proof fn law_ladders_climb(stages: Seq<ScreenStage>)
    ensures
        ladder_fault(stages) is None <==> {
            &&& stages.len() > 0
            &&& forall|i: int|
                0 <= i < stages.len() ==> {
                    &&& !(#[trigger] stages[i]).rate.nan()
                    &&& 0 < stages[i].rate.position() < 0x3FF0_0000_0000_0000
                    &&& stages[i].reject_margin.magnitude() < 0x7FF0_0000_0000_0000
                    &&& i < stages.len() - 1 ==> stages[i].reject_margin.position() > 0
                }
            &&& forall|i: int, j: int|
                #![trigger stages[i], stages[j]]
                0 <= i < j < stages.len() ==> stages[i].rate.position() < stages[j].rate.position()
        },
{
    law_faultless_ladders_are_valid(stages);
    if valid_ladder(stages) {
        assert forall|i: int| 0 <= i < stages.len() implies !(#[trigger] stages[i]).rate.nan() && 0
            < stages[i].rate.position() < 0x3FF0_0000_0000_0000
            && stages[i].reject_margin.magnitude() < 0x7FF0_0000_0000_0000 && (i < stages.len() - 1
            ==> stages[i].reject_margin.position() > 0) by {
            assert(is_share(stages[i].rate));
        }
        assert forall|i: int, j: int|
            #![trigger stages[i], stages[j]]
            0 <= i < j < stages.len() implies stages[i].rate.position()
            < stages[j].rate.position() by {
            assert(stages[i].rate.below(stages[j].rate));
        }
    }
}

/// A fault names the first stage that is wrong, and what is wrong with it.
pub proof fn law_faults_are_found_where_they_are(stages: Seq<ScreenStage>, error: LadderError)
    requires
        ladder_fault(stages) == Some(error),
        stages.len() <= usize::MAX,
    ensures
        match error {
            LadderError::Empty => stages.len() == 0,
            LadderError::Rate { stage, rate } => {
                &&& stage < stages.len() && rate == stages[stage as int].rate
                &&& rate.nan() || rate.position() <= 0 || rate.position() >= 0x3FF0_0000_0000_0000
                &&& forall|k: int| 0 <= k < stage ==> #[trigger] stage_fault(stages, k) is None
            },
            LadderError::NotAscending { stage, rate, previous } => {
                &&& 0 < stage < stages.len() && rate == stages[stage as int].rate
                &&& previous == stages[stage - 1].rate
                &&& rate.position() <= previous.position()
                &&& forall|k: int| 0 <= k < stage ==> #[trigger] stage_fault(stages, k) is None
            },
            LadderError::MarginNotFinite { stage } => {
                &&& stage < stages.len()
                &&& stages[stage as int].reject_margin.magnitude() >= 0x7FF0_0000_0000_0000
                &&& forall|k: int| 0 <= k < stage ==> #[trigger] stage_fault(stages, k) is None
            },
            LadderError::MarginNotPositive { stage } => {
                &&& stage < stages.len() - 1
                &&& stages[stage as int].reject_margin.position() <= 0
                &&& forall|k: int| 0 <= k < stage ==> #[trigger] stage_fault(stages, k) is None
            },
        },
{
    if stages.len() > 0 {
        let at = lemma_fault_place(stages, 0);
        assert(stage_fault(stages, at) == Some(error));
    }
}

proof fn lemma_fault_place(stages: Seq<ScreenStage>, i: int) -> (at: int)
    requires
        0 <= i < stages.len(),
        fault_from(stages, i) is Some,
    ensures
        i <= at < stages.len(),
        stage_fault(stages, at) == fault_from(stages, i),
        forall|k: int| i <= k < at ==> #[trigger] stage_fault(stages, k) is None,
    decreases stages.len() - i,
{
    if stage_fault(stages, i) is Some {
        i
    } else {
        lemma_fault_place(stages, i + 1)
    }
}

/// A written ladder comes to the shares that were read, each with the margin that
/// was written for it, or the default where none was.
pub proof fn law_written_ladders_are_read_as_written(
    fields: Seq<StageField>,
    parsed: Seq<ParsedStage>,
    default_margin: Measure,
    i: int,
)
    requires
        reads_fields(fields, parsed),
        0 <= i < fields.len(),
    ensures
        parsed_stages(fields, parsed, default_margin).len() == fields.len(),
        parsed[i].rate matches Ok(rate) ==> parsed_stages(fields, parsed, default_margin)[i].rate
            == rate,
        fields[i].margin is None ==> parsed_stages(fields, parsed, default_margin)[i].reject_margin
            == default_margin,
        parsed[i].margin matches Some(Ok(margin)) ==> parsed_stages(
            fields,
            parsed,
            default_margin,
        )[i].reject_margin == margin,
        field_fault(fields, parsed, i) <==> fields[i].empty || parsed[i].rate is Err || (
        parsed[i].margin is Some && parsed[i].margin->0 is Err),
{
    assert(parsed[i].margin is Some <==> fields[i].margin is Some);
}

/// What a stage is on record with: how many entered, were dropped and passed, what
/// was scored and how long it took, against which score of the incumbent; and the
/// stages before it stay on record as they were. Losers are out with the number
/// of their stage and their own difference, and time adds up.
pub proof fn law_stages_go_on_record(
    before: Screening,
    rungs: Seq<ScreenStage>,
    batch: u64,
    outcome: StageOutcome,
    after: Screening,
    i: int,
)
    requires
        before.stage < rungs.len(),
        before.observed(rungs, batch, outcome, after),
    ensures
        ({
            let record = after.screen.stages@[before.screen.stages@.len() as int];
            &&& after.screen.stages@.len() == before.screen.stages@.len() + 1
            &&& record.stage == before.stage
            &&& record.rate == rungs[before.stage as int].rate
            &&& record.phase as int == (batch * rungs.len() + before.stage)
                % 0x1_0000_0000_0000_0000
            &&& record.entered == before.survivors@.len()
            &&& record.rejected == outcome.losers@.len()
            &&& record.promoted == outcome.winners@.len()
            &&& record.records_scored == outcome.records_scored
            &&& record.baseline_score == outcome.baseline_score
            &&& before.survivors@.len() > 0 ==> record.mean_delta == outcome.mean_delta
            &&& record.ms == outcome.screen_ms
            &&& record.outcome == StageEnd::Promoted <==> before.stage + 1 == rungs.len()
        }),
        0 <= i < before.screen.stages@.len() ==> after.screen.stages@[i]
            == before.screen.stages@[i],
        0 <= i < before.screen.losers@.len() ==> after.screen.losers@[i]
            == before.screen.losers@[i],
        after.screen.losers@.len() == before.screen.losers@.len() + outcome.losers@.len(),
        0 <= i < outcome.losers@.len() ==> {
            let loser = after.screen.losers@[before.screen.losers@.len() + i];
            &&& loser.uuid == outcome.losers@[i].uuid
            &&& loser.kind == outcome.losers@[i].kind
            &&& loser.delta == outcome.losers@[i].delta
            &&& loser.stage == before.stage
            &&& loser.reason == if before.stage + 1 == rungs.len() {
                outcome.losers@[i].reason
            } else {
                ScreenRejection::ClearlyWorse
            }
        },
        after.stage == before.stage + 1,
        after.screen.baseline_score == Some(outcome.baseline_score),
        after.screen.screen_ms as int == vstd::math::min(
            before.screen.screen_ms + outcome.screen_ms,
            u64::MAX as int,
        ),
        before.stage + 1 < rungs.len() ==> after.survivors@.len() == outcome.winners@.len()
            && after.screen.winners@ == before.screen.winners@ && (0 <= i < outcome.winners@.len()
            ==> after.survivors@[i] == outcome.winners@[i].candidate),
        before.stage + 1 == rungs.len() ==> after.survivors@.len() == 0 && after.screen.winners@
            == outcome.winners@,
{
    let kept = before.screen.stages@;
    assert(after.screen.stages@.last() == after.screen.stages@[kept.len() as int]);
    if 0 <= i < kept.len() {
        assert(after.screen.stages@.drop_last()[i] == after.screen.stages@[i]);
    }
}

/// The records of a screen are those of its stages together.
pub proof fn law_records_add_up(a: Seq<StageRecord>, b: Seq<StageRecord>)
    ensures
        total_records(a + b) == total_records(a) + total_records(b),
        a.len() == 1 ==> total_records(a) == a[0].records_scored,
    decreases b.len(),
{
    if b.len() == 0 {
        assert(a + b =~= a);
    } else {
        law_records_add_up(a, b.drop_last());
        assert((a + b).drop_last() =~= a + b.drop_last());
    }
    if a.len() == 1 {
        reveal_with_fuel(total_records, 2);
    }
}

/// A screen asks for its next stage as long as candidates and stages are left: with
/// that stage's share, and a sample of its own. A candidate passes the last stage
/// exactly if it is ahead by more than the threshold, and an earlier one exactly if
/// it is not behind by as much as its margin.
pub proof fn law_stages_hold_candidates_to_their_margin(
    screening: Screening,
    rungs: Seq<ScreenStage>,
    threshold: Measure,
    batch: u64,
    r: Option<StageRequest>,
    delta: Measure,
)
    requires
        screening.asks(rungs, threshold, batch, r),
        !threshold.nan(),
        !delta.nan(),
        valid_ladder(rungs),
    ensures
        r is Some <==> screening.stage < rungs.len() && screening.survivors@.len() > 0,
        r matches Some(request) ==> {
            let stage = rungs[screening.stage as int];
            &&& request.stage == screening.stage
            &&& request.rate == stage.rate
            &&& request.phase as int == (batch * rungs.len() + screening.stage)
                % 0x1_0000_0000_0000_0000
            &&& screening.stage + 1 == rungs.len() ==> (passes_stage(delta, request)
                <==> delta.position() > threshold.position())
            &&& screening.stage + 1 < rungs.len() ==> (passes_stage(delta, request)
                <==> delta.position() > -stage.reject_margin.position())
        },
{
    if let Some(request) = r {
        let margin = rungs[screening.stage as int].reject_margin;
        assert(margin.finite());
        assert(margin.opposite().position() == -margin.position());
        assert(!margin.opposite().nan());
    }
}

} // verus!
