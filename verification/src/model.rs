//! The learned ranker: what it may be fitted on, and what makes it usable.
//!
//! Fitting and predicting are numerical work done elsewhere. Here is what a
//! fit refuses, what a model must be before anything is ranked by it, and how
//! its ranking is judged.
use vstd::prelude::*;

use crate::list::{law_true_places_ascend, true_places};
use crate::measure::Measure;
use crate::text::{copy_texts, decimal, decimal_text, same_text, text_of, texts};

verus! {

/// The format that models are written in.
pub const PRIORITY_MODEL_FORMAT_VERSION: u32 = 1;

/// Passes over the rows, unless told otherwise.
pub const DEFAULT_EPOCHS: usize = 2_000;

/// The learning rate unless told otherwise, `0.1` as its bits.
pub const DEFAULT_LEARNING_RATE: u64 = 0x3fb9_9999_9999_999a;

/// The penalty on large weights unless told otherwise, `0.001` as its bits.
pub const DEFAULT_L2: u64 = 0x3f50_624d_d2f1_a9fc;

/// `0.5` as its bits.
pub const HALF_BITS: u64 = 0x3fe0_0000_0000_0000;

/// One candidate that the scorer judged.
#[derive(Debug)]
pub struct TrainingRow {
    /// What was known of it, in the order of the schema.
    pub features: Vec<Measure>,
    /// Whether the whole corpus confirmed the cut.
    pub win: bool,
}

/// How a fit is made.
#[derive(Debug)]
pub struct TrainingConfig {
    /// Passes over the rows.
    pub epochs: usize,
    /// The learning rate.
    pub learning_rate: Measure,
    /// The penalty on large weights.
    pub l2: Measure,
    /// The corpora that the rows come from.
    pub corpora: Vec<String>,
}

impl Default for TrainingConfig {
    fn default() -> (r: TrainingConfig)
        ensures
            r.epochs == DEFAULT_EPOCHS,
            r.learning_rate.bits == DEFAULT_LEARNING_RATE,
            r.l2.bits == DEFAULT_L2,
            r.corpora@.len() == 0,
    {
        TrainingConfig {
            epochs: DEFAULT_EPOCHS,
            learning_rate: Measure { bits: DEFAULT_LEARNING_RATE },
            l2: Measure { bits: DEFAULT_L2 },
            corpora: Vec::new(),
        }
    }
}

/// What a model was fitted from.
#[derive(Debug)]
pub struct TrainingMeta {
    /// The version that fitted it.
    pub crate_version: String,
    /// How many rows it saw.
    pub rows: usize,
    /// How many of them won.
    pub wins: usize,
    /// How the fit was made.
    pub config: TrainingConfig,
}

/// Why rows cannot be fitted.
#[derive(Clone, Copy, Debug, PartialEq, Eq, Structural)]
pub enum FitFault {
    /// There are none.
    NoRows,
    /// A row is not as wide as the schema.
    Width {
        /// The row.
        row: usize,
        /// How wide it is.
        found: usize,
    },
    /// A value is no number.
    NotFinite {
        /// The row.
        row: usize,
        /// The column.
        feature: usize,
    },
    /// All rows won, or none did.
    OneOutcome {
        /// How many won.
        wins: usize,
    },
    /// There are no passes.
    Epochs,
    /// The learning rate is no positive number.
    LearningRate,
    /// The penalty is a negative number, or none.
    Penalty,
}

/// The first value of a row that is no number.
pub open spec fn bad_feature(features: Seq<Measure>) -> Option<int>
    decreases features.len(),
{
    if features.len() == 0 {
        None
    } else {
        match bad_feature(features.drop_last()) {
            Some(at) => Some(at),
            None => if features.last().finite() {
                None
            } else {
                Some(features.len() - 1)
            },
        }
    }
}

/// What is wrong with a row.
pub open spec fn row_fault(row: TrainingRow, at: int, width: int) -> Option<FitFault> {
    if row.features@.len() != width {
        Some(FitFault::Width { row: at as usize, found: row.features@.len() as usize })
    } else {
        match bad_feature(row.features@) {
            Some(feature) => Some(
                FitFault::NotFinite { row: at as usize, feature: feature as usize },
            ),
            None => None,
        }
    }
}

/// What is wrong with the first faulty row.
pub open spec fn first_row_fault(rows: Seq<TrainingRow>, width: int) -> Option<FitFault>
    decreases rows.len(),
{
    if rows.len() == 0 {
        None
    } else {
        match first_row_fault(rows.drop_last(), width) {
            Some(fault) => Some(fault),
            None => row_fault(rows.last(), rows.len() - 1, width),
        }
    }
}

/// How many rows won.
pub open spec fn win_count(rows: Seq<TrainingRow>) -> nat
    decreases rows.len(),
{
    if rows.len() == 0 {
        0
    } else {
        win_count(rows.drop_last()) + if rows.last().win {
            1nat
        } else {
            0nat
        }
    }
}

/// The first reason not to fit.
pub open spec fn fit_fault(rows: Seq<TrainingRow>, width: int, config: TrainingConfig) -> Option<
    FitFault,
> {
    if rows.len() == 0 {
        Some(FitFault::NoRows)
    } else if first_row_fault(rows, width) is Some {
        first_row_fault(rows, width)
    } else if win_count(rows) == 0 || win_count(rows) == rows.len() {
        Some(FitFault::OneOutcome { wins: win_count(rows) as usize })
    } else if config.epochs == 0 {
        Some(FitFault::Epochs)
    } else if !(config.learning_rate.finite() && (Measure { bits: 0 }).below(
        config.learning_rate,
    )) {
        Some(FitFault::LearningRate)
    } else if !(config.l2.finite() && (Measure { bits: 0 }).at_most(config.l2)) {
        Some(FitFault::Penalty)
    } else {
        None
    }
}

fn find_bad_feature(features: &Vec<Measure>) -> (r: Option<usize>)
    ensures
        match r {
            Some(at) => at < features@.len() && bad_feature(features@) == Some(at as int),
            None => bad_feature(features@) is None,
        },
{
    let mut found: Option<usize> = None;
    let mut i: usize = 0;
    assert(features@.take(0) =~= Seq::empty());
    while i < features.len()
        invariant
            i <= features@.len(),
            match found {
                Some(at) => at < i && bad_feature(features@.take(i as int)) == Some(at as int),
                None => bad_feature(features@.take(i as int)) is None,
            },
        decreases features.len() - i,
    {
        proof {
            assert(features@.take(i + 1).drop_last() =~= features@.take(i as int));
            assert(features@.take(i + 1).last() == features@[i as int]);
        }
        if found.is_none() && !features[i].is_finite() {
            found = Some(i);
        }
        i += 1;
    }
    assert(features@.take(i as int) =~= features@);
    found
}

fn check_row(row: &TrainingRow, at: usize, width: usize) -> (r: Option<FitFault>)
    ensures
        r == row_fault(*row, at as int, width as int),
{
    let found: usize = row.features.len();
    if found != width {
        return Some(FitFault::Width { row: at, found });
    }
    match find_bad_feature(&row.features) {
        Some(feature) => Some(FitFault::NotFinite { row: at, feature }),
        None => None,
    }
}

/// Checks that rows can be fitted: that there are some, that each has a number
/// for every feature of the schema, that both outcomes occur, and that the
/// terms of the fit make sense. Tells how many rows won.
pub fn check_fit(rows: &Vec<TrainingRow>, width: usize, config: &TrainingConfig) -> (r: Result<
    usize,
    FitFault,
>)
    ensures
        match r {
            Ok(wins) => fit_fault(rows@, width as int, *config) is None && wins == win_count(
                rows@,
            ),
            Err(fault) => fit_fault(rows@, width as int, *config) == Some(fault),
        },
{
    if rows.len() == 0 {
        return Err(FitFault::NoRows);
    }
    let mut fault: Option<FitFault> = None;
    let mut wins: usize = 0;
    let mut i: usize = 0;
    assert(rows@.take(0) =~= Seq::empty());
    while i < rows.len()
        invariant
            i <= rows@.len(),
            fault == first_row_fault(rows@.take(i as int), width as int),
            wins <= i,
            wins == win_count(rows@.take(i as int)),
        decreases rows.len() - i,
    {
        proof {
            assert(rows@.take(i + 1).drop_last() =~= rows@.take(i as int));
            assert(rows@.take(i + 1).last() == rows@[i as int]);
        }
        if fault.is_none() {
            fault = check_row(&rows[i], i, width);
        }
        if rows[i].win {
            wins += 1;
        }
        i += 1;
    }
    assert(rows@.take(i as int) =~= rows@);
    match fault {
        Some(found) => {
            return Err(found);
        },
        None => {},
    }
    if wins == 0 || wins == rows.len() {
        return Err(FitFault::OneOutcome { wins });
    }
    if config.epochs == 0 {
        return Err(FitFault::Epochs);
    }
    if !(config.learning_rate.is_finite() && Measure::zero().lt(config.learning_rate)) {
        return Err(FitFault::LearningRate);
    }
    if !(config.l2.is_finite() && Measure::zero().le(config.l2)) {
        return Err(FitFault::Penalty);
    }
    Ok(wins)
}

/// A fault in words, given the names of the features and how many rows there
/// were.
pub open spec fn fault_text(fault: FitFault, names: Seq<Seq<char>>, rows: nat) -> Seq<char> {
    match fault {
        FitFault::NoRows => "cannot fit a priority model: no training rows"@,
        FitFault::Width { row, found } => "training row "@ + decimal(row as nat) + " has "@
            + decimal(found as nat) + " features; the schema has "@ + decimal(names.len()),
        FitFault::NotFinite { row, feature } => "training row "@ + decimal(row as nat)
            + " feature `"@ + names[feature as int] + "` is not finite"@,
        FitFault::OneOutcome { wins } => "cannot fit a priority model: "@ + decimal(wins as nat)
            + " win(s) in "@ + decimal(rows)
            + " row(s) — both outcomes are needed to learn a ranking"@,
        FitFault::Epochs => "cannot fit a priority model: --epochs must be > 0"@,
        FitFault::LearningRate => "cannot fit a priority model: --learning-rate must be > 0"@,
        FitFault::Penalty => "cannot fit a priority model: --l2 must be >= 0"@,
    }
}

impl FitFault {
    /// The fault in words.
    pub fn message(&self, names: &Vec<String>, rows: usize) -> (r: String)
        requires
            self matches FitFault::NotFinite { row, feature } ==> feature < names@.len(),
        ensures
            r@ == fault_text(*self, texts(names@), rows as nat),
    {
        match *self {
            FitFault::NoRows => text_of("cannot fit a priority model: no training rows"),
            FitFault::Width { row, found } => {
                let mut out = text_of("training row ");
                let number = decimal_text(row as u64);
                out.append(number.as_str());
                out.append(" has ");
                let width = decimal_text(found as u64);
                out.append(width.as_str());
                out.append(" features; the schema has ");
                let wanted = decimal_text(names.len() as u64);
                out.append(wanted.as_str());
                out
            },
            FitFault::NotFinite { row, feature } => {
                let mut out = text_of("training row ");
                let number = decimal_text(row as u64);
                out.append(number.as_str());
                out.append(" feature `");
                assert(texts(names@)[feature as int] == names@[feature as int]@);
                out.append(names[feature].as_str());
                out.append("` is not finite");
                out
            },
            FitFault::OneOutcome { wins } => {
                let mut out = text_of("cannot fit a priority model: ");
                let won = decimal_text(wins as u64);
                out.append(won.as_str());
                out.append(" win(s) in ");
                let all = decimal_text(rows as u64);
                out.append(all.as_str());
                out.append(" row(s) — both outcomes are needed to learn a ranking");
                out
            },
            FitFault::Epochs => text_of("cannot fit a priority model: --epochs must be > 0"),
            FitFault::LearningRate => text_of(
                "cannot fit a priority model: --learning-rate must be > 0",
            ),
            FitFault::Penalty => text_of("cannot fit a priority model: --l2 must be >= 0"),
        }
    }
}

proof fn lemma_bad_feature(features: Seq<Measure>)
    ensures
        match bad_feature(features) {
            Some(at) => 0 <= at < features.len() && !features[at].finite(),
            None => forall|i: int| 0 <= i < features.len() ==> (#[trigger] features[i]).finite(),
        },
    decreases features.len(),
{
    if features.len() > 0 {
        lemma_bad_feature(features.drop_last());
        if bad_feature(features) is None {
            assert forall|i: int| 0 <= i < features.len() implies (#[trigger] features[i]).finite() by {
                if i < features.len() - 1 {
                    assert(features.drop_last()[i] == features[i]);
                }
            }
        }
    }
}

proof fn lemma_sound_rows(rows: Seq<TrainingRow>, width: int)
    requires
        first_row_fault(rows, width) is None,
    ensures
        forall|i: int|
            0 <= i < rows.len() ==> (#[trigger] rows[i]).features@.len() == width && forall|k: int|
                0 <= k < width ==> (#[trigger] rows[i].features@[k]).finite(),
    decreases rows.len(),
{
    if rows.len() > 0 {
        let init = rows.drop_last();
        lemma_sound_rows(init, width);
        lemma_bad_feature(rows.last().features@);
        assert forall|i: int| 0 <= i < rows.len() implies (#[trigger] rows[i]).features@.len()
            == width && forall|k: int|
            0 <= k < width ==> (#[trigger] rows[i].features@[k]).finite() by {
            if i < init.len() {
                assert(init[i] == rows[i]);
            }
        }
    }
}

proof fn lemma_row_fault_is_placed(rows: Seq<TrainingRow>, width: int)
    requires
        width <= usize::MAX,
    ensures
        first_row_fault(rows, width) matches Some(FitFault::NotFinite { row, feature })
            ==> feature < width,
    decreases rows.len(),
{
    if rows.len() > 0 {
        lemma_row_fault_is_placed(rows.drop_last(), width);
        lemma_bad_feature(rows.last().features@);
    }
}

proof fn lemma_fault_is_placed(rows: Seq<TrainingRow>, width: int, config: TrainingConfig)
    requires
        width <= usize::MAX,
    ensures
        fit_fault(rows, width, config) matches Some(FitFault::NotFinite { row, feature })
            ==> feature < width,
{
    lemma_row_fault_is_placed(rows, width);
}

/// What passes the check is a table of numbers, as wide as the schema, with
/// both outcomes in it.
pub proof fn law_accepted_rows_can_be_fitted(
    rows: Seq<TrainingRow>,
    width: int,
    config: TrainingConfig,
)
    requires
        fit_fault(rows, width, config) is None,
    ensures
        rows.len() > 0,
        forall|i: int|
            0 <= i < rows.len() ==> (#[trigger] rows[i]).features@.len() == width && forall|k: int|
                0 <= k < width ==> (#[trigger] rows[i].features@[k]).finite(),
        0 < win_count(rows) < rows.len(),
{
    lemma_sound_rows(rows, width);
    lemma_win_count(rows);
}

proof fn lemma_win_count(rows: Seq<TrainingRow>)
    ensures
        win_count(rows) <= rows.len(),
    decreases rows.len(),
{
    if rows.len() > 0 {
        lemma_win_count(rows.drop_last());
    }
}

/// How a list of texts is written in messages: in brackets, each text quoted
/// and escaped.
pub uninterp spec fn quoted_list(list: Seq<Seq<char>>) -> Seq<char>;

/// Writes a list of texts with std's `Debug` formatting, that of
/// `Vec<String>`. The contract claims no more than that the written form is
/// determined by the texts; which form that is, is left unsaid.
#[verifier::external_body]
fn quote_list(list: &Vec<String>) -> (r: String)
    ensures
        r@ == quoted_list(texts(list@)),
{
    format!("{list:?}")
}

/// A model as it is written to a file.
#[derive(Debug)]
pub struct ModelParts {
    /// The format that it was written in.
    pub format_version: u32,
    /// The features that it was fitted on.
    pub features: Vec<String>,
    /// The mean of each feature.
    pub mean: Vec<Measure>,
    /// The spread of each feature.
    pub scale: Vec<Measure>,
    /// The weight of each feature.
    pub weights: Vec<Measure>,
    /// The intercept.
    pub bias: Measure,
    /// What it was fitted from.
    pub training: TrainingMeta,
}

/// Why a model is refused.
#[derive(Clone, Copy, Debug, PartialEq, Eq, Structural)]
pub enum ModelFault {
    /// It is written in another format.
    Version,
    /// It was fitted on other features.
    Features,
    /// It does not have one entry for each feature.
    Shape,
    /// A coefficient is no number, or a spread is nothing.
    NotFinite,
}

/// Every number is finite.
pub open spec fn all_finite(list: Seq<Measure>) -> bool {
    forall|i: int| 0 <= i < list.len() ==> (#[trigger] list[i]).finite()
}

/// Every spread is finite and can be divided by.
pub open spec fn all_spread(list: Seq<Measure>) -> bool {
    forall|i: int|
        0 <= i < list.len() ==> (#[trigger] list[i]).finite() && list[i].position() != 0
}

/// The first reason to refuse a model, given the features that are ranked on.
pub open spec fn model_fault(parts: ModelParts, names: Seq<Seq<char>>) -> Option<ModelFault> {
    let width = parts.features@.len();
    if parts.format_version != PRIORITY_MODEL_FORMAT_VERSION {
        Some(ModelFault::Version)
    } else if texts(parts.features@) != names {
        Some(ModelFault::Features)
    } else if parts.mean@.len() != width || parts.scale@.len() != width || parts.weights@.len()
        != width {
        Some(ModelFault::Shape)
    } else if !parts.bias.finite() || !all_finite(parts.weights@) || !all_finite(parts.mean@)
        || !all_spread(parts.scale@) {
        Some(ModelFault::NotFinite)
    } else {
        None
    }
}

fn are_finite(list: &Vec<Measure>) -> (r: bool)
    ensures
        r == all_finite(list@),
{
    let mut i: usize = 0;
    while i < list.len()
        invariant
            i <= list@.len(),
            forall|k: int| 0 <= k < i ==> (#[trigger] list@[k]).finite(),
        decreases list.len() - i,
    {
        if !list[i].is_finite() {
            return false;
        }
        i += 1;
    }
    true
}

fn are_spread(list: &Vec<Measure>) -> (r: bool)
    ensures
        r == all_spread(list@),
{
    let mut i: usize = 0;
    while i < list.len()
        invariant
            i <= list@.len(),
            forall|k: int|
                0 <= k < i ==> (#[trigger] list@[k]).finite() && list@[k].position() != 0,
        decreases list.len() - i,
    {
        let zero = Measure::zero();
        let spread = list[i];
        if !spread.is_finite() || !(zero.lt(spread) || spread.lt(zero)) {
            assert(!(list@[i as int].finite() && list@[i as int].position() != 0));
            return false;
        }
        i += 1;
    }
    true
}

fn same_texts(a: &Vec<String>, b: &Vec<String>) -> (r: bool)
    ensures
        r == (texts(a@) == texts(b@)),
{
    if a.len() != b.len() {
        assert(texts(a@).len() != texts(b@).len());
        return false;
    }
    let mut i: usize = 0;
    while i < a.len()
        invariant
            i <= a@.len(),
            a@.len() == b@.len(),
            forall|k: int| 0 <= k < i ==> (#[trigger] a@[k])@ == b@[k]@,
        decreases a.len() - i,
    {
        if !same_text(a[i].as_str(), b[i].as_str()) {
            assert(texts(a@)[i as int] != texts(b@)[i as int]);
            return false;
        }
        i += 1;
    }
    assert(texts(a@) =~= texts(b@));
    true
}

impl ModelParts {
    /// Checks a model against the features that are ranked on.
    pub fn validate(&self, names: &Vec<String>) -> (r: Result<(), ModelFault>)
        ensures
            match r {
                Ok(_) => model_fault(*self, texts(names@)) is None,
                Err(fault) => model_fault(*self, texts(names@)) == Some(fault),
            },
    {
        if self.format_version != PRIORITY_MODEL_FORMAT_VERSION {
            return Err(ModelFault::Version);
        }
        if !same_texts(&self.features, names) {
            return Err(ModelFault::Features);
        }
        if self.mean.len() != self.features.len() || self.scale.len() != self.features.len()
            || self.weights.len() != self.features.len() {
            return Err(ModelFault::Shape);
        }
        if !self.bias.is_finite() || !are_finite(&self.weights) || !are_finite(&self.mean)
            || !are_spread(&self.scale) {
            return Err(ModelFault::NotFinite);
        }
        Ok(())
    }

    /// A fault of the model in words.
    pub fn fault_message(&self, fault: ModelFault, names: &Vec<String>) -> (r: String)
        ensures
            r@ == model_fault_text(*self, fault, texts(names@)),
    {
        match fault {
            ModelFault::Version => {
                let mut out = text_of("priority model format version ");
                let found = decimal_text(self.format_version as u64);
                out.append(found.as_str());
                out.append(" is not ");
                let wanted = decimal_text(PRIORITY_MODEL_FORMAT_VERSION as u64);
                out.append(wanted.as_str());
                out.append("; refit it with `train-ordering`");
                out
            },
            ModelFault::Features => {
                let mut out = text_of("priority model was fitted on features ");
                let found = quote_list(&self.features);
                out.append(found.as_str());
                out.append("; this build ranks on ");
                let wanted = quote_list(names);
                out.append(wanted.as_str());
                out.append(" — refit it with `train-ordering`");
                out
            },
            ModelFault::Shape => text_of(
                "priority model is mis-shaped: mean, scale and weights must each carry one entry per feature",
            ),
            ModelFault::NotFinite => text_of("priority model carries a non-finite coefficient"),
        }
    }
}

/// A fault of a model in words.
pub open spec fn model_fault_text(
    parts: ModelParts,
    fault: ModelFault,
    names: Seq<Seq<char>>,
) -> Seq<char> {
    match fault {
        ModelFault::Version => "priority model format version "@ + decimal(
            parts.format_version as nat,
        ) + " is not "@ + decimal(PRIORITY_MODEL_FORMAT_VERSION as nat)
            + "; refit it with `train-ordering`"@,
        ModelFault::Features => "priority model was fitted on features "@ + quoted_list(
            texts(parts.features@),
        ) + "; this build ranks on "@ + quoted_list(names) + " — refit it with `train-ordering`"@,
        ModelFault::Shape =>
            "priority model is mis-shaped: mean, scale and weights must each carry one entry per feature"@,
        ModelFault::NotFinite => "priority model carries a non-finite coefficient"@,
    }
}

/// What descending on rows came to.
#[derive(Debug)]
pub struct Descent {
    /// The mean of each feature.
    pub mean: Vec<Measure>,
    /// The spread of each feature.
    pub scale: Vec<Measure>,
    /// The weight of each feature.
    pub weights: Vec<Measure>,
    /// The intercept.
    pub bias: Measure,
}

/// The model has the coefficients of the descent, the features of the schema,
/// and a record of what it was fitted from.
pub open spec fn fitted_parts(
    parts: ModelParts,
    rows: Seq<TrainingRow>,
    config: TrainingConfig,
    names: Seq<String>,
    crate_version: String,
    descent: Descent,
) -> bool {
    &&& parts.format_version == PRIORITY_MODEL_FORMAT_VERSION
    &&& texts(parts.features@) == texts(names)
    &&& parts.mean == descent.mean
    &&& parts.scale == descent.scale
    &&& parts.weights == descent.weights
    &&& parts.bias == descent.bias
    &&& parts.training.crate_version == crate_version
    &&& parts.training.rows == rows.len()
    &&& parts.training.wins == win_count(rows)
    &&& parts.training.config == config
}

/// A model that can be ranked by: it was checked when it was made.
#[derive(Debug)]
pub struct PriorityModel {
    parts: ModelParts,
}

impl PriorityModel {
    /// What the model is made of.
    pub closed spec fn parts(self) -> ModelParts {
        self.parts
    }

    /// It has one number for each feature, and can be divided by each spread.
    #[verifier::type_invariant]
    spec fn sound(self) -> bool {
        model_fault(self.parts, texts(self.parts.features@)) is None
    }

    /// Loading the parts comes to `r`: the model, or the first fault in words.
    pub open spec fn loads(
        parts: ModelParts,
        names: Seq<Seq<char>>,
        r: Result<PriorityModel, String>,
    ) -> bool {
        match r {
            Ok(model) => model.parts() == parts && model_fault(parts, names) is None,
            Err(message) => exists|fault: ModelFault|
                model_fault(parts, names) == Some(fault) && message@ == #[trigger] model_fault_text(
                    parts,
                    fault,
                    names,
                ),
        }
    }

    /// Takes a model, unless it does not fit the features that are ranked on.
    pub fn load(parts: ModelParts, names: &Vec<String>) -> (r: Result<PriorityModel, String>)
        ensures
            PriorityModel::loads(parts, texts(names@), r),
    {
        match parts.validate(names) {
            Ok(_) => Ok(PriorityModel { parts }),
            Err(fault) => Err(parts.fault_message(fault, names)),
        }
    }

    /// Fitting comes to `r`: the model, or the first fault of the rows, or else
    /// of the coefficients, in words.
    pub open spec fn fits(
        rows: Seq<TrainingRow>,
        config: TrainingConfig,
        names: Seq<String>,
        crate_version: String,
        descent: Descent,
        r: Result<PriorityModel, String>,
    ) -> bool {
        match r {
            Ok(model) => {
                &&& fit_fault(rows, names.len() as int, config) is None
                &&& fitted_parts(model.parts(), rows, config, names, crate_version, descent)
                &&& model_fault(model.parts(), texts(names)) is None
            },
            Err(message) => {
                ||| exists|fault: FitFault|
                    fit_fault(rows, names.len() as int, config) == Some(fault) && message@
                        == #[trigger] fault_text(fault, texts(names), rows.len())
                ||| exists|parts: ModelParts, fault: ModelFault|
                    {
                        &&& fit_fault(rows, names.len() as int, config) is None
                        &&& fitted_parts(parts, rows, config, names, crate_version, descent)
                        &&& model_fault(parts, texts(names)) == Some(fault)
                        &&& message@ == #[trigger] model_fault_text(parts, fault, texts(names))
                    }
            },
        }
    }

    /// Makes a model of what descending on the rows came to. Refuses rows that
    /// cannot be fitted, and coefficients that cannot be ranked by.
    pub fn fit(
        rows: &Vec<TrainingRow>,
        config: TrainingConfig,
        names: &Vec<String>,
        crate_version: String,
        descent: Descent,
    ) -> (r: Result<PriorityModel, String>)
        ensures
            PriorityModel::fits(rows@, config, names@, crate_version, descent, r),
    {
        let wins: usize = match check_fit(rows, names.len(), &config) {
            Ok(wins) => wins,
            Err(fault) => {
                proof {
                    lemma_fault_is_placed(rows@, names@.len() as int, config);
                }
                return Err(fault.message(names, rows.len()));
            },
        };
        let parts = ModelParts {
            format_version: PRIORITY_MODEL_FORMAT_VERSION,
            features: copy_texts(names),
            mean: descent.mean,
            scale: descent.scale,
            weights: descent.weights,
            bias: descent.bias,
            training: TrainingMeta { crate_version, rows: rows.len(), wins, config },
        };
        assert(fitted_parts(parts, rows@, config, names@, crate_version, descent));
        PriorityModel::load(parts, names)
    }

    /// The weight of each feature by its name.
    pub fn coefficients(&self) -> (r: Vec<(String, Measure)>)
        ensures
            r@.len() == self.parts().features@.len(),
            r@.len() == self.parts().weights@.len(),
            forall|i: int|
                0 <= i < r@.len() ==> (#[trigger] r@[i]) == (
                    self.parts().features@[i],
                    self.parts().weights@[i],
                ),
    {
        proof {
            use_type_invariant(self);
        }
        let mut out: Vec<(String, Measure)> = Vec::new();
        let mut i: usize = 0;
        while i < self.parts.features.len()
            invariant
                i <= self.parts.features@.len(),
                self.parts.weights@.len() == self.parts.features@.len(),
                out@.len() == i,
                forall|k: int|
                    0 <= k < i ==> (#[trigger] out@[k]) == (
                        self.parts.features@[k],
                        self.parts.weights@[k],
                    ),
            decreases self.parts.features.len() - i,
        {
            out.push((self.parts.features[i].clone(), self.parts.weights[i]));
            i += 1;
        }
        out
    }

    /// The intercept.
    pub fn bias(&self) -> (r: Measure)
        ensures
            r == self.parts().bias,
    {
        self.parts.bias
    }

    /// The mean of each feature.
    pub fn mean(&self) -> (r: &Vec<Measure>)
        ensures
            *r == self.parts().mean,
    {
        &self.parts.mean
    }

    /// The spread of each feature.
    pub fn scale(&self) -> (r: &Vec<Measure>)
        ensures
            *r == self.parts().scale,
    {
        &self.parts.scale
    }

    /// The weight of each feature.
    pub fn weights(&self) -> (r: &Vec<Measure>)
        ensures
            *r == self.parts().weights,
    {
        &self.parts.weights
    }

    /// What the model was fitted from.
    pub fn training(&self) -> (r: &TrainingMeta)
        ensures
            *r == self.parts().training,
    {
        &self.parts.training
    }

    /// The format that the model was written in.
    pub fn format_version(&self) -> (r: u32)
        ensures
            r == self.parts().format_version,
    {
        self.parts.format_version
    }
}

/// `1e-12` as its bits.
pub const LEAST_PROBABILITY: u64 = 0x3d71_9799_812d_ea11;

/// `1 - 1e-12` as its bits.
pub const MOST_PROBABILITY: u64 = 0x3fef_ffff_ffff_dcd1;

/// A probability kept away from certainty.
pub open spec fn kept_apart(p: Measure) -> Measure {
    if p.below(Measure { bits: LEAST_PROBABILITY }) {
        Measure { bits: LEAST_PROBABILITY }
    } else if (Measure { bits: MOST_PROBABILITY }).below(p) {
        Measure { bits: MOST_PROBABILITY }
    } else {
        p
    }
}

/// Keeps a probability away from certainty.
pub fn keep_apart(p: Measure) -> (r: Measure)
    ensures
        r == kept_apart(p),
{
    let least = Measure { bits: LEAST_PROBABILITY };
    let most = Measure { bits: MOST_PROBABILITY };
    if p.lt(least) {
        least
    } else if most.lt(p) {
        most
    } else {
        p
    }
}

/// Two for a win above a loss, one for a tie.
pub open spec fn pair_points(win: Measure, loss: Measure) -> nat {
    if loss.below(win) {
        2
    } else if loss.at_most(win) && win.at_most(loss) {
        1
    } else {
        0
    }
}

/// The points of a win against every loss.
pub open spec fn row_points(win: Measure, losses: Seq<Measure>) -> nat
    decreases losses.len(),
{
    if losses.len() == 0 {
        0
    } else {
        row_points(win, losses.drop_last()) + pair_points(win, losses.last())
    }
}

/// The points of every win against every loss.
pub open spec fn all_points(wins: Seq<Measure>, losses: Seq<Measure>) -> nat
    decreases wins.len(),
{
    if wins.len() == 0 {
        0
    } else {
        all_points(wins.drop_last(), losses) + row_points(wins.last(), losses)
    }
}

proof fn lemma_row_points(win: Measure, losses: Seq<Measure>)
    ensures
        row_points(win, losses) <= 2 * losses.len(),
    decreases losses.len(),
{
    if losses.len() > 0 {
        lemma_row_points(win, losses.drop_last());
    }
}

/// How wins rank against losses: half the points over the pairs is the chance
/// that a win is ranked above a loss.
#[derive(Clone, Copy, Debug, PartialEq, Eq, Structural)]
pub struct Ranking {
    /// Two for each pair in order, one for each tie.
    pub points: u128,
    /// How many pairs there are.
    pub pairs: usize,
}

/// Ranks wins against losses; without pairs there is nothing to rank.
pub fn auc(wins: &Vec<Measure>, losses: &Vec<Measure>) -> (r: Option<Ranking>)
    requires
        wins@.len() * losses@.len() <= usize::MAX,
    ensures
        match r {
            Some(ranking) => {
                &&& wins@.len() > 0 && losses@.len() > 0
                &&& ranking.points == all_points(wins@, losses@)
                &&& ranking.pairs == wins@.len() * losses@.len()
            },
            None => wins@.len() == 0 || losses@.len() == 0,
        },
{
    if wins.len() == 0 || losses.len() == 0 {
        return None;
    }
    let width: usize = losses.len();
    let mut points: u128 = 0;
    let mut i: usize = 0;
    assert(wins@.take(0) =~= Seq::empty());
    while i < wins.len()
        invariant
            i <= wins@.len(),
            width == losses@.len(),
            points == all_points(wins@.take(i as int), losses@),
            points <= 2 * i * width,
            wins@.len() * width <= usize::MAX,
        decreases wins.len() - i,
    {
        let win = wins[i];
        let mut row: u128 = 0;
        let mut k: usize = 0;
        assert(losses@.take(0) =~= Seq::empty());
        while k < losses.len()
            invariant
                k <= losses@.len(),
                losses@.len() <= usize::MAX,
                row == row_points(win, losses@.take(k as int)),
                row <= 2 * k,
            decreases losses.len() - k,
        {
            proof {
                assert(losses@.take(k + 1).drop_last() =~= losses@.take(k as int));
                assert(losses@.take(k + 1).last() == losses@[k as int]);
            }
            let loss = losses[k];
            if loss.lt(win) {
                row += 2;
            } else if loss.le(win) && win.le(loss) {
                row += 1;
            }
            k += 1;
        }
        proof {
            assert(losses@.take(k as int) =~= losses@);
            assert(wins@.take(i + 1).drop_last() =~= wins@.take(i as int));
            assert(wins@.take(i + 1).last() == win);
            assert(2 * i * width + 2 * width == 2 * (i + 1) * width) by (nonlinear_arith);
            assert(2 * (i + 1) * width <= 2 * (wins@.len() * width)) by (nonlinear_arith)
                requires
                    i + 1 <= wins@.len(),
            ;
        }
        points += row;
        i += 1;
    }
    assert(wins@.take(i as int) =~= wins@);
    let pairs: usize = wins.len() * losses.len();
    Some(Ranking { points, pairs })
}

/// How a model did on rows.
#[derive(Debug)]
pub struct EvaluationCounts {
    /// The probabilities of the rows that won.
    pub wins: Vec<Measure>,
    /// The probabilities of the rows that lost.
    pub losses: Vec<Measure>,
    /// How many rows the model told right.
    pub correct: usize,
}

/// The probabilities of the rows with an outcome, in order.
pub open spec fn with_outcome(rows: Seq<TrainingRow>, p: Seq<Measure>, win: bool) -> Seq<Measure>
    decreases rows.len(),
{
    if rows.len() == 0 {
        Seq::empty()
    } else {
        let before = with_outcome(rows.drop_last(), p, win);
        if rows.last().win == win {
            before.push(p[rows.len() - 1])
        } else {
            before
        }
    }
}

/// How many rows are told right: a win by more than a half, a loss by less.
pub open spec fn told_right(rows: Seq<TrainingRow>, p: Seq<Measure>) -> nat
    decreases rows.len(),
{
    if rows.len() == 0 {
        0
    } else {
        told_right(rows.drop_last(), p) + if (Measure { bits: HALF_BITS }).below(
            p[rows.len() - 1],
        ) == rows.last().win {
            1nat
        } else {
            0nat
        }
    }
}

/// Holds the probabilities that a model gave against what became of the rows.
pub fn evaluate(rows: &Vec<TrainingRow>, probabilities: &Vec<Measure>) -> (r: EvaluationCounts)
    requires
        rows@.len() == probabilities@.len(),
    ensures
        r.wins@ == with_outcome(rows@, probabilities@, true),
        r.losses@ == with_outcome(rows@, probabilities@, false),
        r.correct == told_right(rows@, probabilities@),
        r.wins@.len() + r.losses@.len() == rows@.len(),
        r.wins@.len() == win_count(rows@),
{
    let mut wins: Vec<Measure> = Vec::new();
    let mut losses: Vec<Measure> = Vec::new();
    let mut correct: usize = 0;
    let mut i: usize = 0;
    assert(rows@.take(0) =~= Seq::empty());
    while i < rows.len()
        invariant
            i <= rows@.len(),
            rows@.len() == probabilities@.len(),
            wins@ == with_outcome(rows@.take(i as int), probabilities@, true),
            losses@ == with_outcome(rows@.take(i as int), probabilities@, false),
            correct == told_right(rows@.take(i as int), probabilities@),
            correct <= i,
            wins@.len() + losses@.len() == i,
            wins@.len() == win_count(rows@.take(i as int)),
        decreases rows.len() - i,
    {
        proof {
            assert(rows@.take(i + 1).drop_last() =~= rows@.take(i as int));
            assert(rows@.take(i + 1).last() == rows@[i as int]);
        }
        let p = probabilities[i];
        let half = Measure { bits: HALF_BITS };
        if half.lt(p) == rows[i].win {
            correct += 1;
        }
        if rows[i].win {
            wins.push(p);
        } else {
            losses.push(p);
        }
        i += 1;
    }
    assert(rows@.take(i as int) =~= rows@);
    EvaluationCounts { wins, losses, correct }
}

proof fn lemma_pair_points_mirror(a: Measure, b: Measure)
    requires
        !a.nan(),
        !b.nan(),
    ensures
        pair_points(a, b) + pair_points(b, a) == 2,
{
}

/// No number of the list is a NaN.
pub open spec fn all_ordered(list: Seq<Measure>) -> bool {
    forall|i: int| 0 <= i < list.len() ==> !(#[trigger] list[i]).nan()
}

proof fn lemma_mirror_row(win: Measure, wins: Seq<Measure>, losses: Seq<Measure>)
    requires
        !win.nan(),
        all_ordered(losses),
    ensures
        row_points(win, losses) + all_points(losses, wins.push(win)) == all_points(losses, wins) + 2
            * losses.len(),
    decreases losses.len(),
{
    if losses.len() > 0 {
        let init = losses.drop_last();
        assert(all_ordered(init)) by {
            assert forall|i: int| 0 <= i < init.len() implies !(#[trigger] init[i]).nan() by {
                assert(init[i] == losses[i]);
            }
        }
        lemma_mirror_row(win, wins, init);
        let last = losses.last();
        assert(losses[losses.len() - 1] == last);
        lemma_pair_points_mirror(win, last);
        assert(wins.push(win).drop_last() =~= wins);
        assert(row_points(last, wins.push(win)) == row_points(last, wins) + pair_points(last, win));
    }
}

/// Ranking losses against wins mirrors ranking wins against losses: together
/// the points make two for each pair.
pub proof fn law_ranking_mirrors(wins: Seq<Measure>, losses: Seq<Measure>)
    requires
        all_ordered(wins),
        all_ordered(losses),
    ensures
        all_points(wins, losses) + all_points(losses, wins) == 2 * wins.len() * losses.len(),
    decreases wins.len(),
{
    if wins.len() == 0 {
        assert(wins =~= Seq::empty());
        lemma_no_points(losses);
        assert(2 * wins.len() * losses.len() == 0) by (nonlinear_arith)
            requires
                wins.len() == 0,
        ;
    } else {
        let init = wins.drop_last();
        let last = wins.last();
        assert(all_ordered(init)) by {
            assert forall|i: int| 0 <= i < init.len() implies !(#[trigger] init[i]).nan() by {
                assert(init[i] == wins[i]);
            }
        }
        assert(wins[wins.len() - 1] == last);
        law_ranking_mirrors(init, losses);
        lemma_mirror_row(last, init, losses);
        assert(init.push(last) =~= wins);
        assert(2 * init.len() * losses.len() + 2 * losses.len() == 2 * wins.len() * losses.len())
            by (nonlinear_arith)
            requires
                init.len() + 1 == wins.len(),
        ;
    }
}

proof fn lemma_no_points(losses: Seq<Measure>)
    ensures
        all_points(losses, Seq::empty()) == 0,
    decreases losses.len(),
{
    if losses.len() > 0 {
        lemma_no_points(losses.drop_last());
    }
}

/// The points never exceed two for each pair, so the chance is at most one.
pub proof fn law_ranking_is_a_chance(wins: Seq<Measure>, losses: Seq<Measure>)
    ensures
        all_points(wins, losses) <= 2 * wins.len() * losses.len(),
    decreases wins.len(),
{
    if wins.len() > 0 {
        law_ranking_is_a_chance(wins.drop_last(), losses);
        lemma_row_points(wins.last(), losses);
        assert(2 * wins.drop_last().len() * losses.len() + 2 * losses.len() == 2 * wins.len()
            * losses.len()) by (nonlinear_arith)
            requires
                wins.drop_last().len() + 1 == wins.len(),
        ;
    }
}

/// A fitted model loads again, and is the same model. Parts that differ from it
/// in a feature's name or in the format's number do not load.
pub proof fn law_fitted_models_load_again(
    rows: Seq<TrainingRow>,
    config: TrainingConfig,
    names: Seq<String>,
    crate_version: String,
    descent: Descent,
    model: PriorityModel,
    again: Result<PriorityModel, String>,
    other: ModelParts,
    changed: Result<PriorityModel, String>,
)
    requires
        PriorityModel::fits(rows, config, names, crate_version, descent, Ok(model)),
        PriorityModel::loads(model.parts(), texts(names), again),
        PriorityModel::loads(other, texts(names), changed),
    ensures
        again == Ok::<PriorityModel, String>(model),
        texts(other.features@) != texts(model.parts().features@) ==> changed is Err,
        other.format_version != model.parts().format_version ==> changed is Err,
{
}

/// What the rows hold.
pub open spec fn row_values(rows: Seq<TrainingRow>) -> Seq<(Seq<Measure>, bool)> {
    Seq::new(rows.len(), |i: int| (rows[i].features@, rows[i].win))
}

spec fn won(values: Seq<(Seq<Measure>, bool)>) -> nat
    decreases values.len(),
{
    if values.len() == 0 {
        0
    } else {
        won(values.drop_last()) + if values.last().1 {
            1nat
        } else {
            0nat
        }
    }
}

proof fn lemma_wins_by_value(rows: Seq<TrainingRow>)
    ensures
        win_count(rows) == won(row_values(rows)),
    decreases rows.len(),
{
    if rows.len() > 0 {
        lemma_wins_by_value(rows.drop_last());
        assert(row_values(rows).drop_last() =~= row_values(rows.drop_last()));
    }
}

proof fn lemma_one_won_less(values: Seq<(Seq<Measure>, bool)>, at: int)
    requires
        0 <= at < values.len(),
    ensures
        won(values) == won(values.remove(at)) + if values[at].1 {
            1nat
        } else {
            0nat
        },
    decreases values.len(),
{
    if at == values.len() - 1 {
        assert(values.remove(at) =~= values.drop_last());
    } else {
        lemma_one_won_less(values.drop_last(), at);
        assert(values.remove(at).drop_last() =~= values.drop_last().remove(at));
        assert(values.remove(at).last() == values.last());
    }
}

proof fn lemma_wins_of_a_multiset(a: Seq<(Seq<Measure>, bool)>, b: Seq<(Seq<Measure>, bool)>)
    requires
        a.to_multiset() == b.to_multiset(),
    ensures
        won(a) == won(b),
    decreases a.len(),
{
    a.to_multiset_ensures();
    b.to_multiset_ensures();
    if a.len() > 0 {
        let n = a.len() - 1;
        assert(a.contains(a[n]));
        assert(b.to_multiset().count(a[n]) > 0);
        let at = choose|at: int| 0 <= at < b.len() && b[at] == a[n];
        assert(a.remove(n).to_multiset() == b.remove(at).to_multiset());
        lemma_one_won_less(a, n);
        lemma_one_won_less(b, at);
        lemma_wins_of_a_multiset(a.remove(n), b.remove(at));
    }
}

proof fn lemma_sound_rows_have_no_fault(rows: Seq<TrainingRow>, width: int)
    requires
        forall|i: int|
            0 <= i < rows.len() ==> (#[trigger] rows[i]).features@.len() == width && forall|k: int|
                0 <= k < width ==> (#[trigger] rows[i].features@[k]).finite(),
    ensures
        first_row_fault(rows, width) is None,
    decreases rows.len(),
{
    if rows.len() > 0 {
        let init = rows.drop_last();
        let last = rows[rows.len() - 1];
        assert forall|i: int| 0 <= i < init.len() implies (#[trigger] init[i]).features@.len()
            == width && forall|k: int|
            0 <= k < width ==> (#[trigger] init[i].features@[k]).finite() by {
            assert(init[i] == rows[i]);
        }
        lemma_sound_rows_have_no_fault(init, width);
        lemma_bad_feature(last.features@);
        assert(last.features@.len() == width);
    }
}

/// The order of the rows does not matter: where rows can be fitted, the same rows
/// in another order can, and with the same descent the fit comes to the same
/// model.
pub proof fn law_row_order_does_not_matter(
    rows: Seq<TrainingRow>,
    reordered: Seq<TrainingRow>,
    config: TrainingConfig,
    names: Seq<String>,
    crate_version: String,
    descent: Descent,
    model: PriorityModel,
    again: Result<PriorityModel, String>,
)
    requires
        row_values(rows).to_multiset() == row_values(reordered).to_multiset(),
        PriorityModel::fits(rows, config, names, crate_version, descent, Ok(model)),
        PriorityModel::fits(reordered, config, names, crate_version, descent, again),
    ensures
        PriorityModel::fits(reordered, config, names, crate_version, descent, Ok(model)),
        again matches Ok(other) && {
            let a = model.parts();
            let b = other.parts();
            &&& a.format_version == b.format_version
            &&& texts(a.features@) == texts(b.features@)
            &&& a.mean == b.mean
            &&& a.scale == b.scale
            &&& a.weights == b.weights
            &&& a.bias == b.bias
            &&& a.training == b.training
        },
{
    let width = names.len() as int;
    let a = row_values(rows);
    let b = row_values(reordered);
    a.to_multiset_ensures();
    b.to_multiset_ensures();
    assert(rows.len() == reordered.len());
    lemma_sound_rows(rows, width);
    assert forall|i: int| 0 <= i < reordered.len() implies (#[trigger] reordered[i]).features@.len()
        == width && forall|k: int|
        0 <= k < width ==> (#[trigger] reordered[i].features@[k]).finite() by {
        assert(b.contains(b[i]));
        assert(a.to_multiset().count(b[i]) > 0);
        let j = choose|j: int| 0 <= j < a.len() && a[j] == b[i];
        assert(rows[j].features@ == reordered[i].features@);
        assert forall|k: int| 0 <= k < width implies (
        #[trigger] reordered[i].features@[k]).finite() by {
            assert(rows[j].features@[k].finite());
        }
    }
    lemma_sound_rows_have_no_fault(reordered, width);
    lemma_wins_of_a_multiset(a, b);
    lemma_wins_by_value(rows);
    lemma_wins_by_value(reordered);
    if let Err(_) = again {
        let (parts, fault) = choose|parts: ModelParts, fault: ModelFault|
            {
                &&& fit_fault(reordered, names.len() as int, config) is None
                &&& fitted_parts(parts, reordered, config, names, crate_version, descent)
                &&& model_fault(parts, texts(names)) == Some(fault)
            };
        assert(texts(parts.features@).len() == texts(model.parts().features@).len());
        assert(model_fault(parts, texts(names)) == model_fault(model.parts(), texts(names)));
    }
}

/// The rows that won are counted.
pub proof fn law_wins_are_counted(rows: Seq<TrainingRow>, marks: Seq<bool>)
    requires
        marks.len() == rows.len(),
        forall|i: int| 0 <= i < marks.len() ==> (#[trigger] marks[i] <==> rows[i].win),
    ensures
        win_count(rows) == true_places(marks).len(),
    decreases rows.len(),
{
    if rows.len() > 0 {
        let init = rows.drop_last();
        let some = marks.drop_last();
        let n = rows.len() - 1;
        assert forall|i: int| 0 <= i < some.len() implies (#[trigger] some[i] <==> init[i].win) by {
            assert(some[i] == marks[i]);
            assert(init[i] == rows[i]);
        }
        law_wins_are_counted(init, some);
        assert(marks[n] <==> rows[n].win);
    }
}

/// The probabilities of the rows with an outcome, in order.
pub proof fn law_outcomes_are_told_apart(
    rows: Seq<TrainingRow>,
    p: Seq<Measure>,
    win: bool,
    marks: Seq<bool>,
)
    requires
        marks.len() == rows.len(),
        forall|i: int| 0 <= i < marks.len() ==> (#[trigger] marks[i] <==> rows[i].win == win),
    ensures
        with_outcome(rows, p, win).len() == true_places(marks).len(),
        forall|k: int|
            0 <= k < true_places(marks).len() ==> (#[trigger] with_outcome(rows, p, win)[k])
                == p[true_places(marks)[k]],
    decreases rows.len(),
{
    if rows.len() > 0 {
        let init = rows.drop_last();
        let some = marks.drop_last();
        let n = rows.len() - 1;
        assert forall|i: int| 0 <= i < some.len() implies (#[trigger] some[i]
            <==> init[i].win == win) by {
            assert(some[i] == marks[i]);
            assert(init[i] == rows[i]);
        }
        law_outcomes_are_told_apart(init, p, win, some);
        assert(marks[n] <==> rows[n].win == win);
        law_true_places_ascend(some);
        let before = with_outcome(init, p, win);
        let after = with_outcome(rows, p, win);
        let was = true_places(some);
        let now = true_places(marks);
        assert forall|k: int| 0 <= k < now.len() implies (#[trigger] after[k]) == p[now[k]] by {
            if k < was.len() {
                assert(now[k] == was[k]);
                assert(0 <= was[k] < some.len());
                assert(init[was[k]] == rows[was[k]]);
                assert(after[k] == before[k]);
            }
        }
    }
}

/// A row is told right exactly if its probability is above a half and it won, or it is
/// not and it lost.
pub proof fn law_right_guesses_are_counted(
    rows: Seq<TrainingRow>,
    p: Seq<Measure>,
    marks: Seq<bool>,
)
    requires
        marks.len() == rows.len(),
        forall|i: int| 0 <= i < marks.len() ==> (#[trigger] marks[i] <==> ((!p[i].nan()
            && p[i].position() > 0x3fe0_0000_0000_0000) == rows[i].win)),
    ensures
        told_right(rows, p) == true_places(marks).len(),
    decreases rows.len(),
{
    if rows.len() > 0 {
        let init = rows.drop_last();
        let some = marks.drop_last();
        let n = rows.len() - 1;
        assert forall|i: int| 0 <= i < some.len() implies (#[trigger] some[i] <==> ((!p[i].nan()
            && p[i].position() > 0x3fe0_0000_0000_0000) == init[i].win)) by {
            assert(some[i] == marks[i]);
            assert(init[i] == rows[i]);
        }
        law_right_guesses_are_counted(init, p, some);
        assert(marks[n] <==> ((!p[n].nan() && p[n].position() > 0x3fe0_0000_0000_0000)
            == rows[n].win));
    }
}

proof fn lemma_some_won(rows: Seq<TrainingRow>)
    ensures
        win_count(rows) <= rows.len(),
        win_count(rows) > 0 <==> exists|i: int| 0 <= i < rows.len() && (#[trigger] rows[i]).win,
        win_count(rows) < rows.len() <==> exists|i: int|
            0 <= i < rows.len() && !(#[trigger] rows[i]).win,
    decreases rows.len(),
{
    if rows.len() > 0 {
        let init = rows.drop_last();
        lemma_some_won(init);
        let n = rows.len() - 1;
        assert(rows[n] == rows.last());
        if win_count(init) > 0 {
            let i = choose|i: int| 0 <= i < init.len() && (#[trigger] init[i]).win;
            assert(rows[i].win);
        }
        if win_count(init) < init.len() {
            let i = choose|i: int| 0 <= i < init.len() && !(#[trigger] init[i]).win;
            assert(!rows[i].win);
        }
        if exists|i: int| 0 <= i < rows.len() && (#[trigger] rows[i]).win {
            let i = choose|i: int| 0 <= i < rows.len() && (#[trigger] rows[i]).win;
            if i < n {
                assert(init[i].win);
            }
        }
        if exists|i: int| 0 <= i < rows.len() && !(#[trigger] rows[i]).win {
            let i = choose|i: int| 0 <= i < rows.len() && !(#[trigger] rows[i]).win;
            if i < n {
                assert(!init[i].win);
            }
        }
    }
}

/// Rows are fitted exactly if there are some, each as wide as the schema and all of
/// finite numbers, some of them won and some lost, and the passes, the rate and the
/// penalty make sense.
pub proof fn law_rows_are_fitted_exactly_if_they_teach(
    rows: Seq<TrainingRow>,
    width: int,
    config: TrainingConfig,
)
    ensures
        fit_fault(rows, width, config) is None <==> {
            &&& rows.len() > 0
            &&& forall|i: int|
                0 <= i < rows.len() ==> (#[trigger] rows[i]).features@.len() == width
                    && forall|k: int|
                    0 <= k < width ==> (#[trigger] rows[i].features@[k]).magnitude()
                        < 0x7FF0_0000_0000_0000
            &&& exists|i: int| 0 <= i < rows.len() && (#[trigger] rows[i]).win
            &&& exists|i: int| 0 <= i < rows.len() && !(#[trigger] rows[i]).win
            &&& config.epochs > 0
            &&& config.learning_rate.magnitude() < 0x7FF0_0000_0000_0000
                && config.learning_rate.position() > 0
            &&& config.l2.magnitude() < 0x7FF0_0000_0000_0000 && config.l2.position() >= 0
        },
{
    lemma_some_won(rows);
    if first_row_fault(rows, width) is None {
        lemma_sound_rows(rows, width);
    }
    if forall|i: int|
        0 <= i < rows.len() ==> (#[trigger] rows[i]).features@.len() == width && forall|k: int|
            0 <= k < width ==> (#[trigger] rows[i].features@[k]).magnitude()
                < 0x7FF0_0000_0000_0000 {
        assert forall|i: int| 0 <= i < rows.len() implies (#[trigger] rows[i]).features@.len()
            == width && forall|k: int|
            0 <= k < width ==> (#[trigger] rows[i].features@[k]).finite() by {
            assert forall|k: int| 0 <= k < width implies (
            #[trigger] rows[i].features@[k]).finite() by {
                assert(rows[i].features@[k].magnitude() < 0x7FF0_0000_0000_0000);
            }
        }
        lemma_sound_rows_have_no_fault(rows, width);
    }
    if fit_fault(rows, width, config) is None {
        assert forall|i: int| 0 <= i < rows.len() implies (#[trigger] rows[i]).features@.len()
            == width && forall|k: int|
            0 <= k < width ==> (#[trigger] rows[i].features@[k]).magnitude()
                < 0x7FF0_0000_0000_0000 by {
            assert forall|k: int| 0 <= k < width implies (
            #[trigger] rows[i].features@[k]).magnitude() < 0x7FF0_0000_0000_0000 by {
                assert(rows[i].features@[k].finite());
            }
        }
    }
}

/// What is told of a faulty row is told of the first one: its width, or the first of
/// its values that is no number.
pub proof fn law_first_faulty_row_is_told(rows: Seq<TrainingRow>, width: int, fault: FitFault)
    requires
        first_row_fault(rows, width) == Some(fault),
        rows.len() <= usize::MAX,
        width <= usize::MAX,
        forall|i: int| 0 <= i < rows.len() ==> (#[trigger] rows[i]).features@.len() <= usize::MAX,
    ensures
        match fault {
            FitFault::Width { row, found } => {
                &&& row < rows.len()
                &&& rows[row as int].features@.len() == found
                &&& found != width
                &&& first_row_fault(rows.take(row as int), width) is None
            },
            FitFault::NotFinite { row, feature } => {
                &&& row < rows.len()
                &&& rows[row as int].features@.len() == width
                &&& feature < width
                &&& rows[row as int].features@[feature as int].magnitude()
                    >= 0x7FF0_0000_0000_0000
                &&& forall|k: int|
                    0 <= k < feature ==> (
                    #[trigger] rows[row as int].features@[k]).magnitude() < 0x7FF0_0000_0000_0000
                &&& first_row_fault(rows.take(row as int), width) is None
            },
            _ => false,
        },
    decreases rows.len(),
{
    if rows.len() > 0 {
        let init = rows.drop_last();
        let n = rows.len() - 1;
        if first_row_fault(init, width) is Some {
            assert forall|i: int| 0 <= i < init.len() implies (
            #[trigger] init[i]).features@.len() <= usize::MAX by {
                assert(init[i] == rows[i]);
            }
            law_first_faulty_row_is_told(init, width, fault);
            match fault {
                FitFault::Width { row, .. } => {
                    assert(init.take(row as int) =~= rows.take(row as int));
                    assert(init[row as int] == rows[row as int]);
                },
                FitFault::NotFinite { row, .. } => {
                    assert(init.take(row as int) =~= rows.take(row as int));
                    assert(init[row as int] == rows[row as int]);
                },
                _ => {},
            }
        } else {
            assert(rows.take(n) =~= init);
            assert(rows[n] == rows.last());
            assert(rows[n].features@.len() <= usize::MAX);
            lemma_bad_feature(rows.last().features@);
            lemma_first_bad_feature(rows.last().features@);
        }
    }
}

proof fn lemma_first_bad_feature(features: Seq<Measure>)
    ensures
        bad_feature(features) matches Some(at) ==> forall|k: int|
            0 <= k < at ==> (#[trigger] features[k]).finite(),
    decreases features.len(),
{
    if features.len() > 0 {
        let init = features.drop_last();
        lemma_first_bad_feature(init);
        lemma_bad_feature(init);
        assert(forall|k: int| 0 <= k < init.len() ==> #[trigger] init[k] == features[k]);
        match bad_feature(init) {
            Some(at) => {
                assert forall|k: int| 0 <= k < at implies (#[trigger] features[k]).finite() by {
                    assert(init[k] == features[k]);
                }
            },
            None => {
                assert forall|k: int| 0 <= k < init.len() implies (
                #[trigger] features[k]).finite() by {
                    assert(init[k] == features[k]);
                }
            },
        }
    }
}

/// A model is accepted exactly if it is of this format and of these features, holds
/// one mean, one spread and one weight for each, and all of them and the intercept
/// are finite numbers, with no spread of zero.
pub proof fn law_models_are_accepted_exactly_if_they_can_rank(
    parts: ModelParts,
    names: Seq<Seq<char>>,
)
    ensures
        model_fault(parts, names) is None <==> {
            let n = parts.features@.len();
            &&& parts.format_version == 1
            &&& texts(parts.features@) == names
            &&& parts.mean@.len() == n && parts.scale@.len() == n && parts.weights@.len() == n
            &&& parts.bias.magnitude() < 0x7FF0_0000_0000_0000
            &&& forall|i: int|
                0 <= i < n ==> (#[trigger] parts.weights@[i]).magnitude() < 0x7FF0_0000_0000_0000
            &&& forall|i: int|
                0 <= i < n ==> (#[trigger] parts.mean@[i]).magnitude() < 0x7FF0_0000_0000_0000
            &&& forall|i: int|
                0 <= i < n ==> 0 < (#[trigger] parts.scale@[i]).magnitude()
                    < 0x7FF0_0000_0000_0000
        },
{
    let n = parts.features@.len();
    if model_fault(parts, names) is None {
        assert forall|i: int| 0 <= i < n implies (#[trigger] parts.weights@[i]).magnitude()
            < 0x7FF0_0000_0000_0000 by {
            assert(parts.weights@[i].finite());
        }
        assert forall|i: int| 0 <= i < n implies (#[trigger] parts.mean@[i]).magnitude()
            < 0x7FF0_0000_0000_0000 by {
            assert(parts.mean@[i].finite());
        }
        assert forall|i: int| 0 <= i < n implies 0 < (#[trigger] parts.scale@[i]).magnitude()
            < 0x7FF0_0000_0000_0000 by {
            assert(parts.scale@[i].finite() && parts.scale@[i].position() != 0);
        }
    } else if parts.mean@.len() == n && parts.scale@.len() == n && parts.weights@.len() == n {
        if forall|i: int|
            0 <= i < n ==> (#[trigger] parts.weights@[i]).magnitude() < 0x7FF0_0000_0000_0000 {
            assert(all_finite(parts.weights@));
        }
        if forall|i: int|
            0 <= i < n ==> (#[trigger] parts.mean@[i]).magnitude() < 0x7FF0_0000_0000_0000 {
            assert(all_finite(parts.mean@));
        }
        if forall|i: int|
            0 <= i < n ==> 0 < (#[trigger] parts.scale@[i]).magnitude() < 0x7FF0_0000_0000_0000 {
            assert(all_spread(parts.scale@));
        }
    }
}

/// A fitted model is the descent's, under the names of the features, with a record
/// of how many rows it saw and how many of them won.
pub proof fn law_fits_keep_the_descent(
    rows: Seq<TrainingRow>,
    config: TrainingConfig,
    names: Seq<String>,
    crate_version: String,
    descent: Descent,
    model: PriorityModel,
    marks: Seq<bool>,
)
    requires
        PriorityModel::fits(rows, config, names, crate_version, descent, Ok(model)),
        marks.len() == rows.len(),
        forall|i: int| 0 <= i < marks.len() ==> (#[trigger] marks[i] <==> rows[i].win),
    ensures
        model.parts().mean == descent.mean,
        model.parts().scale == descent.scale,
        model.parts().weights == descent.weights,
        model.parts().bias == descent.bias,
        texts(model.parts().features@) == texts(names),
        model.parts().training.rows == rows.len(),
        model.parts().training.wins == true_places(marks).len(),
        model.parts().training.config == config,
        model.parts().training.crate_version == crate_version,
{
    law_wins_are_counted(rows, marks);
}

/// A probability is kept within its bounds, and left alone inside them.
pub proof fn law_probabilities_stay_apart_from_certainty(p: Measure)
    ensures
        !p.nan() ==> 0x3d71_9799_812d_ea11 <= kept_apart(p).position() <= 0x3fef_ffff_ffff_dcd1,
        p.nan() || 0x3d71_9799_812d_ea11 <= p.position() <= 0x3fef_ffff_ffff_dcd1 ==> kept_apart(p)
            == p,
        !p.nan() && p.position() < 0x3d71_9799_812d_ea11 ==> kept_apart(p).position()
            == 0x3d71_9799_812d_ea11,
        !p.nan() && p.position() > 0x3fef_ffff_ffff_dcd1 ==> kept_apart(p).position()
            == 0x3fef_ffff_ffff_dcd1,
{
}

/// Every pair of a win and a loss counts two where the win ranks higher, one where
/// they are level, and nothing otherwise; the points of lists add up.
pub proof fn law_pairs_are_counted(win: Measure, loss: Measure)
    requires
        !win.nan(),
        !loss.nan(),
    ensures
        all_points(seq![win], seq![loss]) == if win.position() > loss.position() {
            2nat
        } else if win.position() == loss.position() {
            1
        } else {
            0
        },
{
    reveal_with_fuel(all_points, 2);
    reveal_with_fuel(row_points, 2);
    assert(seq![win].drop_last() =~= Seq::empty());
    assert(seq![loss].drop_last() =~= Seq::empty());
    assert(seq![win].last() == win && seq![loss].last() == loss);
}

/// The points of two lists of wins add up, and so do those against two lists of
/// losses.
pub proof fn law_points_add_up(
    a: Seq<Measure>,
    b: Seq<Measure>,
    losses: Seq<Measure>,
    more: Seq<Measure>,
)
    ensures
        all_points(a + b, losses) == all_points(a, losses) + all_points(b, losses),
        all_points(a, losses + more) == all_points(a, losses) + all_points(a, more),
    decreases a.len() + b.len(),
{
    if b.len() > 0 {
        law_points_add_up(a, b.drop_last(), losses, more);
        assert((a + b).drop_last() =~= a + b.drop_last());
        assert((a + b).last() == b.last());
    } else {
        assert(a + b =~= a);
        if a.len() > 0 {
            law_points_add_up(a.drop_last(), b, losses, more);
            lemma_row_points_add(a.last(), losses, more);
        }
    }
}

proof fn lemma_row_points_add(win: Measure, a: Seq<Measure>, b: Seq<Measure>)
    ensures
        row_points(win, a + b) == row_points(win, a) + row_points(win, b),
    decreases b.len(),
{
    if b.len() == 0 {
        assert(a + b =~= a);
    } else {
        lemma_row_points_add(win, a, b.drop_last());
        assert((a + b).drop_last() =~= a + b.drop_last());
        assert((a + b).last() == b.last());
    }
}

/// Fitting succeeds wherever the rows teach something and the descent came to numbers
/// that can be ranked by, one for each feature.
pub proof fn law_sound_fits_succeed(
    rows: Seq<TrainingRow>,
    config: TrainingConfig,
    names: Seq<String>,
    crate_version: String,
    descent: Descent,
    r: Result<PriorityModel, String>,
)
    requires
        PriorityModel::fits(rows, config, names, crate_version, descent, r),
        rows.len() > 0,
        forall|i: int|
            0 <= i < rows.len() ==> (#[trigger] rows[i]).features@.len() == names.len()
                && forall|k: int|
                0 <= k < names.len() ==> (#[trigger] rows[i].features@[k]).magnitude()
                    < 0x7FF0_0000_0000_0000,
        exists|i: int| 0 <= i < rows.len() && (#[trigger] rows[i]).win,
        exists|i: int| 0 <= i < rows.len() && !(#[trigger] rows[i]).win,
        config.epochs > 0,
        config.learning_rate.magnitude() < 0x7FF0_0000_0000_0000,
        config.learning_rate.position() > 0,
        config.l2.magnitude() < 0x7FF0_0000_0000_0000,
        config.l2.position() >= 0,
        descent.bias.magnitude() < 0x7FF0_0000_0000_0000,
        descent.mean@.len() == names.len(),
        descent.scale@.len() == names.len(),
        descent.weights@.len() == names.len(),
        forall|i: int|
            0 <= i < names.len() ==> (#[trigger] descent.weights@[i]).magnitude()
                < 0x7FF0_0000_0000_0000,
        forall|i: int|
            0 <= i < names.len() ==> (#[trigger] descent.mean@[i]).magnitude()
                < 0x7FF0_0000_0000_0000,
        forall|i: int|
            0 <= i < names.len() ==> 0 < (#[trigger] descent.scale@[i]).magnitude()
                < 0x7FF0_0000_0000_0000,
    ensures
        r is Ok,
{
    law_rows_are_fitted_exactly_if_they_teach(rows, names.len() as int, config);
    if let Err(message) = r {
        let (parts, fault) = choose|parts: ModelParts, fault: ModelFault|
            {
                &&& fit_fault(rows, names.len() as int, config) is None
                &&& fitted_parts(parts, rows, config, names, crate_version, descent)
                &&& model_fault(parts, texts(names)) == Some(fault)
                &&& message@ == #[trigger] model_fault_text(parts, fault, texts(names))
            };
        assert(texts(parts.features@).len() == parts.features@.len());
        assert(texts(names).len() == names.len());
        law_models_are_accepted_exactly_if_they_can_rank(parts, texts(names));
    }
}

/// Loading takes exactly the models that can rank, and takes them as they are.
pub proof fn law_loading_takes_what_can_rank(
    parts: ModelParts,
    names: Seq<Seq<char>>,
    r: Result<PriorityModel, String>,
)
    requires
        PriorityModel::loads(parts, names, r),
    ensures
        r is Ok <==> model_fault(parts, names) is None,
        r matches Ok(model) ==> model.parts() == parts,
{
}

/// The first thing that is wrong is told: no rows, then a faulty row, then rows that
/// all won or all lost, with how many won, then the passes, the rate and the penalty.
pub proof fn law_fit_faults_are_told_in_order(
    rows: Seq<TrainingRow>,
    width: int,
    config: TrainingConfig,
    marks: Seq<bool>,
)
    requires
        rows.len() <= usize::MAX,
        marks.len() == rows.len(),
        forall|i: int| 0 <= i < marks.len() ==> (#[trigger] marks[i] <==> rows[i].win),
    ensures
        ({
            let fault = fit_fault(rows, width, config);
            let wins = true_places(marks).len();
            let rate = config.learning_rate;
            let sound = rows.len() > 0 && first_row_fault(rows, width) is None;
            let mixed = sound && 0 < wins < rows.len();
            let rated = mixed && config.epochs > 0 && rate.magnitude() < 0x7FF0_0000_0000_0000
                && rate.position() > 0;
            &&& rows.len() == 0 ==> fault == Some(FitFault::NoRows)
            &&& rows.len() > 0 && first_row_fault(rows, width) is Some ==> fault
                == first_row_fault(rows, width)
            &&& sound && !mixed ==> fault == Some(FitFault::OneOutcome { wins: wins as usize })
            &&& mixed && config.epochs == 0 ==> fault == Some(FitFault::Epochs)
            &&& mixed && config.epochs > 0 && !rated ==> fault == Some(FitFault::LearningRate)
            &&& rated && (config.l2.magnitude() >= 0x7FF0_0000_0000_0000 || config.l2.position()
                < 0) ==> fault == Some(FitFault::Penalty)
        }),
{
    law_wins_are_counted(rows, marks);
    lemma_win_count(rows);
}

/// The first thing that is wrong with a model is told: its format, then its features,
/// then its shape, then its numbers.
pub proof fn law_model_faults_are_told_in_order(parts: ModelParts, names: Seq<Seq<char>>)
    ensures
        ({
            let fault = model_fault(parts, names);
            let n = parts.features@.len();
            let known = parts.format_version == 1 && texts(parts.features@) == names;
            let shaped = parts.mean@.len() == n && parts.scale@.len() == n && parts.weights@.len()
                == n;
            &&& parts.format_version != 1 ==> fault == Some(ModelFault::Version)
            &&& parts.format_version == 1 && texts(parts.features@) != names ==> fault == Some(
                ModelFault::Features,
            )
            &&& known && !shaped ==> fault == Some(ModelFault::Shape)
            &&& known && shaped ==> fault is None || fault == Some(ModelFault::NotFinite)
        }),
{
}

} // verus!
