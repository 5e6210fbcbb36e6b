//! What the scorer is asked and what it answers.
use vstd::prelude::*;

use crate::measure::Measure;
use crate::text::{
    decimal, decimal_text, same_text, tail_of, tail_text, text_of, texts, trim_text, trimmed,
};

verus! {

/// How much of the scorer's complaint an error keeps.
pub const STDERR_TAIL_CHARS: usize = 2000;

/// How much of its digest a scorer is known by.
pub const DIGEST_CHARS: usize = 16;

/// The score of one creature.
#[derive(Clone, Copy, Debug)]
pub struct ScoreResult {
    /// The score; larger is better.
    pub score: Measure,
    /// The error that the score is made from.
    pub error: Measure,
    /// What the score takes off for structure.
    pub complexity_penalty: Measure,
    /// How many records were scored.
    pub record_count: u64,
}

/// One line of a scorer's answer.
#[derive(Debug)]
pub struct ScoreEntry {
    /// The stem of the creature's file.
    pub key: String,
    /// Its score.
    pub result: ScoreResult,
}

/// What a scorer is asked to score on.
#[derive(Clone, Copy, Debug)]
pub enum ScorerMode {
    /// The whole corpus.
    Full,
    /// A sample of the corpus.
    Sample {
        /// The share of the records.
        rate: Measure,
        /// Which sample of that share.
        phase: u64,
    },
}

impl ScorerMode {
    /// Only a score on the whole corpus can accept a cut.
    pub fn is_authoritative(self) -> (r: bool)
        ensures
            r == (self is Full),
    {
        match self {
            ScorerMode::Full => true,
            ScorerMode::Sample { .. } => false,
        }
    }

    /// The mode in a word.
    pub fn label(self) -> (r: &'static str)
        ensures
            r@ == if self is Full {
                "full"@
            } else {
                "sample"@
            },
    {
        match self {
            ScorerMode::Full => "full",
            ScorerMode::Sample { .. } => "sample",
        }
    }
}

/// Why no scores came back.
#[derive(Debug)]
pub enum ScorerError {
    /// The scorer could not be started.
    Spawn(String),
    /// The scorer ended with a failure.
    Failed {
        /// How it ended.
        status: String,
        /// The end of what it complained.
        stderr: String,
    },
    /// The answer could not be read.
    Malformed(String),
    /// The answer does not score the incumbent.
    MissingBaseline,
    /// The answer scores this creature with something that is not a number.
    NonFinite(String),
}

/// The words of an error.
pub open spec fn error_text(error: ScorerError) -> Seq<char> {
    match error {
        ScorerError::Spawn(m) => "cannot run scorer: "@ + m@,
        ScorerError::Failed { status, stderr } => "scorer failed ("@ + status@ + "): "@ + stderr@,
        ScorerError::Malformed(m) => "scorer output malformed: "@ + m@,
        ScorerError::MissingBaseline => "scorer output has no `baseline` entry"@,
        ScorerError::NonFinite(k) => "scorer returned a non-finite result for `"@ + k@ + "`"@,
    }
}

impl ScorerError {
    /// The error in words.
    pub fn message(&self) -> (r: String)
        ensures
            r@ == error_text(*self),
    {
        match self {
            ScorerError::Spawn(m) => {
                let mut out = text_of("cannot run scorer: ");
                out.append(m.as_str());
                out
            },
            ScorerError::Failed { status, stderr } => {
                let mut out = text_of("scorer failed (");
                out.append(status.as_str());
                out.append("): ");
                out.append(stderr.as_str());
                out
            },
            ScorerError::Malformed(m) => {
                let mut out = text_of("scorer output malformed: ");
                out.append(m.as_str());
                out
            },
            ScorerError::MissingBaseline => text_of("scorer output has no `baseline` entry"),
            ScorerError::NonFinite(k) => {
                let mut out = text_of("scorer returned a non-finite result for `");
                out.append(k.as_str());
                out.append("`");
                out
            },
        }
    }

    /// The error of a scorer that ended with a failure: the end of what it
    /// complained, without white space around it.
    pub fn failed(status: String, stderr: &str) -> (r: ScorerError)
        ensures
            r matches ScorerError::Failed { status: s, stderr: e } && s == status && e@ == trimmed(
                tail_of(stderr@, STDERR_TAIL_CHARS as int),
            ),
    {
        let tail = text_of(trim_text(tail_text(stderr, STDERR_TAIL_CHARS)));
        ScorerError::Failed { status, stderr: tail }
    }
}

/// A scorer that runs as a program of its own.
#[derive(Debug)]
pub struct ExternalScorer {
    /// The program.
    pub binary: String,
    /// Arguments that every call gets.
    pub extra_args: Vec<String>,
}

impl ExternalScorer {
    /// A scorer without extra arguments.
    pub fn new(binary: String) -> (r: ExternalScorer)
        ensures
            r.binary == binary,
            r.extra_args@.len() == 0,
    {
        ExternalScorer { binary, extra_args: Vec::new() }
    }

    /// What tells this scorer from others: the start of its digest, or its
    /// path where it could not be read.
    pub fn identity(&self, digest: Option<&str>) -> (r: String)
        requires
            digest matches Some(text) ==> text@.len() >= DIGEST_CHARS,
        ensures
            r@ == match digest {
                Some(text) => "sha256:"@ + text@.take(DIGEST_CHARS as int),
                None => "path:"@ + self.binary@,
            },
    {
        match digest {
            Some(text) => {
                let mut out = text_of("sha256:");
                let start = text.substring_char(0, DIGEST_CHARS);
                assert(start@ =~= text@.take(DIGEST_CHARS as int));
                out.append(start);
                out
            },
            None => {
                let mut out = text_of("path:");
                out.append(self.binary.as_str());
                out
            },
        }
    }

    /// The arguments of one call: the sample if there is one, the extra
    /// arguments, the creatures and the corpus.
    pub fn arguments(
        &self,
        mode: ScorerMode,
        rate_text: &str,
        creature_dir: &str,
        training_dir: &str,
    ) -> (r: Vec<String>)
        ensures
            texts(r@) == sample_arguments(mode, rate_text@) + texts(self.extra_args@) + seq![
                creature_dir@,
                training_dir@,
            ],
    {
        let mut out: Vec<String> = Vec::new();
        match mode {
            ScorerMode::Full => {},
            ScorerMode::Sample { phase, .. } => {
                out.push(text_of("--sample-rate"));
                out.push(text_of(rate_text));
                out.push(text_of("--sample-phase"));
                out.push(decimal_text(phase));
            },
        }
        let ghost head = sample_arguments(mode, rate_text@);
        assert(texts(out@) =~= head);
        assert(head + texts(self.extra_args@).take(0) =~= head);
        let mut i: usize = 0;
        while i < self.extra_args.len()
            invariant
                i <= self.extra_args@.len(),
                texts(out@) == head + texts(self.extra_args@).take(i as int),
            decreases self.extra_args.len() - i,
        {
            let ghost before = out@;
            out.push(self.extra_args[i].clone());
            proof {
                let all = texts(self.extra_args@);
                assert(texts(out@) =~= texts(before).push(all[i as int]));
                assert(head + all.take(i + 1) =~= (head + all.take(i as int)).push(
                    all[i as int],
                ));
            }
            i += 1;
        }
        assert(texts(self.extra_args@).take(i as int) =~= texts(self.extra_args@));
        let ghost before = out@;
        out.push(text_of(creature_dir));
        out.push(text_of(training_dir));
        assert(texts(out@) =~= texts(before) + seq![creature_dir@, training_dir@]);
        out
    }
}

/// The arguments that ask for a sample.
pub open spec fn sample_arguments(mode: ScorerMode, rate_text: Seq<char>) -> Seq<Seq<char>> {
    match mode {
        ScorerMode::Full => Seq::empty(),
        ScorerMode::Sample { rate, phase } => seq![
            "--sample-rate"@,
            rate_text,
            "--sample-phase"@,
            decimal(phase as nat),
        ],
    }
}

/// Both the score and the error are numbers.
pub open spec fn sound_result(result: ScoreResult) -> bool {
    result.score.finite() && result.error.finite()
}

/// The answer scores `key`.
pub open spec fn scores(entries: Seq<ScoreEntry>, key: Seq<char>) -> bool {
    exists|i: int| 0 <= i < entries.len() && (#[trigger] entries[i]).key@ == key
}

/// The first entry for the key stands at `i`.
pub open spec fn scores_at(entries: Seq<ScoreEntry>, key: Seq<char>, i: int) -> bool {
    &&& 0 <= i < entries.len()
    &&& entries[i].key@ == key
    &&& forall|k: int| 0 <= k < i ==> (#[trigger] entries[k]).key@ != key
}

/// The first entry for a key.
pub fn find_score(entries: &Vec<ScoreEntry>, key: &str) -> (r: Option<usize>)
    ensures
        match r {
            Some(i) => scores_at(entries@, key@, i as int),
            None => !scores(entries@, key@),
        },
{
    let mut i: usize = 0;
    while i < entries.len()
        invariant
            i <= entries@.len(),
            forall|k: int| 0 <= k < i ==> (#[trigger] entries@[k]).key@ != key@,
        decreases entries.len() - i,
    {
        if same_text(entries[i].key.as_str(), key) {
            return Some(i);
        }
        i += 1;
    }
    None
}

/// Refuses an answer with a score or an error that is no number, and names the
/// first such creature.
pub fn check_finite(results: &Vec<ScoreEntry>) -> (r: Result<(), ScorerError>)
    ensures
        match r {
            Ok(_) => forall|i: int|
                0 <= i < results@.len() ==> sound_result((#[trigger] results@[i]).result),
            Err(e) => exists|i: int|
                {
                    &&& 0 <= i < results@.len()
                    &&& !sound_result((#[trigger] results@[i]).result)
                    &&& forall|k: int|
                        0 <= k < i ==> sound_result((#[trigger] results@[k]).result)
                    &&& e matches ScorerError::NonFinite(key) && key@ == results@[i].key@
                },
        },
{
    let mut i: usize = 0;
    while i < results.len()
        invariant
            i <= results@.len(),
            forall|k: int| 0 <= k < i ==> sound_result((#[trigger] results@[k]).result),
        decreases results.len() - i,
    {
        let result = results[i].result;
        if !result.score.is_finite() || !result.error.is_finite() {
            assert(!sound_result(results@[i as int].result));
            return Err(ScorerError::NonFinite(results[i].key.clone()));
        }
        i += 1;
    }
    Ok(())
}

/// Takes what was read of a scorer's output: it must be readable, score the
/// incumbent, and every score must be a number.
pub fn parse_scorer_output(read: Result<Vec<ScoreEntry>, String>) -> (r: Result<
    Vec<ScoreEntry>,
    ScorerError,
>)
    ensures
        match (read, r) {
            (Err(message), Err(ScorerError::Malformed(told))) => told == message,
            (Err(_), _) => false,
            (Ok(parsed), Ok(entries)) => {
                &&& entries == parsed
                &&& scores(parsed@, "baseline"@)
                &&& forall|i: int|
                    0 <= i < parsed@.len() ==> sound_result((#[trigger] parsed@[i]).result)
            },
            (Ok(parsed), Err(ScorerError::MissingBaseline)) => !scores(parsed@, "baseline"@),
            (Ok(parsed), Err(ScorerError::NonFinite(key))) => {
                &&& scores(parsed@, "baseline"@)
                &&& exists|i: int|
                    {
                        &&& 0 <= i < parsed@.len()
                        &&& !sound_result((#[trigger] parsed@[i]).result)
                        &&& forall|k: int|
                            0 <= k < i ==> sound_result((#[trigger] parsed@[k]).result)
                        &&& key@ == parsed@[i].key@
                    }
            },
            (Ok(_), Err(_)) => false,
        },
{
    let parsed = match read {
        Ok(parsed) => parsed,
        Err(message) => {
            return Err(ScorerError::Malformed(message));
        },
    };
    match find_score(&parsed, "baseline") {
        None => {
            return Err(ScorerError::MissingBaseline);
        },
        Some(_) => {},
    }
    match check_finite(&parsed) {
        Ok(_) => Ok(parsed),
        Err(e) => Err(e),
    }
}

/// An answer is sound exactly if its score and its error are finite numbers.
pub proof fn law_sound_answers_are_finite(result: ScoreResult)
    ensures
        sound_result(result) <==> result.score.magnitude() < 0x7FF0_0000_0000_0000
            && result.error.magnitude() < 0x7FF0_0000_0000_0000,
{
}

/// A sample is asked for by its rate and its phase, and the whole corpus by nothing.
pub proof fn law_samples_are_asked_for(mode: ScorerMode, rate_text: Seq<char>)
    ensures
        mode is Full ==> sample_arguments(mode, rate_text).len() == 0,
        mode matches ScorerMode::Sample { phase, .. } ==> {
            let asked = sample_arguments(mode, rate_text);
            &&& asked.len() == 4
            &&& asked[0] == "--sample-rate"@ && asked[1] == rate_text
            &&& asked[2] == "--sample-phase"@ && asked[3] == decimal(phase as nat)
        },
{
}

/// A key is scored by the first entry that carries it.
pub proof fn law_first_entries_score(entries: Seq<ScoreEntry>, key: Seq<char>, i: int, k: int)
    requires
        scores_at(entries, key, i),
    ensures
        0 <= i < entries.len(),
        entries[i].key@ == key,
        0 <= k < i ==> entries[k].key@ != key,
        scores(entries, key),
{
}

} // verus!
