//! The bookkeeping of a whole run: every analyzed sample is checked and its
//! counts accumulated, its errors kept; every sample the analyzer failed on
//! is kept as an API error.

use vstd::prelude::*;
use vstd::string::StringExecFns;

use crate::checker::{
    check_with_source, error_is, per_type_view, sample_has_error, spec_counts, CheckResult,
};
use crate::model::{ApiError, ExpectedEntity, PredictedSpan, ReportSummary, SampleCounts, TestError};
use crate::stats::{add_fits, after_add, Stats, StatsView};

verus! {

/// The state of a run.
pub struct Evaluation {
    stats: Stats,
    files: usize,
    samples: usize,
    entities_expected: usize,
    entities_predicted: usize,
    test_errors: Vec<TestError>,
    api_errors: Vec<ApiError>,
}

/// What an [`Evaluation`] holds.
pub struct EvaluationView {
    pub stats: StatsView,
    pub files: nat,
    pub samples: nat,
    pub entities_expected: nat,
    pub entities_predicted: nat,
    pub test_errors: Seq<TestError>,
    pub api_errors: Seq<ApiError>,
}

impl View for Evaluation {
    type V = EvaluationView;

    closed spec fn view(&self) -> EvaluationView {
        EvaluationView {
            stats: self.stats@,
            files: self.files as nat,
            samples: self.samples as nat,
            entities_expected: self.entities_expected as nat,
            entities_predicted: self.entities_predicted as nat,
            test_errors: self.test_errors@,
            api_errors: self.api_errors@,
        }
    }
}

/// The id a sample is reported under: the stem of its file, `::`, and its id
/// within the file.
pub open spec fn qualified_id(stem: Seq<char>, id: Seq<char>) -> Seq<char> {
    stem + seq![':', ':'] + id
}

/// Builds the id a sample is reported under.
pub fn qualify_sample_id(stem: &str, id: &str) -> (r: String)
    ensures
        r@ == qualified_id(stem@, id@),
{
    let sep = "::";
    proof {
        reveal_strlit("::");
    }
    let mut r = stem.to_string();
    r.append(sep);
    r.append(id);
    proof {
        assert(r@ =~= qualified_id(stem@, id@));
    }
    r
}

impl Evaluation {
    /// Nothing recorded yet.
    pub fn new() -> (e: Evaluation)
        ensures
            e@.stats.global == crate::model::zero_counts(),
            e@.stats.by_type == Map::<Seq<char>, SampleCounts>::empty(),
            e@.stats.by_lang == Map::<Seq<char>, SampleCounts>::empty(),
            e@.files == 0,
            e@.samples == 0,
            e@.entities_expected == 0,
            e@.entities_predicted == 0,
            e@.test_errors == Seq::<TestError>::empty(),
            e@.api_errors == Seq::<ApiError>::empty(),
    {
        Evaluation {
            stats: Stats::new(),
            files: 0,
            samples: 0,
            entities_expected: 0,
            entities_predicted: 0,
            test_errors: Vec::new(),
            api_errors: Vec::new(),
        }
    }

    /// Counts one more test file; `false`, with nothing changed, when the
    /// count would overflow.
    pub fn record_file(&mut self) -> (ok: bool)
        ensures
            ok == (old(self)@.files < usize::MAX),
            ok ==> final(self)@ == (EvaluationView { files: old(self)@.files + 1, ..old(self)@ }),
            !ok ==> final(self)@ == old(self)@,
    {
        if self.files == usize::MAX {
            return false;
        }
        self.files = self.files + 1;
        true
    }

    /// Records a sample the analyzer answered: checks `predicted` against
    /// `expected`, accumulates the counts under the sample's language and
    /// keeps its error, if any. Returns the sample's counts; `None`, with
    /// nothing changed, when a total would overflow.
    pub fn record_sample(
        &mut self,
        sample_id: &str,
        lang: &str,
        text: &str,
        predicted: &[PredictedSpan],
        expected: &[ExpectedEntity],
    ) -> (r: Option<SampleCounts>)
        ensures
            r is Some <==> {
                let o = old(self)@;
                &&& o.samples < usize::MAX
                &&& o.entities_expected + expected@.len() <= usize::MAX
                &&& o.entities_predicted + predicted@.len() <= usize::MAX
                &&& add_fits(
                    o.stats,
                    spec_counts(predicted@, expected@, None),
                    per_type_view(predicted@, expected@),
                    lang@,
                )
            },
            !(r is Some) ==> final(self)@ == old(self)@,
            r matches Some(c) ==> {
                let o = old(self)@;
                let n = final(self)@;
                &&& c == spec_counts(predicted@, expected@, None)
                &&& n.stats == after_add(o.stats, c, per_type_view(predicted@, expected@), lang@)
                &&& n.files == o.files
                &&& n.samples == o.samples + 1
                &&& n.entities_expected == o.entities_expected + expected@.len()
                &&& n.entities_predicted == o.entities_predicted + predicted@.len()
                &&& n.api_errors == o.api_errors
                &&& !sample_has_error(predicted@, expected@) ==> n.test_errors == o.test_errors
                &&& sample_has_error(predicted@, expected@) ==> exists|err: TestError|
                    n.test_errors == o.test_errors.push(err) && #[trigger] error_is(
                        err,
                        sample_id@,
                        predicted@,
                        expected@,
                        text@,
                    )
            },
    {
        if self.samples == usize::MAX || self.entities_expected > usize::MAX - expected.len()
            || self.entities_predicted > usize::MAX - predicted.len() {
            return None;
        }
        let result: CheckResult = check_with_source(sample_id, text, predicted, expected);
        if !self.stats.can_add(&result.counts, &result.by_type, lang) {
            return None;
        }
        self.samples = self.samples + 1;
        self.entities_expected = self.entities_expected + expected.len();
        self.entities_predicted = self.entities_predicted + predicted.len();
        self.stats.add(&result.counts, &result.by_type, lang);
        let ghost before = self.test_errors@;
        assert(before == old(self)@.test_errors);
        match result.error {
            Some(err) => {
                let ghost e = err;
                self.test_errors.push(err);
                proof {
                    assert(self.test_errors@ == before.push(e));
                    assert(error_is(e, sample_id@, predicted@, expected@, text@));
                }
            },
            None => {},
        }
        Some(result.counts)
    }

    /// Records a sample the analyzer failed on, with the failure's message;
    /// `false`, with nothing changed, when the sample count would overflow.
    pub fn record_api_error(&mut self, sample_id: String, message: String) -> (ok: bool)
        ensures
            ok == (old(self)@.samples < usize::MAX),
            ok ==> final(self)@ == (EvaluationView {
                samples: old(self)@.samples + 1,
                api_errors: old(self)@.api_errors.push(
                    ApiError { sample_id, message, server_body: None },
                ),
                ..old(self)@
            }),
            !ok ==> final(self)@ == old(self)@,
    {
        if self.samples == usize::MAX {
            return false;
        }
        self.samples = self.samples + 1;
        self.api_errors.push(ApiError { sample_id, message, server_body: None });
        true
    }

    /// The number of samples recorded, answered or not.
    pub fn samples(&self) -> (n: usize)
        ensures
            n == self@.samples,
    {
        self.samples
    }

    /// The totals of the run, with the given elapsed time.
    pub fn summary(&self, elapsed: String) -> (s: ReportSummary)
        ensures
            s.files == self@.files,
            s.samples == self@.samples,
            s.api_errors == self@.api_errors.len(),
            s.entities_expected == self@.entities_expected,
            s.entities_predicted == self@.entities_predicted,
            s.elapsed == elapsed,
    {
        ReportSummary {
            files: self.files,
            samples: self.samples,
            api_errors: self.api_errors.len(),
            entities_expected: self.entities_expected,
            entities_predicted: self.entities_predicted,
            elapsed,
        }
    }

    /// The accumulated counts, the errors of the samples and the analyzer
    /// failures, in the order they were recorded.
    pub fn into_parts(self) -> (r: (Stats, Vec<TestError>, Vec<ApiError>))
        ensures
            r.0@ == self@.stats,
            r.1@ == self@.test_errors,
            r.2@ == self@.api_errors,
    {
        (self.stats, self.test_errors, self.api_errors)
    }
}

} // verus!
