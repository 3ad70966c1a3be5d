//! Data types of the evaluator: test data, analyzer output, per-sample
//! errors and counts, and the plain parts of the report.

use vstd::prelude::*;

verus! {

// ── Input types ──────────────────────────────────────────────────────────────

/// An entity that a test sample expects the analyzer to find.
/// `start` is inclusive and `end` exclusive, both in characters.
#[derive(Debug, Clone)]
pub struct ExpectedEntity {
    pub entity_type: String,
    pub start: usize,
    pub end: usize,
}

/// One labelled sample of a test file.
#[derive(Debug)]
pub struct TestSample {
    pub id: String,
    pub lang: String,
    pub text: String,
    pub expected: Vec<ExpectedEntity>,
}

/// The contents of one test file.
#[derive(Debug)]
pub struct TestFile {
    pub samples: Vec<TestSample>,
}

// ── Analyzer output ──────────────────────────────────────────────────────────

/// An entity that an analyzer reported, with character offsets.
#[derive(Debug, Clone)]
pub struct PredictedSpan {
    pub entity_type: String,
    pub start: usize,
    pub end: usize,
}

// ── Error classification ─────────────────────────────────────────────────────

#[derive(Debug, Clone, Copy, PartialEq, Eq, Structural)]
pub enum ErrorKind {
    NearMiss,
    FalsePositive,
    FalseNegative,
}

#[derive(Debug, Clone, Copy, PartialEq, Eq, Structural)]
pub enum ErrorSeverity {
    High,
    Medium,
    Low,
}

/// A span together with the text it covers in the sample; used only in
/// error reports.
#[derive(Debug, Clone)]
pub struct SpanWithText {
    pub entity_type: String,
    pub start: usize,
    pub end: usize,
    pub text: String,
}

/// A predicted span that overlaps an expected entity of the same type
/// without matching its offsets exactly.
#[derive(Debug, Clone)]
pub struct NearMiss {
    pub obtained: SpanWithText,
    pub expected: SpanWithText,
}

/// Everything that went wrong in one sample.
#[derive(Debug, Clone)]
pub struct TestError {
    pub sample_id: String,
    pub severity: ErrorSeverity,
    pub kinds: Vec<ErrorKind>,
    pub near_misses: Vec<NearMiss>,
    pub false_positives: Vec<SpanWithText>,
    pub false_negatives: Vec<SpanWithText>,
}

// ── Counts ───────────────────────────────────────────────────────────────────

/// True positives, false positives and false negatives under the strict and
/// the relaxed matching rule.
#[derive(Debug, Clone, Copy, PartialEq, Eq, Structural)]
pub struct SampleCounts {
    pub tp_strict: usize,
    pub fp_strict: usize,
    pub fn_strict: usize,
    pub tp_relaxed: usize,
    pub fp_relaxed: usize,
    pub fn_relaxed: usize,
}

/// All six counts zero.
pub open spec fn zero_counts() -> SampleCounts {
    SampleCounts {
        tp_strict: 0,
        fp_strict: 0,
        fn_strict: 0,
        tp_relaxed: 0,
        fp_relaxed: 0,
        fn_relaxed: 0,
    }
}

impl Default for SampleCounts {
    fn default() -> (c: SampleCounts)
        ensures
            c == zero_counts(),
    {
        SampleCounts {
            tp_strict: 0,
            fp_strict: 0,
            fn_strict: 0,
            tp_relaxed: 0,
            fp_relaxed: 0,
            fn_relaxed: 0,
        }
    }
}

/// Whether the field-wise sum of `a` and `b` fits in `usize`.
pub open spec fn counts_add_fits(a: SampleCounts, b: SampleCounts) -> bool {
    &&& a.tp_strict + b.tp_strict <= usize::MAX
    &&& a.fp_strict + b.fp_strict <= usize::MAX
    &&& a.fn_strict + b.fn_strict <= usize::MAX
    &&& a.tp_relaxed + b.tp_relaxed <= usize::MAX
    &&& a.fp_relaxed + b.fp_relaxed <= usize::MAX
    &&& a.fn_relaxed + b.fn_relaxed <= usize::MAX
}

/// The field-wise sum of `a` and `b` (meaningful where it fits).
pub open spec fn counts_sum(a: SampleCounts, b: SampleCounts) -> SampleCounts {
    SampleCounts {
        tp_strict: (a.tp_strict + b.tp_strict) as usize,
        fp_strict: (a.fp_strict + b.fp_strict) as usize,
        fn_strict: (a.fn_strict + b.fn_strict) as usize,
        tp_relaxed: (a.tp_relaxed + b.tp_relaxed) as usize,
        fp_relaxed: (a.fp_relaxed + b.fp_relaxed) as usize,
        fn_relaxed: (a.fn_relaxed + b.fn_relaxed) as usize,
    }
}

// ── Report (the parts without scores) ────────────────────────────────────────

/// A sample that the analyzer could not process.
#[derive(Debug)]
pub struct ApiError {
    pub sample_id: String,
    pub message: String,
    pub server_body: Option<String>,
}

/// Totals of one run.
#[derive(Debug)]
pub struct ReportSummary {
    pub files: usize,
    pub samples: usize,
    pub api_errors: usize,
    pub entities_expected: usize,
    pub entities_predicted: usize,
    pub elapsed: String,
}

/// The parameters a run was started with, recorded in the report.
#[derive(Debug)]
pub struct RunParams {
    pub input: String,
    pub analyzer_url: String,
    pub output: String,
    pub recursive: bool,
    pub verbose: bool,
    pub backend: String,
    pub ollama_model: Option<String>,
    pub system_prompt_path: Option<String>,
    pub system_prompt_content: Option<String>,
    pub timeout_secs: u64,
    pub warmup_timeout_secs: Option<u64>,
}

} // verus!
