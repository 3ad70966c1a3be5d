//! Verified core of a PII-detection evaluator: span matching, metric
//! accumulation, Unicode offset conversion and LLM offset resolution.

pub mod analyzer;
pub mod backend;
pub mod checker;
pub mod counts_map;
pub mod evaluation;
pub mod llm_spans;
pub mod model;
pub mod report;
pub mod stats;
pub mod stats_totals;
pub mod text;
pub mod timestamp;
pub mod type_totals;
pub mod unicode;
