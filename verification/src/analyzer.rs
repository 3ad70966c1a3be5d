//! The interface every PII-detection backend implements.

use vstd::prelude::*;

use crate::model::PredictedSpan;

verus! {

/// A PII detector: given a text and its language, the spans it finds, or a
/// message saying why it could not analyze the text.
pub trait Analyzer {
    fn analyze(&self, text: &str, lang: &str) -> Result<Vec<PredictedSpan>, String>;
}

} // verus!
