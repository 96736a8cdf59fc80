//! N-gram overlap scores (the ROUGE-N family) between a candidate text and a
//! reference text, computed in exact integer arithmetic.
//!
//! Every score is a [`commons::Ratio`], a fraction of two machine integers, so
//! that no rounding takes place inside the library; a caller who wants a
//! floating-point number divides `num` by `den`.
//!
//! - [`commons`]: fractions, and precision, recall and F1 on them.
//! - [`tokens`]: splitting a text into tokens at whitespace.
//! - [`ngrams`]: multisets of n-grams.
//! - [`rouge`]: the n-grams of a token sequence, the score of two n-gram
//!   multisets, and the score of two texts.

pub mod commons;
pub mod ngrams;
pub mod rouge;
pub mod tokens;

use crate::rouge::{rouge_n, rouge_n_spec};
use vstd::prelude::*;

pub use crate::commons::Score;
pub use crate::rouge::{create_ngrams, ngram_based_score};

verus! {

/// The ROUGE-N score of `input` against `reference`, as [`rouge::rouge_n`]
/// computes it, with the error given as its message.
pub fn rouge(input: &str, reference: &str, n: usize) -> (result: Result<Score, String>)
    ensures
        n == 0 ==> result is Err && result->Err_0@ == "n must be >= 1"@,
        n >= 1 ==> result is Ok && result->Ok_0@ == rouge_n_spec(input@, reference@, n as nat),
        result matches Ok(score) ==> score@.well_formed(),
{
    match rouge_n(input, reference, n) {
        Ok(score) => Ok(score),
        Err(error) => Err(error.message()),
    }
}

} // verus!
