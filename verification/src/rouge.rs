//! ROUGE-N: building the n-grams of a token sequence and scoring the overlap
//! of two n-gram multisets.

use crate::commons::{Fraction, Ratio, Score, ScoreModel};
use crate::ngrams::{first_occurrences, overlap_spec, Gram, NgramCounts};
use crate::tokens::{tokenize, tokenize_spec};
use vstd::multiset::*;
use vstd::prelude::*;

verus! {

/// How many n-grams a sequence of `len` tokens has: `len - n + 1`, or none
/// where the sequence is shorter than `n`.
pub open spec fn window_count(len: nat, n: nat) -> nat {
    if len < n {
        0
    } else {
        (len - n + 1) as nat
    }
}

/// The n-grams of a token sequence in the order of their first token: the
/// `i`-th is made of the tokens `i` to `i + n - 1`.
pub open spec fn windows(tokens: Seq<Seq<char>>, n: nat) -> Seq<Gram> {
    Seq::new(window_count(tokens.len(), n), |i: int| tokens.subrange(i, i + n))
}

/// The n-grams of a token sequence as a multiset.
pub open spec fn ngram_multiset(tokens: Seq<Seq<char>>, n: nat) -> Multiset<Gram> {
    windows(tokens, n).to_multiset()
}

/// `count`, or 1 where `count` is 0: a denominator that is never zero.
pub open spec fn at_least_one(count: nat) -> nat {
    if count == 0 {
        1
    } else {
        count
    }
}

/// The score of a candidate multiset against a reference multiset.
///
/// The overlap is counted over the distinct n-grams of the reference, so an
/// n-gram of the candidate alone adds nothing to it.
/// Precision is the overlap over the size of the candidate, recall the
/// overlap over the size of the reference, each size taken as 1 where it is
/// 0. F1 is their harmonic mean with the common numerator cancelled,
/// `2 * overlap / (candidate size + reference size)`, and `0 / 1` where the
/// overlap is 0.
pub open spec fn score_spec(candidate: Multiset<Gram>, reference: Multiset<Gram>) -> ScoreModel {
    let shared = overlap_spec(reference, candidate);
    let candidates = at_least_one(candidate.len());
    let references = at_least_one(reference.len());
    ScoreModel {
        precision: Fraction { num: shared, den: candidates },
        recall: Fraction { num: shared, den: references },
        f1: if shared == 0 {
            Fraction { num: 0, den: 1 }
        } else {
            Fraction { num: 2 * shared, den: candidates + references }
        },
    }
}

/// The ROUGE-N score of a candidate text against a reference text: the score
/// of the n-grams of the candidate's tokens against those of the reference's.
pub open spec fn rouge_n_spec(candidate: Seq<char>, reference: Seq<char>, n: nat) -> ScoreModel {
    score_spec(
        ngram_multiset(tokenize_spec(candidate), n),
        ngram_multiset(tokenize_spec(reference), n),
    )
}

/// An intersection is no larger than either of the two multisets.
pub proof fn lemma_overlap_bounds(candidate: Multiset<Gram>, reference: Multiset<Gram>)
    ensures
        overlap_spec(reference, candidate) <= candidate.len(),
        overlap_spec(reference, candidate) <= reference.len(),
{
    broadcast use {group_multiset_axioms, lemma_intersection_count};

    let shared = reference.intersection_with(candidate);
    assert(candidate =~= shared.add(candidate.sub(shared)));
    assert(reference =~= shared.add(reference.sub(shared)));
}

/// Precision, recall and F1 of a score lie between 0 and 1, and its F1 has
/// the value of the harmonic mean of its precision and its recall.
pub proof fn lemma_score_well_formed(candidate: Multiset<Gram>, reference: Multiset<Gram>)
    ensures
        score_spec(candidate, reference).well_formed(),
{
    lemma_overlap_bounds(candidate, reference);
    let shared = overlap_spec(reference, candidate);
    let candidates = at_least_one(candidate.len());
    let references = at_least_one(reference.len());
    if shared > 0 {
        assert(shared * references + shared * candidates > 0) by (nonlinear_arith)
            requires
                shared > 0,
                references > 0,
        ;
        assert((2 * shared) * (shared * references + shared * candidates) == (2 * shared * shared)
            * (candidates + references)) by (nonlinear_arith);
    }
}

/// The n-grams of a token sequence number `len - n + 1`, or none where the
/// sequence is shorter than `n`.
pub proof fn lemma_ngram_total(tokens: Seq<Seq<char>>, n: nat)
    ensures
        ngram_multiset(tokens, n).len() == window_count(tokens.len(), n),
        n <= tokens.len() ==> ngram_multiset(tokens, n).len() == tokens.len() - n + 1,
{
    windows(tokens, n).to_multiset_ensures();
}

/// A multiset that is not empty, scored against itself, has precision,
/// recall and F1 of 1.
pub proof fn lemma_score_of_equal_multisets(ngrams: Multiset<Gram>)
    requires
        ngrams.len() > 0,
    ensures
        score_spec(ngrams, ngrams).precision.is_one(),
        score_spec(ngrams, ngrams).recall.is_one(),
        score_spec(ngrams, ngrams).f1.is_one(),
{
    broadcast use {group_multiset_axioms, lemma_intersection_count};

    assert(ngrams.intersection_with(ngrams) =~= ngrams);
}

/// A text of at least `n` tokens, scored against itself, has precision,
/// recall and F1 of 1.
pub proof fn lemma_rouge_n_of_equal_texts(text: Seq<char>, n: nat)
    requires
        1 <= n <= tokenize_spec(text).len(),
    ensures
        rouge_n_spec(text, text, n).precision.is_one(),
        rouge_n_spec(text, text, n).recall.is_one(),
        rouge_n_spec(text, text, n).f1.is_one(),
{
    lemma_ngram_total(tokenize_spec(text), n);
    lemma_score_of_equal_multisets(ngram_multiset(tokenize_spec(text), n));
}

/// Where the candidate or the reference has fewer than `n` tokens,
/// precision, recall and F1 are 0.
pub proof fn lemma_rouge_n_of_short_text(candidate: Seq<char>, reference: Seq<char>, n: nat)
    requires
        tokenize_spec(candidate).len() < n || tokenize_spec(reference).len() < n,
    ensures
        rouge_n_spec(candidate, reference, n).precision.is_zero(),
        rouge_n_spec(candidate, reference, n).recall.is_zero(),
        rouge_n_spec(candidate, reference, n).f1.is_zero(),
{
    let candidates = ngram_multiset(tokenize_spec(candidate), n);
    let references = ngram_multiset(tokenize_spec(reference), n);
    lemma_ngram_total(tokenize_spec(candidate), n);
    lemma_ngram_total(tokenize_spec(reference), n);
    lemma_overlap_bounds(candidates, references);
}

/// Why a score could not be computed.
#[derive(Clone, Copy, Debug, PartialEq, Eq, Structural)]
pub enum RougeError {
    /// The n-gram size was 0.
    InvalidArgument,
}

impl RougeError {
    /// The error in words.
    pub fn message(&self) -> (text: String)
        ensures
            text@ == "n must be >= 1"@,
    {
        "n must be >= 1".to_owned()
    }
}

/// Counts the n-grams of a token sequence: a window of `n` tokens moves over
/// the sequence one token at a time, and each place at which it stands adds
/// one occurrence of the n-gram under it. A sequence of fewer than `n` tokens
/// has no n-grams.
pub fn create_ngrams<'a>(tokens: Vec<&'a str>, n: usize) -> (ngrams: NgramCounts<'a>)
    requires
        n >= 1,
    ensures
        ngrams@ == ngram_multiset(tokens.deep_view(), n as nat),
        ngrams@.len() == window_count(tokens.len() as nat, n as nat),
        ngrams.grams() == first_occurrences(windows(tokens.deep_view(), n as nat)),
{
    let ghost grams = windows(tokens.deep_view(), n as nat);
    let mut ngrams = NgramCounts::new();
    proof {
        grams.take(0).to_multiset_ensures();
        grams.to_multiset_ensures();
    }
    if tokens.len() < n {
        return ngrams;
    }
    let count = tokens.len() - n + 1;
    let mut i: usize = 0;
    while i < count
        invariant
            n >= 1,
            count == tokens.len() - n + 1,
            i <= count,
            grams == windows(tokens.deep_view(), n as nat),
            grams.len() == count,
            ngrams@ == grams.take(i as int).to_multiset(),
            ngrams.grams() == first_occurrences(grams.take(i as int)),
        decreases count - i,
    {
        let mut gram: Vec<&'a str> = Vec::with_capacity(n);
        let mut j: usize = i;
        while j < i + n
            invariant
                i <= j <= i + n <= tokens.len(),
                gram@ == tokens@.subrange(i as int, j as int),
            decreases i + n - j,
        {
            gram.push(tokens[j]);
            assert(gram@ =~= tokens@.subrange(i as int, j + 1));
            j += 1;
        }
        proof {
            assert(gram.deep_view() =~= grams[i as int]);
            assert(grams.take(i + 1) =~= grams.take(i as int).push(grams[i as int]));
            assert(grams.take(i + 1).drop_last() =~= grams.take(i as int));
            grams.take(i as int).to_multiset_ensures();
        }
        ngrams.insert(gram);
        i += 1;
    }
    assert(grams.take(i as int) =~= grams);
    ngrams
}

/// Precision, recall and F1 of the predicted n-grams against the target
/// n-grams, as [`score_spec`] defines them.
pub fn ngram_based_score(predicted_ngrams: NgramCounts, target_ngrams: NgramCounts) -> (score:
    Score)
    ensures
        score@ == score_spec(predicted_ngrams@, target_ngrams@),
        score@.well_formed(),
{
    proof {
        lemma_score_well_formed(predicted_ngrams@, target_ngrams@);
    }
    let shared = target_ngrams.overlap(&predicted_ngrams);
    let predicted = predicted_ngrams.total();
    let target = target_ngrams.total();
    let candidates: u128 = if predicted == 0 {
        1
    } else {
        predicted as u128
    };
    let references: u128 = if target == 0 {
        1
    } else {
        target as u128
    };
    let f1 = if shared == 0 {
        Ratio { num: 0, den: 1 }
    } else {
        Ratio { num: 2 * (shared as u128), den: candidates + references }
    };
    Score {
        precision: Ratio { num: shared as u128, den: candidates },
        recall: Ratio { num: shared as u128, den: references },
        f1,
    }
}

/// The ROUGE-N score of `input` against `reference`, both split into tokens
/// at whitespace.
///
/// Fails where `n` is 0, and on no other input: a text with fewer than `n`
/// tokens has no n-grams and scores 0.
pub fn rouge_n(input: &str, reference: &str, n: usize) -> (result: Result<Score, RougeError>)
    ensures
        n == 0 ==> result == Err::<Score, RougeError>(RougeError::InvalidArgument),
        n >= 1 ==> result is Ok && result->Ok_0@ == rouge_n_spec(input@, reference@, n as nat),
        result matches Ok(score) ==> score@.well_formed(),
{
    if n < 1 {
        return Err(RougeError::InvalidArgument);
    }
    let input_words = tokenize(input);
    let reference_words = tokenize(reference);
    let input_ngrams = create_ngrams(input_words, n);
    let reference_ngrams = create_ngrams(reference_words, n);
    Ok(ngram_based_score(input_ngrams, reference_ngrams))
}

} // verus!
