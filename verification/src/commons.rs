//! Exact fractions and the three metric primitives: precision, recall and F1.

use vstd::prelude::*;

verus! {

/// A non-negative fraction `num / den` over the natural numbers: the
/// mathematical value that a [`Ratio`] stands for.
///
/// A fraction with `den == 0` is *undefined*; it plays the part that
/// not-a-number plays in floating-point arithmetic.
pub struct Fraction {
    pub num: nat,
    pub den: nat,
}

impl Fraction {
    /// The denominator is not zero.
    pub open spec fn defined(self) -> bool {
        self.den > 0
    }

    /// Both fractions are defined and denote the same rational number.
    pub open spec fn same_value(self, other: Fraction) -> bool {
        &&& self.defined()
        &&& other.defined()
        &&& self.num * other.den == other.num * self.den
    }

    /// The fraction is defined and its value is 0.
    pub open spec fn is_zero(self) -> bool {
        self.defined() && self.num == 0
    }

    /// The fraction is defined and its value is 1.
    pub open spec fn is_one(self) -> bool {
        self.defined() && self.num == self.den
    }

    /// The fraction is defined and its value lies between 0 and 1, both included.
    pub open spec fn in_unit_interval(self) -> bool {
        self.defined() && self.num <= self.den
    }
}

/// The undefined fraction `0 / 0`.
pub open spec fn undefined() -> Fraction {
    Fraction { num: 0, den: 0 }
}

/// `true_pos / (true_pos + false_pos)`; undefined when both counts are zero.
pub open spec fn precision_spec(true_pos: nat, false_pos: nat) -> Fraction {
    Fraction { num: true_pos, den: true_pos + false_pos }
}

/// `true_pos / (true_pos + false_neg)`; undefined when both counts are zero.
pub open spec fn recall_spec(true_pos: nat, false_neg: nat) -> Fraction {
    Fraction { num: true_pos, den: true_pos + false_neg }
}

/// The harmonic mean `2 * p * r / (p + r)` of two fractions.
///
/// For `p = a / b` and `r = c / d` this is `2ac / (ad + cb)`. Where `p + r`
/// is zero the quotient has no value, and the mean is taken to be `0 / 1`.
/// An undefined argument gives an undefined result.
pub open spec fn f1_spec(precision: Fraction, recall: Fraction) -> Fraction {
    if !precision.defined() || !recall.defined() {
        undefined()
    } else if precision.num == 0 && recall.num == 0 {
        Fraction { num: 0, den: 1 }
    } else {
        Fraction {
            num: 2 * precision.num * recall.num,
            den: precision.num * recall.den + recall.num * precision.den,
        }
    }
}

/// The harmonic mean of two fractions between 0 and 1 lies between 0 and 1.
pub proof fn lemma_f1_in_unit_interval(precision: Fraction, recall: Fraction)
    requires
        precision.in_unit_interval(),
        recall.in_unit_interval(),
    ensures
        f1_spec(precision, recall).in_unit_interval(),
{
    let a = precision.num;
    let b = precision.den;
    let c = recall.num;
    let d = recall.den;
    if a > 0 || c > 0 {
        assert(a * c <= a * d && a * c <= c * b) by (nonlinear_arith)
            requires
                a <= b,
                c <= d,
        ;
        assert(a * d + c * b > 0) by (nonlinear_arith)
            requires
                a > 0 || c > 0,
                b > 0,
                d > 0,
        ;
        assert(2 * a * c == a * c + a * c) by (nonlinear_arith);
    }
}

/// Where no field of the two fractions takes more than 63 bits, the
/// numerator and the denominator of their harmonic mean fit in 128 bits.
pub proof fn lemma_f1_fits(precision: Fraction, recall: Fraction)
    requires
        precision.num <= i64::MAX,
        precision.den <= i64::MAX,
        recall.num <= i64::MAX,
        recall.den <= i64::MAX,
    ensures
        f1_spec(precision, recall).num <= u128::MAX,
        f1_spec(precision, recall).den <= u128::MAX,
{
    let a = precision.num;
    let b = precision.den;
    let c = recall.num;
    let d = recall.den;
    assert(2 * a * c <= u128::MAX && a * d + c * b <= u128::MAX) by (nonlinear_arith)
        requires
            a <= i64::MAX,
            b <= i64::MAX,
            c <= i64::MAX,
            d <= i64::MAX,
    ;
}

/// A fraction of two machine integers. Its value is `num / den`; with
/// `den == 0` it is undefined. The fields are wide enough for the score of
/// any two texts that fit in memory.
///
/// `==` compares numerator and denominator, not values: `1 / 2` and `2 / 4`
/// are different ratios with the same value.
#[derive(Clone, Copy, Debug, PartialEq, Eq, Structural)]
pub struct Ratio {
    pub num: u128,
    pub den: u128,
}

impl View for Ratio {
    type V = Fraction;

    open spec fn view(&self) -> Fraction {
        Fraction { num: self.num as nat, den: self.den as nat }
    }
}

/// The abstract value of a [`Score`].
pub struct ScoreModel {
    pub precision: Fraction,
    pub recall: Fraction,
    pub f1: Fraction,
}

impl ScoreModel {
    /// Precision, recall and F1 lie between 0 and 1, and F1 has the value of
    /// the harmonic mean of precision and recall.
    pub open spec fn well_formed(self) -> bool {
        &&& self.precision.in_unit_interval()
        &&& self.recall.in_unit_interval()
        &&& self.f1.in_unit_interval()
        &&& self.f1.same_value(f1_spec(self.precision, self.recall))
    }
}

/// Precision, recall and F1 of one comparison.
#[derive(Clone, Copy, Debug, PartialEq, Eq, Structural)]
pub struct Score {
    pub precision: Ratio,
    pub recall: Ratio,
    pub f1: Ratio,
}

impl View for Score {
    type V = ScoreModel;

    open spec fn view(&self) -> ScoreModel {
        ScoreModel { precision: self.precision@, recall: self.recall@, f1: self.f1@ }
    }
}

/// The fraction of `true_pos + false_pos` that `true_pos` makes up.
pub fn precision(true_pos: u32, false_pos: u32) -> (ratio: Ratio)
    ensures
        ratio@ == precision_spec(true_pos as nat, false_pos as nat),
        ratio@.defined() <==> true_pos + false_pos > 0,
        true_pos + false_pos > 0 ==> ratio@.in_unit_interval(),
{
    Ratio { num: true_pos as u128, den: true_pos as u128 + false_pos as u128 }
}

/// The fraction of `true_pos + false_neg` that `true_pos` makes up.
pub fn recall(true_pos: u32, false_neg: u32) -> (ratio: Ratio)
    ensures
        ratio@ == recall_spec(true_pos as nat, false_neg as nat),
        ratio@.defined() <==> true_pos + false_neg > 0,
        true_pos + false_neg > 0 ==> ratio@.in_unit_interval(),
{
    Ratio { num: true_pos as u128, den: true_pos as u128 + false_neg as u128 }
}

/// The harmonic mean of precision and recall, as [`f1_spec`] defines it.
///
/// The numerator and the denominator of the result must fit in 128 bits;
/// [`lemma_f1_fits`] shows that they do where no field of the arguments takes
/// more than 63 bits.
pub fn f1(precision: Ratio, recall: Ratio) -> (ratio: Ratio)
    requires
        f1_spec(precision@, recall@).num <= u128::MAX,
        f1_spec(precision@, recall@).den <= u128::MAX,
    ensures
        ratio@ == f1_spec(precision@, recall@),
        precision@.in_unit_interval() && recall@.in_unit_interval() ==> ratio@.in_unit_interval(),
{
    proof {
        if precision@.in_unit_interval() && recall@.in_unit_interval() {
            lemma_f1_in_unit_interval(precision@, recall@);
        }
    }
    if precision.den == 0 || recall.den == 0 {
        Ratio { num: 0, den: 0 }
    } else if precision.num == 0 && recall.num == 0 {
        Ratio { num: 0, den: 1 }
    } else {
        let a: u128 = precision.num;
        let b: u128 = precision.den;
        let c: u128 = recall.num;
        let d: u128 = recall.den;
        proof {
            assert(a * c <= 2 * a * c) by (nonlinear_arith);
            assert(2 * (a * c) == 2 * a * c) by (nonlinear_arith);
            assert(0 <= a * d && 0 <= c * b) by (nonlinear_arith);
        }
        Ratio { num: 2 * (a * c), den: a * d + c * b }
    }
}

} // verus!
