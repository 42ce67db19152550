//! Exact relevance scores.

use crate::natural::{relation_of, Natural, Relation};
use vstd::prelude::*;

verus! {

/// A fraction of two natural numbers: the value of a [`Score`].
pub struct Ratio {
    pub num: nat,
    pub den: nat,
}

impl Ratio {
    /// The score of an exact match.
    pub open spec fn one() -> Ratio {
        Ratio { num: 1, den: 1 }
    }

    /// The score of a candidate that has nothing in common with the query.
    pub open spec fn zero() -> Ratio {
        Ratio { num: 0, den: 1 }
    }

    /// Whether the fraction is smaller than `other`.
    pub open spec fn below(self, other: Ratio) -> bool {
        self.num * other.den < other.num * self.den
    }

    /// Whether the fraction has the value of `other`.
    pub open spec fn same(self, other: Ratio) -> bool {
        self.num * other.den == other.num * self.den
    }
}

/// Fractions with positive denominators are ordered transitively: what is
/// not below `middle` is not below anything that `middle` is not below.
pub proof fn lemma_not_below_transitive(high: Ratio, middle: Ratio, low: Ratio)
    requires
        high.den > 0,
        middle.den > 0,
        low.den > 0,
        !high.below(middle),
        !middle.below(low),
    ensures
        !high.below(low),
        high.same(low) ==> high.same(middle) && middle.same(low),
{
    let (a, b) = (high.num as int, high.den as int);
    let (c, d) = (middle.num as int, middle.den as int);
    let (e, f) = (low.num as int, low.den as int);
    assert(a * d >= c * b);
    assert(c * f >= e * d);
    assert((a * f) * d >= (e * b) * d) by (nonlinear_arith)
        requires
            a * d >= c * b,
            c * f >= e * d,
            b > 0,
            d > 0,
            f > 0,
            a >= 0,
            c >= 0,
            e >= 0,
    ;
    assert(a * f >= e * b) by (nonlinear_arith)
        requires
            (a * f) * d >= (e * b) * d,
            d > 0,
    ;
    if high.same(low) {
        assert(a * d == c * b && c * f == e * d) by (nonlinear_arith)
            requires
                a * d >= c * b,
                c * f >= e * d,
                a * f == e * b,
                b > 0,
                d > 0,
                f > 0,
                a >= 0,
                c >= 0,
                e >= 0,
        ;
    }
}

/// How well a candidate matches a query: an exact, non-negative fraction.
/// A higher score is a better match.
pub struct Score {
    numerator: Natural,
    root: u64,
}

impl View for Score {
    type V = Ratio;

    closed spec fn view(&self) -> Ratio {
        Ratio { num: self.numerator@, den: (self.root as nat) * (self.root as nat) }
    }
}

impl Clone for Score {
    fn clone(&self) -> (copy: Score)
        ensures
            copy@ == self@,
    {
        Score { numerator: self.numerator.clone(), root: self.root }
    }
}

impl Score {
    /// The score `numerator / root²`.
    pub fn new(numerator: Natural, root: u64) -> (score: Score)
        ensures
            score@ == (Ratio { num: numerator@, den: (root as nat) * (root as nat) }),
    {
        Score { numerator, root }
    }

    /// The score of an exact match.
    pub fn one() -> (score: Score)
        ensures
            score@ == Ratio::one(),
    {
        Score { numerator: Natural::from_u128(1), root: 1 }
    }

    /// The lowest score.
    pub fn zero() -> (score: Score)
        ensures
            score@ == Ratio::zero(),
    {
        Score { numerator: Natural::zero(), root: 1 }
    }

    /// The numerator of the score.
    pub fn numerator(&self) -> (numerator: &Natural)
        ensures
            numerator@ == self@.num,
    {
        &self.numerator
    }

    /// The number whose square is the denominator of the score.
    pub fn root(&self) -> (root: u64)
        ensures
            root * root == self@.den,
    {
        self.root
    }

    /// How the score stands to `other`.
    pub fn relation(&self, other: &Score) -> (relation: Relation)
        ensures
            relation == relation_of(self@.num * other@.den, other@.num * self@.den),
    {
        let left = self.numerator.times(other.root).times(other.root);
        let right = other.numerator.times(self.root).times(self.root);
        proof {
            let (a, r) = (self.numerator@ as int, self.root as int);
            let (b, s) = (other.numerator@ as int, other.root as int);
            assert((a * s) * s == a * (s * s)) by (nonlinear_arith);
            assert((b * r) * r == b * (r * r)) by (nonlinear_arith);
        }
        left.relation(&right)
    }

    /// Whether the score is higher than `other`.
    pub fn exceeds(&self, other: &Score) -> (higher: bool)
        ensures
            higher == other@.below(self@),
    {
        match self.relation(other) {
            Relation::Greater => true,
            _ => false,
        }
    }

    /// Whether the score has the value of `other`.
    pub fn equals(&self, other: &Score) -> (equal: bool)
        ensures
            equal == self@.same(other@),
    {
        match self.relation(other) {
            Relation::Equal => true,
            _ => false,
        }
    }
}

} // verus!
