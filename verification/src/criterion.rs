//! Split criteria: the impurity of a set of targets, as an exact fraction.
//! Smaller is better.

use vstd::prelude::*;
use crate::array_ops::lemma_mapped_rearranged;
use crate::categorical::{
    gini_numerator, gini_of, labels, lemma_partial_gini, lemma_tally_rearranged, lemma_tally_total,
    tally, CatCount,
};
use crate::continuous::{
    lemma_value_sums_bounded, lemma_value_sums_rearranged, lemma_variance_numerator, square_sum,
    sum_values, value_sum, variance_numerator, variance_of,
};
use crate::fraction::{
    is_weighted_average, lemma_weighted_split, lemma_weighted_split_fits, weigh_split,
    weighted_split, Fraction, Ratio,
};

verus! {

/// For comparing splits: the impurity of targets before a split, and of
/// the two sides of a split together.
pub trait SplitCriterion<T> {
    /// Whether the impurity of the targets `y` can be computed exactly.
    spec fn scorable(y: Seq<T>) -> bool;

    /// The impurity of the targets `y`.
    spec fn presplit(y: Seq<T>) -> Ratio;

    /// The impurity after a split into the targets `yl` and `yr`.
    spec fn postsplit(yl: Seq<T>, yr: Seq<T>) -> Ratio;

    /// Neither depends on the order of the targets.
    proof fn lemma_rearranged(a: Seq<T>, b: Seq<T>)
        requires
            a.to_multiset() == b.to_multiset(),
        ensures
            Self::scorable(a) == Self::scorable(b),
            Self::presplit(a) == Self::presplit(b),
            forall|c: Seq<T>| #[trigger] Self::postsplit(a, c) == Self::postsplit(b, c),
            forall|c: Seq<T>| #[trigger] Self::postsplit(c, a) == Self::postsplit(c, b),
    ;

    /// What can be computed for the whole can be computed for its parts.
    proof fn lemma_scorable_parts(a: Seq<T>, b: Seq<T>)
        requires
            Self::scorable(a + b),
        ensures
            Self::scorable(a),
            Self::scorable(b),
    ;

    /// The impurity after a split is the average of the impurities of the
    /// two sides, each weighted by the number of its targets.
    proof fn lemma_postsplit_is_weighted(yl: Seq<T>, yr: Seq<T>)
        requires
            yl.len() > 0,
            yr.len() > 0,
        ensures
            Self::presplit(yl).den > 0,
            Self::presplit(yr).den > 0,
            Self::postsplit(yl, yr).den > 0,
            is_weighted_average(
                Self::postsplit(yl, yr),
                yl.len(),
                Self::presplit(yl),
                yr.len(),
                Self::presplit(yr),
            ),
    ;

    fn is_scorable(y: &[T]) -> (b: bool)
        ensures
            b == Self::scorable(y@),
    ;

    fn calc_presplit(y: &[T]) -> (c: Fraction)
        requires
            Self::scorable(y@),
            y@.len() > 0,
        ensures
            c@ == Self::presplit(y@),
    ;

    fn calc_postsplit(yl: &[T], yr: &[T]) -> (c: Fraction)
        requires
            Self::scorable(yl@ + yr@),
            yl@.len() > 0,
            yr@.len() > 0,
        ensures
            c@ == Self::postsplit(yl@, yr@),
    ;
}

/// The largest number of class labels whose Gini impurity after a split
/// fits in 128 bits.
pub const MAX_LABELS: u64 = 0x100_0000_0000;

/// The largest number of values whose variance after a split fits in 128
/// bits.
pub const MAX_VALUES: u64 = 0x20_0000;

/// The Gini criterion for class labels: with `p` the share of a class, the
/// sum of `p (1 - p)` over the classes.
pub struct GiniCriterion;

impl SplitCriterion<u8> for GiniCriterion {
    open spec fn scorable(y: Seq<u8>) -> bool {
        y.len() <= MAX_LABELS
    }

    open spec fn presplit(y: Seq<u8>) -> Ratio {
        gini_of(tally(labels(y)))
    }

    open spec fn postsplit(yl: Seq<u8>, yr: Seq<u8>) -> Ratio {
        weighted_split(
            gini_numerator(tally(labels(yl))),
            yl.len(),
            gini_numerator(tally(labels(yr))),
            yr.len(),
        )
    }

    proof fn lemma_rearranged(a: Seq<u8>, b: Seq<u8>) {
        lemma_mapped_rearranged(a, b, |c: u8| c as nat);
        lemma_tally_rearranged(labels(a), labels(b));
        vstd::seq_lib::to_multiset_len(a);
        vstd::seq_lib::to_multiset_len(b);
    }

    proof fn lemma_scorable_parts(a: Seq<u8>, b: Seq<u8>) {
    }

    proof fn lemma_postsplit_is_weighted(yl: Seq<u8>, yr: Seq<u8>) {
        lemma_tally_total(labels(yl));
        lemma_tally_total(labels(yr));
        lemma_weighted_split(
            gini_numerator(tally(labels(yl))),
            yl.len(),
            gini_numerator(tally(labels(yr))),
            yr.len(),
        );
    }

    fn is_scorable(y: &[u8]) -> (b: bool) {
        y.len() as u64 <= MAX_LABELS
    }

    fn calc_presplit(y: &[u8]) -> (c: Fraction) {
        CatCount::tally_of(y).gini()
    }

    fn calc_postsplit(yl: &[u8], yr: &[u8]) -> (c: Fraction) {
        let l = yl.len() as u128;
        let r = yr.len() as u128;
        let gl = CatCount::tally_of(yl).gini().numer();
        let gr = CatCount::tally_of(yr).gini().numer();
        proof {
            lemma_tally_total(labels(yl@));
            lemma_tally_total(labels(yr@));
            lemma_partial_gini(tally(labels(yl@)), tally(labels(yl@)).len());
            lemma_partial_gini(tally(labels(yr@)), tally(labels(yr@)).len());
            assert(gl == gini_numerator(tally(labels(yl@))));
            assert(gr == gini_numerator(tally(labels(yr@))));
            assert(0x100_0000_0000int * 0x100_0000_0000int * 0x100_0000_0000int
                == 0x1_0000_0000_0000_0000_0000_0000_0000_00int) by (nonlinear_arith);
            lemma_weighted_split_fits(
                gl as int,
                l as int,
                gr as int,
                r as int,
                1,
                0x100_0000_0000,
            );
        }
        weigh_split(gl, l, gr, r)
    }
}

/// The variance criterion for integer values: the mean squared distance
/// from the mean.
pub struct VarCriterion;

impl SplitCriterion<i32> for VarCriterion {
    open spec fn scorable(y: Seq<i32>) -> bool {
        y.len() <= MAX_VALUES
    }

    open spec fn presplit(y: Seq<i32>) -> Ratio {
        variance_of(y)
    }

    open spec fn postsplit(yl: Seq<i32>, yr: Seq<i32>) -> Ratio {
        weighted_split(variance_numerator(yl), yl.len(), variance_numerator(yr), yr.len())
    }

    proof fn lemma_rearranged(a: Seq<i32>, b: Seq<i32>) {
        lemma_value_sums_rearranged(a, b);
        vstd::seq_lib::to_multiset_len(a);
        vstd::seq_lib::to_multiset_len(b);
    }

    proof fn lemma_scorable_parts(a: Seq<i32>, b: Seq<i32>) {
    }

    proof fn lemma_postsplit_is_weighted(yl: Seq<i32>, yr: Seq<i32>) {
        lemma_weighted_split(variance_numerator(yl), yl.len(), variance_numerator(yr), yr.len());
    }

    fn is_scorable(y: &[i32]) -> (b: bool) {
        y.len() as u64 <= MAX_VALUES
    }

    fn calc_presplit(y: &[i32]) -> (c: Fraction) {
        let n = y.len() as u128;
        let v = variance_parts(y);
        proof {
            assert(n * n > 0) by (nonlinear_arith)
                requires
                    n > 0,
            ;
            assert(n * n <= 0x20_0000 * 0x20_0000) by (nonlinear_arith)
                requires
                    0 < n <= 0x20_0000,
            ;
        }
        match Fraction::new(v, n * n) {
            Some(c) => c,
            None => Fraction::zero(),
        }
    }

    fn calc_postsplit(yl: &[i32], yr: &[i32]) -> (c: Fraction) {
        let l = yl.len() as u128;
        let r = yr.len() as u128;
        let gl = variance_parts(yl);
        let gr = variance_parts(yr);
        proof {
            assert(0x4000_0000_0000_0000int * (0x20_0000int * 0x20_0000int * 0x20_0000int)
                == 0x2000_0000_0000_0000_0000_0000_0000_0000int) by (nonlinear_arith);
            lemma_weighted_split_fits(
                gl as int,
                l as int,
                gr as int,
                r as int,
                0x4000_0000_0000_0000,
                0x20_0000,
            );
        }
        weigh_split(gl, l, gr, r)
    }
}

/// The numerator of the variance of `y` over the square of their number:
/// the number of values times the sum of their squares, less the square of
/// their sum.
fn variance_parts(y: &[i32]) -> (v: u128)
    requires
        y@.len() <= MAX_VALUES,
    ensures
        v == variance_numerator(y@),
        v <= 0x4000_0000_0000_0000 * (y@.len() * y@.len()),
{
    let n = y.len();
    let (sum, squares) = sum_values(y);
    proof {
        lemma_value_sums_bounded(y@);
        lemma_variance_numerator(y@);
        let s = sum as int;
        let q = squares as int;
        let k = n as int;
        assert(s * s <= (k * 0x8000_0000) * (k * 0x8000_0000)) by (nonlinear_arith)
            requires
                -(k * 0x8000_0000) <= s <= k * 0x8000_0000,
        ;
        assert((k * 0x8000_0000) * (k * 0x8000_0000) == 0x4000_0000_0000_0000 * (k * k)) by (nonlinear_arith);
        assert(k * q <= 0x4000_0000_0000_0000 * (k * k)) by (nonlinear_arith)
            requires
                0 <= q <= k * 0x4000_0000_0000_0000,
                0 <= k,
        ;
        assert(k * k <= 0x20_0000 * 0x20_0000) by (nonlinear_arith)
            requires
                0 <= k <= 0x20_0000,
        ;
        assert(0 <= s * s) by (nonlinear_arith);
        assert(0 <= k * q) by (nonlinear_arith)
            requires
                0 <= q,
                0 <= k,
        ;
    }
    let whole: i128 = (n as i128) * (squares as i128);
    let square: i128 = (sum as i128) * (sum as i128);
    (whole - square) as u128
}

} // verus!
