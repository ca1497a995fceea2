//! Continuous targets, held as integers: sums, means and the variance, all
//! exact.

use vstd::prelude::*;
use crate::fraction::Ratio;

verus! {

/// The sum of the values.
pub open spec fn value_sum(y: Seq<i32>) -> int
    decreases y.len(),
{
    if y.len() == 0 {
        0
    } else {
        value_sum(y.drop_last()) + y.last()
    }
}

/// The sum of the squares of the values.
pub open spec fn square_sum(y: Seq<i32>) -> int
    decreases y.len(),
{
    if y.len() == 0 {
        0
    } else {
        square_sum(y.drop_last()) + y.last() * y.last()
    }
}

/// The numerator of the variance over the square of the number of values:
/// `N * (sum of squares) - (sum) * (sum)`.
pub open spec fn variance_numerator(y: Seq<i32>) -> nat {
    (y.len() * square_sum(y) - value_sum(y) * value_sum(y)) as nat
}

/// The variance of the values about their mean, the mean of
/// `(y - mean) * (y - mean)`, as the exact fraction
/// `(N * (sum of squares) - (sum) * (sum)) / (N * N)`; zero for no values.
pub open spec fn variance_of(y: Seq<i32>) -> Ratio {
    if y.len() == 0 {
        Ratio { num: 0, den: 1 }
    } else {
        Ratio { num: variance_numerator(y), den: y.len() * y.len() }
    }
}

/// A mean as the sum of the values over their number.
pub struct MeanValue {
    pub sum: int,
    pub count: nat,
}

/// The mean of the values.
pub open spec fn mean_of(y: Seq<i32>) -> MeanValue {
    MeanValue { sum: value_sum(y), count: y.len() }
}

/// The sums are the folds of addition over the values.
proof fn lemma_value_sums_fold(y: Seq<i32>)
    ensures
        value_sum(y) == y.fold_left(0int, |acc: int, v: i32| acc + v),
        square_sum(y) == y.fold_left(0int, |acc: int, v: i32| acc + v * v),
    decreases y.len(),
{
    if y.len() > 0 {
        lemma_value_sums_fold(y.drop_last());
    }
}

/// The sums, and with them mean and variance, do not depend on the order of
/// the values.
pub proof fn lemma_value_sums_rearranged(a: Seq<i32>, b: Seq<i32>)
    requires
        a.to_multiset() == b.to_multiset(),
    ensures
        a.len() == b.len(),
        value_sum(a) == value_sum(b),
        square_sum(a) == square_sum(b),
        variance_numerator(a) == variance_numerator(b),
        variance_of(a) == variance_of(b),
        mean_of(a) == mean_of(b),
{
    let f = |acc: int, v: i32| acc + v;
    let g = |acc: int, v: i32| acc + v * v;
    assert(vstd::seq_lib::commutative_foldl(f));
    assert(vstd::seq_lib::commutative_foldl(g));
    lemma_value_sums_fold(a);
    lemma_value_sums_fold(b);
    vstd::seq_lib::lemma_fold_left_permutation(a, b, f, 0int);
    vstd::seq_lib::lemma_fold_left_permutation(a, b, g, 0int);
    vstd::seq_lib::to_multiset_len(a);
    vstd::seq_lib::to_multiset_len(b);
}

/// The sums of `N` values of 32 bits are within `N` times the bounds of
/// one value and of its square.
pub proof fn lemma_value_sums_bounded(y: Seq<i32>)
    ensures
        -(y.len() * 0x8000_0000) <= value_sum(y) <= y.len() * 0x8000_0000,
        0 <= square_sum(y) <= y.len() * 0x4000_0000_0000_0000,
    decreases y.len(),
{
    if y.len() > 0 {
        lemma_value_sums_bounded(y.drop_last());
        let v = y.last() as int;
        assert(0 <= v * v <= 0x4000_0000_0000_0000) by (nonlinear_arith)
            requires
                -0x8000_0000 <= v <= 0x8000_0000,
        ;
    }
}

/// One more value keeps the square of the sum below the number of values
/// times the sum of squares.
proof fn lemma_variance_step(s: int, q: int, v: int, k: int)
    requires
        0 <= k,
        0 <= q,
        s * s <= k * q,
        k == 0 ==> s == 0,
    ensures
        (s + v) * (s + v) <= (k + 1) * (q + v * v),
{
    if k == 0 {
        assert((s + v) * (s + v) <= (k + 1) * (q + v * v)) by (nonlinear_arith)
            requires
                s == 0,
                k == 0,
                0 <= q,
        ;
    } else {
        let d = s - k * v;
        assert(d * d >= 0) by (nonlinear_arith);
        assert(k * (2 * (s * v)) <= s * s + k * k * (v * v)) by (nonlinear_arith)
            requires
                d == s - k * v,
                d * d >= 0,
        ;
        assert(k * (2 * (s * v)) <= k * (q + k * (v * v))) by (nonlinear_arith)
            requires
                k * (2 * (s * v)) <= s * s + k * k * (v * v),
                s * s <= k * q,
        ;
        assert(2 * (s * v) <= q + k * (v * v)) by (nonlinear_arith)
            requires
                k * (2 * (s * v)) <= k * (q + k * (v * v)),
                0 < k,
        ;
        assert((s + v) * (s + v) <= (k + 1) * (q + v * v)) by (nonlinear_arith)
            requires
                2 * (s * v) <= q + k * (v * v),
                s * s <= k * q,
        ;
    }
}

/// The variance is not negative: the square of the sum is at most the
/// number of values times the sum of their squares.
pub proof fn lemma_variance_numerator(y: Seq<i32>)
    ensures
        value_sum(y) * value_sum(y) <= y.len() * square_sum(y),
        variance_numerator(y) == y.len() * square_sum(y) - value_sum(y) * value_sum(y),
    decreases y.len(),
{
    if y.len() == 0 {
        let z = value_sum(y);
        assert(z == 0);
        assert(z * z == 0);
        assert(y.len() * square_sum(y) == 0);
    } else {
        lemma_variance_numerator(y.drop_last());
        lemma_value_sums_bounded(y.drop_last());
        let k = y.drop_last().len() as int;
        if k == 0 {
            assert(y.drop_last() =~= Seq::<i32>::empty());
        }
        lemma_variance_step(
            value_sum(y.drop_last()),
            square_sum(y.drop_last()),
            y.last() as int,
            k,
        );
    }
}

/// The sum of the values and the sum of their squares.
pub fn sum_values(y: &[i32]) -> (sums: (i64, u128))
    requires
        y@.len() <= 0x1_0000_0000,
    ensures
        sums.0 == value_sum(y@),
        sums.1 == square_sum(y@),
{
    let n = y.len();
    let mut sum: i64 = 0;
    let mut squares: u128 = 0;
    let mut i: usize = 0;
    while i < n
        invariant
            i <= n,
            n == y@.len(),
            n <= 0x1_0000_0000,
            sum == value_sum(y@.take(i as int)),
            squares == square_sum(y@.take(i as int)),
        decreases n - i,
    {
        let v = y[i];
        proof {
            lemma_value_sums_bounded(y@.take(i as int));
            assert(y@.take(i + 1).drop_last() =~= y@.take(i as int));
            assert(0 <= v * v <= 0x4000_0000_0000_0000) by (nonlinear_arith)
                requires
                    -0x8000_0000 <= v <= 0x8000_0000,
            ;
        }
        sum = sum + v as i64;
        squares = squares + ((v as i64) * (v as i64)) as u128;
        i = i + 1;
    }
    proof {
        assert(y@.take(n as int) =~= y@);
    }
    (sum, squares)
}

/// The exact mean of integer values: their sum and their number. It is the
/// leaf of a regression tree.
#[derive(Clone, Copy, Debug, PartialEq, Eq, Structural)]
pub struct Mean {
    pub sum: i64,
    pub count: u64,
}

impl View for Mean {
    type V = MeanValue;

    open spec fn view(&self) -> MeanValue {
        MeanValue { sum: self.sum as int, count: self.count as nat }
    }
}

impl Mean {
    /// The mean of the values `y`.
    pub fn of(y: &[i32]) -> (m: Mean)
        requires
            y@.len() <= 0x1_0000_0000,
        ensures
            m@ == mean_of(y@),
    {
        let (sum, _) = sum_values(y);
        Mean { sum, count: y.len() as u64 }
    }
}

/// The mean of the means of several trees, held as its terms: the value is
/// the sum of the terms, each a sum over a count, over the number of terms.
/// It is the prediction of a regression forest, and of a single tree with
/// one term.
pub struct Average {
    terms: Vec<Mean>,
}

impl View for Average {
    type V = Seq<MeanValue>;

    closed spec fn view(&self) -> Seq<MeanValue> {
        Seq::new(self.terms@.len(), |i: int| self.terms@[i]@)
    }
}

impl Average {
    /// The average over no term.
    pub fn empty() -> (a: Average)
        ensures
            a@ == Seq::<MeanValue>::empty(),
    {
        let a = Average { terms: Vec::new() };
        proof {
            assert(a@ =~= Seq::<MeanValue>::empty());
        }
        a
    }

    /// The average of the one term `m`.
    pub fn of(m: Mean) -> (a: Average)
        ensures
            a@ == seq![m@],
    {
        let mut terms = Vec::new();
        terms.push(m);
        let a = Average { terms };
        proof {
            assert(a@ =~= seq![m@]);
        }
        a
    }

    /// The number of terms.
    pub fn n_terms(&self) -> (n: usize)
        ensures
            n == self@.len(),
    {
        self.terms.len()
    }

    /// The term at `index`.
    pub fn term(&self, index: usize) -> (m: Option<Mean>)
        ensures
            m is Some <==> index < self@.len(),
            m matches Some(t) ==> t@ == self@[index as int],
    {
        if index < self.terms.len() {
            Some(self.terms[index])
        } else {
            None
        }
    }

    /// The average over the terms of both, those of this one first.
    pub fn join(self, other: &Average) -> (a: Average)
        ensures
            a@ == self@ + other@,
    {
        let mut terms = self.terms;
        let ghost first = self@;
        let n = other.terms.len();
        let mut i: usize = 0;
        while i < n
            invariant
                i <= n,
                n == other.terms@.len(),
                terms@.len() == first.len() + i,
                forall|k: int| 0 <= k < first.len() ==> (#[trigger] terms@[k])@ == first[k],
                forall|k: int| 0 <= k < i ==> (#[trigger] terms@[first.len() + k])@ == other@[k],
            decreases n - i,
        {
            terms.push(other.terms[i]);
            i = i + 1;
        }
        let a = Average { terms };
        proof {
            assert forall|j: int| 0 <= j < a@.len() implies a@[j] == (first + other@)[j] by {
                if j >= first.len() {
                    let k = j - first.len();
                    assert(terms@[first.len() + k]@ == other@[k]);
                }
            }
            assert(a@ =~= first + other@);
        }
        a
    }
}

} // verus!
