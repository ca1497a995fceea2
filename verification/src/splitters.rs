//! Splitters on tabular samples.

use vstd::prelude::*;
use crate::data::{bounds_of, SampleDescription};
use crate::datasets::{draw_column, drawn_column, one_shape, TupleSample};
use crate::random::{between_step, Generator};
use crate::split::{all_accept, Split};
use crate::{Data, DeterministicSplitter, FeatureSet, OutcomeVariable, Sample, Side, Splitter};

verus! {

impl<Y> Sample for TupleSample<Y> {
    type Theta = usize;

    type Feature = i64;

    /// The sample has the columns below the width of its row.
    open spec fn has_feature(&self, theta: &usize) -> bool {
        *theta < self.x@.len()
    }

    /// The feature that a column index selects is the entry of that column.
    open spec fn feature(&self, theta: &usize) -> i64 {
        self.x@[*theta as int]
    }

    fn get_feature(&self, theta: &usize) -> (f: i64) {
        self.x[*theta]
    }
}

impl<Y> Data for [TupleSample<Y>] {
    type Sample = TupleSample<Y>;

    open spec fn rows(&self) -> nat {
        self@.len()
    }

    fn n_rows(&self) -> (n: usize) {
        self.len()
    }
}

impl<Y> OutcomeVariable for [TupleSample<Y>] {
    type Item = Y;

    open spec fn outcomes(&self) -> Seq<Y> {
        crate::datasets::targets_of(self@)
    }

    fn n_samples(&self) -> (n: usize) {
        self.len()
    }

    fn for_each_mut<F: Fn(&Y)>(&self, f: F) {
        let n = self.len();
        let mut i: usize = 0;
        while i < n
            invariant
                i <= n,
                n == self@.len(),
                forall|k: int|
                    0 <= k < self.outcomes().len() ==> call_requires(
                        f,
                        (&#[trigger] self.outcomes()[k],),
                    ),
                forall|k: int| 0 <= k < i ==> call_ensures(f, (&#[trigger] self.outcomes()[k],), ()),
            decreases n - i,
        {
            assert(self.outcomes()[i as int] == self@[i as int].y);
            f(&self[i].y);
            i = i + 1;
        }
    }
}

impl<Y> FeatureSet for [TupleSample<Y>] {
    type Item = TupleSample<Y>;

    open spec fn items(&self) -> Seq<TupleSample<Y>> {
        self@
    }

    /// There are rows, all of one width, which is not zero.
    open spec fn drawable(&self) -> bool {
        self@.len() > 0 && one_shape(self@)
    }

    fn n_samples(&self) -> (n: usize) {
        self.len()
    }

    fn get_sample(&self, n: usize) -> (sample: &TupleSample<Y>) {
        &self[n]
    }

    /// Draws a column, each with equal chance.
    fn random_feature(&self, rng: &mut Generator) -> (theta: usize)
        ensures
            (theta, final(rng)@) == drawn_column(self@, old(rng)@),
    {
        draw_column(self, rng)
    }

    /// The least and the greatest entry of a column.
    fn minmax(&self, theta: &usize) -> (bounds: Option<(i64, i64)>)
        ensures
            bounds matches Some(b) ==> is_column_bounds(self@, *theta, b.0, b.1),
    {
        let n = self.len();
        if n == 0 {
            return None;
        }
        assert(self.items()[0].has_feature(theta));
        let first = self[0].get_feature(theta);
        let mut lo = first;
        let mut hi = first;
        let ghost mut at_lo: int = 0;
        let ghost mut at_hi: int = 0;
        let mut i: usize = 1;
        while i < n
            invariant
                1 <= i <= n,
                n == self@.len(),
                forall|k: int| 0 <= k < self@.len() ==> (#[trigger] self.items()[k]).has_feature(theta),
                0 <= at_lo < i,
                0 <= at_hi < i,
                self.items()[at_lo].feature(theta) == lo,
                self.items()[at_hi].feature(theta) == hi,
                forall|k: int| 0 <= k < i ==> lo <= (#[trigger] self@[k]).feature(theta) <= hi,
            decreases n - i,
        {
            assert(self.items()[i as int].has_feature(theta));
            assert(self.items() == self@);
            let f = self[i].get_feature(theta);
            if f < lo {
                lo = f;
                proof {
                    at_lo = i as int;
                }
            }
            if f > hi {
                hi = f;
                proof {
                    at_hi = i as int;
                }
            }
            i = i + 1;
        }
        proof {
            assert(self.items() == self@);
            assert(self@[at_lo].feature(theta) == lo);
            assert(self@[at_hi].feature(theta) == hi);
        }
        Some((lo, hi))
    }

    fn for_each_mut<F: Fn(&TupleSample<Y>)>(&self, f: F) {
        let n = self.len();
        let mut i: usize = 0;
        while i < n
            invariant
                i <= n,
                n == self@.len(),
                forall|k: int|
                    0 <= k < self.items().len() ==> call_requires(f, (&#[trigger] self.items()[k],)),
                forall|k: int| 0 <= k < i ==> call_ensures(f, (&#[trigger] self.items()[k],), ()),
            decreases n - i,
        {
            assert(self.items()[i as int] == self@[i as int]);
            f(&self[i]);
            i = i + 1;
        }
    }
}

/// Whether `lo` and `hi` are the least and the greatest entry of the column
/// `theta` of the rows.
pub open spec fn is_column_bounds<Y>(
    rows: Seq<TupleSample<Y>>,
    theta: usize,
    lo: i64,
    hi: i64,
) -> bool {
    &&& forall|i: int| 0 <= i < rows.len() ==> lo <= (#[trigger] rows[i]).feature(&theta) <= hi
    &&& exists|i: int| 0 <= i < rows.len() && (#[trigger] rows[i]).feature(&theta) == lo
    &&& exists|i: int| 0 <= i < rows.len() && (#[trigger] rows[i]).feature(&theta) == hi
}

/// A column has one least and one greatest entry.
pub proof fn lemma_column_bounds_unique<Y>(
    rows: Seq<TupleSample<Y>>,
    theta: usize,
    a: (i64, i64),
    b: (i64, i64),
)
    requires
        is_column_bounds(rows, theta, a.0, a.1),
        is_column_bounds(rows, theta, b.0, b.1),
    ensures
        a == b,
{
    let i = choose|i: int| 0 <= i < rows.len() && (#[trigger] rows[i]).feature(&theta) == a.0;
    let j = choose|j: int| 0 <= j < rows.len() && (#[trigger] rows[j]).feature(&theta) == a.1;
    let k = choose|k: int| 0 <= k < rows.len() && (#[trigger] rows[k]).feature(&theta) == b.0;
    let l = choose|l: int| 0 <= l < rows.len() && (#[trigger] rows[l]).feature(&theta) == b.1;
    assert(b.0 <= rows[i].feature(&theta) <= b.1);
    assert(b.0 <= rows[j].feature(&theta) <= b.1);
    assert(a.0 <= rows[k].feature(&theta) <= a.1);
    assert(a.0 <= rows[l].feature(&theta) <= a.1);
}

/// Whether the column `theta`, the `threshold` and the state `after` are
/// what a random threshold splitter draws for `rows` from a generator in
/// the state `words`: a column; and, between the least entry of the column
/// and the greatest, a threshold below the greatest, or, where the column
/// is constant, its one entry without a draw.
pub open spec fn drawn_threshold<Y>(
    rows: Seq<TupleSample<Y>>,
    words: Seq<u32>,
    theta: usize,
    threshold: i64,
    after: Seq<u32>,
) -> bool {
    let column = drawn_column(rows, words);
    &&& theta == column.0
    &&& forall|lo: i64, hi: i64| #[trigger]
        is_column_bounds(rows, theta, lo, hi) ==> (threshold, after) == if lo < hi {
            between_step(column.1, lo, hi)
        } else {
            (lo, column.1)
        }
}

/// A split of tabular samples at a threshold on one column.
pub struct ThresholdSplitter<Y> {
    split: Split<usize, i64>,
    marker: core::marker::PhantomData<Y>,
}

impl<Y> ThresholdSplitter<Y> {
    /// The splitter that holds column `theta` against `threshold`.
    pub fn new(theta: usize, threshold: i64) -> (splitter: Self)
        ensures
            splitter.theta() == theta,
            splitter.threshold() == threshold,
    {
        ThresholdSplitter { split: Split { theta, threshold }, marker: core::marker::PhantomData }
    }

    /// The column.
    pub closed spec fn theta(&self) -> usize {
        self.split.theta
    }

    /// The threshold.
    pub closed spec fn threshold(&self) -> i64 {
        self.split.threshold
    }

    /// The column and the threshold.
    pub fn parts(&self) -> (p: (usize, i64))
        ensures
            p.0 == self.theta(),
            p.1 == self.threshold(),
    {
        (self.split.theta, self.split.threshold)
    }
}

impl<Y> Splitter for ThresholdSplitter<Y> {
    type X = [TupleSample<Y>];

    open spec fn fits(&self, samples: Seq<TupleSample<Y>>) -> bool {
        forall|i: int| 0 <= i < samples.len() ==> (#[trigger] samples[i]).has_feature(&self.theta())
    }

    /// Draws a column and a threshold, as `drawn_threshold` says.
    fn new_random(x: &[TupleSample<Y>], rng: &mut Generator) -> (splitter: Self)
        ensures
            drawn_threshold(x@, old(rng)@, splitter.theta(), splitter.threshold(), final(rng)@),
    {
        let theta = x.random_feature(rng);
        let ghost column = rng@;
        proof {
            assert(x.items() == x@);
        }
        let threshold = match x.minmax(&theta) {
            Some((lo, hi)) => {
                proof {
                    let i = choose|i: int|
                        0 <= i < x@.len() && (#[trigger] x@[i]).feature(&theta) == lo;
                    assert(lo <= x@[i].feature(&theta) <= hi);
                }
                let threshold = if lo < hi {
                    rng.between(lo, hi)
                } else {
                    lo
                };
                proof {
                    assert forall|a: i64, b: i64| #[trigger]
                        is_column_bounds(x@, theta, a, b) implies (threshold, rng@) == if a < b {
                        between_step(column, a, b)
                    } else {
                        (a, column)
                    } by {
                        lemma_column_bounds_unique(x@, theta, (a, b), (lo, hi));
                    }
                }
                threshold
            },
            None => 0,
        };
        ThresholdSplitter::new(theta, threshold)
    }
}

impl<Y> DeterministicSplitter for ThresholdSplitter<Y> {
    /// Left where the entry of the column is at most the threshold.
    open spec fn side(&self, f: TupleSample<Y>) -> Side {
        if f.feature(&self.theta()) <= self.threshold() {
            Side::Left
        } else {
            Side::Right
        }
    }

    fn split(&self, f: &TupleSample<Y>) -> (side: Side) {
        assert(seq![*f][0] == *f);
        if f.get_feature(&self.split.theta) <= self.split.threshold {
            Side::Left
        } else {
            Side::Right
        }
    }
}

} // verus!
