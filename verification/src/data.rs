//! Describing data: what a sample offers to a decision tree, and what a set
//! of samples offers to training.

use vstd::prelude::*;
use crate::array_ops::{partition, resample, resampled, split_view};
use crate::error::ForestError;
use crate::fraction::{is_weighted_average, Fraction, Ratio};
use crate::random::Generator;
use crate::split::{all_accept, all_left, all_right, goes_left, Split};

verus! {

/// Data sample used with decision trees. Split features are integers: a
/// sample is sent left where its feature is at most a threshold.
pub trait SampleDescription: Sized {
    /// Type used to parametrize split features.
    type ThetaSplit;

    /// Type used to parametrize leaf predictors.
    type ThetaLeaf: View;

    /// Type of the supervised signal.
    type Target;

    /// Type of predicted values; this can be a value like the target
    /// (regression) or something different (class counts).
    type Prediction: View;

    /// Whether the sample has the feature that `theta` selects.
    spec fn accepts(&self, theta: &Self::ThetaSplit) -> bool;

    /// The target of the sample.
    spec fn target_value(&self) -> Self::Target;

    /// The value of the feature that `theta` selects.
    spec fn feature_value(&self, theta: &Self::ThetaSplit) -> i64;

    /// The prediction for this sample at a leaf with parameter `w`.
    spec fn prediction_from(&self, w: <Self::ThetaLeaf as View>::V) -> <Self::Prediction as View>::V;

    /// Get target value of sample.
    fn target(&self) -> (t: Self::Target)
        ensures
            t == self.target_value(),
    ;

    /// Tell whether the sample has the feature that `theta` selects.
    fn has_split_feature(&self, theta: &Self::ThetaSplit) -> (b: bool)
        ensures
            b == self.accepts(theta),
    ;

    /// Compute the value of a split feature for a given sample.
    fn sample_as_split_feature(&self, theta: &Self::ThetaSplit) -> (f: i64)
        requires
            self.accepts(theta),
        ensures
            f == self.feature_value(theta),
    ;

    /// Compute the leaf prediction for a given sample.
    fn sample_predict(&self, w: &Self::ThetaLeaf) -> (p: Self::Prediction)
        ensures
            p@ == self.prediction_from(w@),
    ;
}

/// Whether `lo` and `hi` are the least and the greatest value that the
/// feature `theta` takes on `samples`.
pub open spec fn is_bounds<S: SampleDescription>(
    samples: Seq<S>,
    theta: S::ThetaSplit,
    lo: i64,
    hi: i64,
) -> bool {
    &&& forall|i: int|
        0 <= i < samples.len() ==> lo <= (#[trigger] samples[i]).feature_value(&theta) <= hi
    &&& exists|i: int| 0 <= i < samples.len() && (#[trigger] samples[i]).feature_value(&theta) == lo
    &&& exists|i: int| 0 <= i < samples.len() && (#[trigger] samples[i]).feature_value(&theta) == hi
}

/// The least and the greatest value that the feature `theta` takes on
/// `samples`, of which there is at least one.
pub open spec fn bounds<S: SampleDescription>(samples: Seq<S>, theta: S::ThetaSplit) -> (i64, i64) {
    choose|b: (i64, i64)| is_bounds(samples, theta, b.0, b.1)
}

/// Samples have one least and one greatest value of a feature.
pub proof fn lemma_bounds_unique<S: SampleDescription>(
    samples: Seq<S>,
    theta: S::ThetaSplit,
    lo: i64,
    hi: i64,
)
    requires
        is_bounds(samples, theta, lo, hi),
    ensures
        bounds(samples, theta) == (lo, hi),
{
    let b = bounds(samples, theta);
    assert(is_bounds(samples, theta, (lo, hi).0, (lo, hi).1));
    assert(is_bounds(samples, theta, b.0, b.1));
    let i = choose|i: int|
        0 <= i < samples.len() && (#[trigger] samples[i]).feature_value(&theta) == lo;
    let j = choose|j: int|
        0 <= j < samples.len() && (#[trigger] samples[j]).feature_value(&theta) == hi;
    let k = choose|k: int|
        0 <= k < samples.len() && (#[trigger] samples[k]).feature_value(&theta) == b.0;
    let l = choose|l: int|
        0 <= l < samples.len() && (#[trigger] samples[l]).feature_value(&theta) == b.1;
    assert(b.0 <= samples[i].feature_value(&theta) <= b.1);
    assert(b.0 <= samples[j].feature_value(&theta) <= b.1);
    assert(lo <= samples[k].feature_value(&theta) <= hi);
    assert(lo <= samples[l].feature_value(&theta) <= hi);
}

/// Samples, if there are any, have a least and a greatest value of a
/// feature.
pub proof fn lemma_bounds_exist<S: SampleDescription>(samples: Seq<S>, theta: S::ThetaSplit)
    requires
        samples.len() > 0,
    ensures
        is_bounds(samples, theta, bounds(samples, theta).0, bounds(samples, theta).1),
    decreases samples.len(),
{
    let last = samples.last().feature_value(&theta);
    if samples.len() == 1 {
        assert(samples[0].feature_value(&theta) == last);
        assert(is_bounds(samples, theta, (last, last).0, (last, last).1));
    } else {
        let rest = samples.drop_last();
        lemma_bounds_exist(rest, theta);
        let b = bounds(rest, theta);
        let i = choose|i: int|
            0 <= i < rest.len() && (#[trigger] rest[i]).feature_value(&theta) == b.0;
        let j = choose|j: int|
            0 <= j < rest.len() && (#[trigger] rest[j]).feature_value(&theta) == b.1;
        let lo = if last < b.0 {
            last
        } else {
            b.0
        };
        let hi = if last > b.1 {
            last
        } else {
            b.1
        };
        let at_lo = if last < b.0 {
            samples.len() - 1
        } else {
            i
        };
        let at_hi = if last > b.1 {
            samples.len() - 1
        } else {
            j
        };
        assert(rest[i] == samples[i]);
        assert(rest[j] == samples[j]);
        assert(samples[at_lo].feature_value(&theta) == lo);
        assert(samples[at_hi].feature_value(&theta) == hi);
        assert forall|k: int| 0 <= k < samples.len() implies lo <= (
        #[trigger] samples[k]).feature_value(&theta) <= hi by {
            if k < rest.len() {
                assert(rest[k] == samples[k]);
            }
        }
        assert(is_bounds(samples, theta, (lo, hi).0, (lo, hi).1));
    }
}

/// The least and the greatest value of a feature do not depend on the order
/// of the samples.
pub proof fn lemma_bounds_rearranged<S: SampleDescription>(
    a: Seq<S>,
    b: Seq<S>,
    theta: S::ThetaSplit,
)
    requires
        a.len() > 0,
        a.to_multiset() == b.to_multiset(),
    ensures
        bounds(a, theta) == bounds(b, theta),
{
    lemma_bounds_exist(a, theta);
    let lo = bounds(a, theta).0;
    let hi = bounds(a, theta).1;
    crate::array_ops::lemma_rearranged_all(
        a,
        b,
        |s: S| lo <= s.feature_value(&theta) <= hi,
    );
    let i = choose|i: int| 0 <= i < a.len() && (#[trigger] a[i]).feature_value(&theta) == lo;
    let j = choose|j: int| 0 <= j < a.len() && (#[trigger] a[j]).feature_value(&theta) == hi;
    vstd::seq_lib::to_multiset_contains(a, a[i]);
    vstd::seq_lib::to_multiset_contains(b, a[i]);
    vstd::seq_lib::to_multiset_contains(a, a[j]);
    vstd::seq_lib::to_multiset_contains(b, a[j]);
    assert(a.contains(a[i]));
    assert(a.contains(a[j]));
    let k = choose|k: int| 0 <= k < b.len() && b[k] == a[i];
    let l = choose|l: int| 0 <= l < b.len() && b[l] == a[j];
    assert(b[k].feature_value(&theta) == lo);
    assert(b[l].feature_value(&theta) == hi);
    assert(is_bounds(b, theta, lo, hi));
    lemma_bounds_unique(b, theta, lo, hi);
}

/// Whether `samples` are in the order of their feature `theta`, smallest
/// first.
pub open spec fn sorted_by<S: SampleDescription>(samples: Seq<S>, theta: S::ThetaSplit) -> bool {
    forall|i: int, j: int|
        0 <= i < j < samples.len() ==> (#[trigger] samples[i]).feature_value(&theta) <= (
        #[trigger] samples[j]).feature_value(&theta)
}

/// `<[T]>::sort_unstable_by` with the comparison of the samples' features
/// `theta`: the slice is rearranged into the order of that feature,
/// smallest first.
#[verifier::external_body]
fn sort_by_feature<S: SampleDescription>(data: &mut [S], theta: &S::ThetaSplit)
    requires
        all_accept(old(data)@, *theta),
    ensures
        final(data)@.to_multiset() == old(data)@.to_multiset(),
        sorted_by(final(data)@, *theta),
{
    data.sort_unstable_by(
        |a, b| a.sample_as_split_feature(theta).cmp(&b.sample_as_split_feature(theta)),
    )
}

/// The least and the greatest value of the feature `theta` over `data`.
/// An empty subset has no bounds.
pub fn bounds_of<S: SampleDescription>(data: &[S], theta: &S::ThetaSplit) -> (r: Result<
    (i64, i64),
    ForestError,
>)
    requires
        all_accept(data@, *theta),
    ensures
        r is Err <==> data@.len() == 0,
        r is Err ==> r == Err::<(i64, i64), ForestError>(ForestError::EmptyBounds),
        r matches Ok(b) ==> is_bounds(data@, *theta, b.0, b.1),
{
    let n = data.len();
    if n == 0 {
        return Err(ForestError::EmptyBounds);
    }
    let first = data[0].sample_as_split_feature(theta);
    let mut lo = first;
    let mut hi = first;
    let ghost mut at_lo: int = 0;
    let ghost mut at_hi: int = 0;
    let mut i: usize = 1;
    while i < n
        invariant
            1 <= i <= n,
            n == data@.len(),
            all_accept(data@, *theta),
            0 <= at_lo < i,
            0 <= at_hi < i,
            data@[at_lo].feature_value(theta) == lo,
            data@[at_hi].feature_value(theta) == hi,
            forall|k: int| 0 <= k < i ==> lo <= (#[trigger] data@[k]).feature_value(theta) <= hi,
        decreases n - i,
    {
        let f = data[i].sample_as_split_feature(theta);
        if f < lo {
            lo = f;
            proof {
                at_lo = i as int;
            }
        }
        if f > hi {
            hi = f;
            proof {
                at_hi = i as int;
            }
        }
        i = i + 1;
    }
    Ok((lo, hi))
}

/// A data set is a collection of samples.
pub trait DataSet<S: SampleDescription> {
    /// The samples, in their present order.
    spec fn samples(&self) -> Seq<S>;

    /// Partition data set in-place according to a split. The two parts are
    /// views of the data set itself: first the samples that go left, then
    /// the others.
    fn partition_data(&mut self, split: &Split<S::ThetaSplit, i64>) -> (parts: (
        &mut Self,
        &mut Self,
    ))
        requires
            all_accept(old(self).samples(), split.theta),
        ensures
            (parts.0.samples() + parts.1.samples()).to_multiset() == old(self).samples().to_multiset(),
            all_left(parts.0.samples(), *split),
            all_right(parts.1.samples(), *split),
            final(self).samples() == final(parts.0).samples() + final(parts.1).samples(),
    ;

    /// Sort data set in-place by feature.
    fn sort_data(&mut self, theta: &S::ThetaSplit)
        requires
            all_accept(old(self).samples(), *theta),
        ensures
            final(self).samples().to_multiset() == old(self).samples().to_multiset(),
            sorted_by(final(self).samples(), *theta),
    ;

    /// Draw `n` samples from this data set with replacement.
    fn bootstrap_resample(&self, n: usize, rng: &mut Generator) -> (drawn: Vec<S>) where S: Clone
        ensures
            resampled(self.samples(), old(rng)@, n as nat, drawn@, final(rng)@),
    ;

    /// Call `visitor` for each sample in the data set, in order.
    fn visit_samples<F: Fn(&S)>(&self, visitor: F)
        requires
            forall|i: int|
                0 <= i < self.samples().len() ==> call_requires(
                    visitor,
                    (&#[trigger] self.samples()[i],),
                ),
        ensures
            forall|i: int|
                0 <= i < self.samples().len() ==> call_ensures(
                    visitor,
                    (&#[trigger] self.samples()[i],),
                    (),
                ),
    ;
}

impl<S: SampleDescription> DataSet<S> for [S] {
    open spec fn samples(&self) -> Seq<S> {
        self@
    }

    fn partition_data(&mut self, split: &Split<S::ThetaSplit, i64>) -> (parts: (
        &mut Self,
        &mut Self,
    )) {
        let goes = |sample: &S| -> (b: bool)
            requires
                sample.accepts(&split.theta),
            ensures
                b == goes_left(*sample, *split),
            { sample.sample_as_split_feature(&split.theta) <= split.threshold };
        let pivot = partition(self, goes);
        let ghost arranged = self@;
        let parts = split_view(self, pivot);
        proof {
            assert(parts.0@ + parts.1@ =~= arranged);
            assert forall|i: int| 0 <= i < parts.0@.len() implies goes_left(
                #[trigger] parts.0@[i],
                *split,
            ) by {
                assert(parts.0@[i] == arranged[i]);
            }
            assert forall|i: int| 0 <= i < parts.1@.len() implies !goes_left(
                #[trigger] parts.1@[i],
                *split,
            ) by {
                assert(parts.1@[i] == arranged[pivot + i]);
            }
        }
        parts
    }

    fn sort_data(&mut self, theta: &S::ThetaSplit) {
        sort_by_feature(self, theta)
    }

    fn bootstrap_resample(&self, n: usize, rng: &mut Generator) -> (drawn: Vec<S>) where S: Clone {
        resample(self, n, rng)
    }

    fn visit_samples<F: Fn(&S)>(&self, visitor: F) {
        let n = self.len();
        let mut i: usize = 0;
        while i < n
            invariant
                i <= n,
                n == self@.len(),
                forall|k: int|
                    0 <= k < self@.len() ==> call_requires(
                        visitor,
                        (&#[trigger] self.samples()[k],),
                    ),
                forall|k: int|
                    0 <= k < i ==> call_ensures(visitor, (&#[trigger] self.samples()[k],), ()),
            decreases n - i,
        {
            assert(self@[i as int] == self.samples()[i as int]);
            visitor(&self[i]);
            i = i + 1;
        }
    }
}

/// Data set that can be used for training decision trees.
pub trait TrainingData<S: SampleDescription>: DataSet<S> {
    /// Whether samples are of one shape and within the limits of exact
    /// arithmetic, so that any part of them can be trained on.
    spec fn trainable(samples: Seq<S>) -> bool;

    /// The leaf parameter that is fitted to `samples`.
    spec fn leaf_from(samples: Seq<S>) -> <S::ThetaLeaf as View>::V;

    /// The impurity of `samples`: smaller is better.
    spec fn impurity(samples: Seq<S>) -> Ratio;

    /// The impurity after a split into `left` and `right`: the average of
    /// the two sides' impurities, each weighted by its number of samples.
    spec fn split_impurity(left: Seq<S>, right: Seq<S>) -> Ratio;

    /// The split feature that is drawn for `samples` from a generator in
    /// the state `words`, and the state afterwards.
    spec fn drawn_feature(samples: Seq<S>, words: Seq<u32>) -> (S::ThetaSplit, Seq<u32>);

    /// The feature drawn does not depend on the order of the samples.
    proof fn lemma_drawn_feature_rearranged(a: Seq<S>, b: Seq<S>, words: Seq<u32>)
        requires
            Self::trainable(a),
            a.len() > 0,
            a.to_multiset() == b.to_multiset(),
        ensures
            Self::drawn_feature(a, words) == Self::drawn_feature(b, words),
    ;

    /// The leaf fitted does not depend on the order of the samples.
    proof fn lemma_leaf_rearranged(a: Seq<S>, b: Seq<S>)
        requires
            a.to_multiset() == b.to_multiset(),
        ensures
            Self::leaf_from(a) == Self::leaf_from(b),
    ;

    /// Rearranged samples can be trained on as well.
    proof fn lemma_trainable_rearranged(a: Seq<S>, b: Seq<S>)
        requires
            Self::trainable(a),
            a.to_multiset() == b.to_multiset(),
        ensures
            Self::trainable(b),
    ;

    /// Each of two parts of trainable samples can be trained on.
    proof fn lemma_trainable_parts(a: Seq<S>, b: Seq<S>)
        requires
            Self::trainable(a + b),
        ensures
            Self::trainable(a),
            Self::trainable(b),
    ;

    /// Impurities do not depend on the order of the samples.
    proof fn lemma_impurity_rearranged(a: Seq<S>, b: Seq<S>)
        requires
            a.to_multiset() == b.to_multiset(),
        ensures
            Self::impurity(a) == Self::impurity(b),
    ;

    /// The impurity after a split does not depend on the order of the
    /// samples within either side.
    proof fn lemma_split_impurity_rearranged(l1: Seq<S>, r1: Seq<S>, l2: Seq<S>, r2: Seq<S>)
        requires
            l1.to_multiset() == l2.to_multiset(),
            r1.to_multiset() == r2.to_multiset(),
        ensures
            Self::split_impurity(l1, r1) == Self::split_impurity(l2, r2),
    ;

    /// The impurity after a split is the sample-weighted average of the
    /// impurities of the two sides.
    proof fn lemma_split_impurity_is_weighted(left: Seq<S>, right: Seq<S>)
        requires
            left.len() > 0,
            right.len() > 0,
        ensures
            Self::impurity(left).den > 0,
            Self::impurity(right).den > 0,
            Self::split_impurity(left, right).den > 0,
            is_weighted_average(
                Self::split_impurity(left, right),
                left.len(),
                Self::impurity(left),
                right.len(),
                Self::impurity(right),
            ),
    ;

    /// Return number of samples in the data set.
    fn n_samples(&self) -> (n: usize)
        ensures
            n == self.samples().len(),
    ;

    /// Tell whether the data set can be trained on.
    fn is_trainable(&self) -> (b: bool)
        ensures
            b == Self::trainable(self.samples()),
    ;

    /// Generate a new split feature (typically, this will be randomized).
    fn gen_split_feature(&self, rng: &mut Generator) -> (theta: S::ThetaSplit)
        requires
            Self::trainable(self.samples()),
            self.samples().len() > 0,
        ensures
            all_accept(self.samples(), theta),
            (theta, final(rng)@) == Self::drawn_feature(self.samples(), old(rng)@),
    ;

    /// Return all split features, where they can be listed: each of them is
    /// one that every sample has. Data sets where this is not possible
    /// return `None` instead, which is also what is done unless an
    /// implementation says otherwise.
    fn all_split_features(&self) -> (all: Option<Vec<S::ThetaSplit>>)
        ensures
            all matches Some(features) ==> forall|i: int|
                0 <= i < features@.len() ==> all_accept(self.samples(), #[trigger] features@[i]),
    {
        None
    }

    /// Train a new leaf predictor.
    fn train_leaf_predictor(&self) -> (w: S::ThetaLeaf)
        requires
            Self::trainable(self.samples()),
            self.samples().len() > 0,
        ensures
            w@ == Self::leaf_from(self.samples()),
    ;

    /// Return minimum and maximum value of a feature. An empty data set has
    /// neither.
    fn feature_bounds(&self, theta: &S::ThetaSplit) -> (r: Result<(i64, i64), ForestError>)
        requires
            all_accept(self.samples(), *theta),
        ensures
            r is Err <==> self.samples().len() == 0,
            r is Err ==> r == Err::<(i64, i64), ForestError>(ForestError::EmptyBounds),
            r matches Ok(b) ==> is_bounds(self.samples(), *theta, b.0, b.1),
    ;

    /// The impurity of the data set before any split.
    fn split_criterion(&self) -> (score: Fraction)
        requires
            Self::trainable(self.samples()),
            self.samples().len() > 0,
        ensures
            score@ == Self::impurity(self.samples()),
    ;

    /// The impurity of the data set that `left` and `right` are the two
    /// sides of.
    fn split_criterion_of(left: &Self, right: &Self) -> (score: Fraction)
        requires
            Self::trainable(left.samples() + right.samples()),
            left.samples().len() > 0,
            right.samples().len() > 0,
        ensures
            score@ == Self::split_impurity(left.samples(), right.samples()),
    ;
}

} // verus!
