//! Decision-tree ensembles for supervised learning on tabular data:
//! randomized trees grown by impurity-driven splits, and forests that
//! combine the predictions of their trees. All arithmetic is exact.

use vstd::prelude::*;

pub mod api;
pub mod array_ops;
pub mod categorical;
pub mod continuous;
pub mod criterion;
pub mod data;
pub mod datasets;
pub mod dforest;
pub mod dtree;
pub mod error;
pub mod fraction;
pub mod predictors;
pub mod random;
pub mod split;
pub mod split_between;
pub mod splitters;

use crate::random::Generator;

verus! {

/// The side of a split.
#[derive(Clone, Copy, Debug, PartialEq, Eq, Structural)]
pub enum Side {
    Left,
    Right,
}

/// A table of samples.
pub trait Data {
    type Sample: Sample;

    /// The number of samples.
    spec fn rows(&self) -> nat;

    fn n_rows(&self) -> (n: usize)
        ensures
            n == self.rows(),
    ;
}

/// A sample that offers features, each selected by a parameter.
pub trait Sample {
    type Theta;

    type Feature;

    /// Whether the sample has the feature that `theta` selects.
    spec fn has_feature(&self, theta: &Self::Theta) -> bool;

    /// The feature that `theta` selects.
    spec fn feature(&self, theta: &Self::Theta) -> Self::Feature;

    fn get_feature(&self, theta: &Self::Theta) -> (f: Self::Feature)
        requires
            self.has_feature(theta),
        ensures
            f == self.feature(theta),
    ;
}

/// The features of a set of samples.
pub trait FeatureSet {
    type Item: Sample;

    /// The samples, in their order.
    spec fn items(&self) -> Seq<Self::Item>;

    /// Whether a feature can be drawn that every sample has.
    spec fn drawable(&self) -> bool;

    fn n_samples(&self) -> (n: usize)
        ensures
            n == self.items().len(),
    ;

    fn get_sample(&self, n: usize) -> (sample: &Self::Item)
        requires
            n < self.items().len(),
        ensures
            *sample == self.items()[n as int],
    ;

    /// Draws the parameter of a feature that every sample has.
    fn random_feature(&self, rng: &mut Generator) -> (theta: <Self::Item as Sample>::Theta)
        requires
            self.drawable(),
        ensures
            forall|i: int|
                0 <= i < self.items().len() ==> (#[trigger] self.items()[i]).has_feature(&theta),
    ;

    /// The least and the greatest value of a feature, which two of the
    /// samples have; none for no samples.
    fn minmax(&self, theta: &<Self::Item as Sample>::Theta) -> (bounds: Option<
        (<Self::Item as Sample>::Feature, <Self::Item as Sample>::Feature),
    >)
        requires
            forall|i: int|
                0 <= i < self.items().len() ==> (#[trigger] self.items()[i]).has_feature(theta),
        ensures
            bounds is None <==> self.items().len() == 0,
            bounds matches Some(b) ==> (exists|i: int|
                0 <= i < self.items().len() && (#[trigger] self.items()[i]).feature(theta) == b.0)
                && (exists|i: int|
                0 <= i < self.items().len() && (#[trigger] self.items()[i]).feature(theta) == b.1),
    ;

    /// Calls `f` for each sample, in order.
    fn for_each_mut<F: Fn(&Self::Item)>(&self, f: F)
        requires
            forall|i: int|
                0 <= i < self.items().len() ==> call_requires(f, (&#[trigger] self.items()[i],)),
        ensures
            forall|i: int|
                0 <= i < self.items().len() ==> call_ensures(f, (&#[trigger] self.items()[i],), ()),
    ;

    /// Calls `f` for each sample, in order.
    fn for_each<F: Fn(&Self::Item)>(&self, f: F)
        requires
            forall|i: int|
                0 <= i < self.items().len() ==> call_requires(f, (&#[trigger] self.items()[i],)),
        ensures
            forall|i: int|
                0 <= i < self.items().len() ==> call_ensures(f, (&#[trigger] self.items()[i],), ()),
    {
        self.for_each_mut(f)
    }
}

/// The outcomes of a set of samples: their targets.
pub trait OutcomeVariable {
    type Item;

    /// The outcomes, in the order of the samples.
    spec fn outcomes(&self) -> Seq<Self::Item>;

    fn n_samples(&self) -> (n: usize)
        ensures
            n == self.outcomes().len(),
    ;

    /// Calls `f` for each outcome, in order.
    fn for_each_mut<F: Fn(&Self::Item)>(&self, f: F)
        requires
            forall|i: int|
                0 <= i < self.outcomes().len() ==> call_requires(
                    f,
                    (&#[trigger] self.outcomes()[i],),
                ),
        ensures
            forall|i: int|
                0 <= i < self.outcomes().len() ==> call_ensures(
                    f,
                    (&#[trigger] self.outcomes()[i],),
                    (),
                ),
    ;

    /// Calls `f` for each outcome, in order.
    fn for_each<F: Fn(&Self::Item)>(&self, f: F)
        requires
            forall|i: int|
                0 <= i < self.outcomes().len() ==> call_requires(
                    f,
                    (&#[trigger] self.outcomes()[i],),
                ),
        ensures
            forall|i: int|
                0 <= i < self.outcomes().len() ==> call_ensures(
                    f,
                    (&#[trigger] self.outcomes()[i],),
                    (),
                ),
    {
        self.for_each_mut(f)
    }
}

/// Type has a length.
pub trait FixedLength {
    /// The length as a number.
    spec fn length(&self) -> nat;

    fn len(&self) -> (n: usize)
        ensures
            n == self.length(),
    ;
}

/// Type is a table of rows and columns.
pub trait Shape2D {
    /// The number of rows and the number of columns.
    spec fn shape(&self) -> (nat, nat);

    fn n_rows(&self) -> (n: usize)
        ensures
            n == self.shape().0,
    ;

    fn n_cols(&self) -> (n: usize)
        ensures
            n == self.shape().1,
    ;
}

impl<'a, T> FixedLength for &'a [T] {
    open spec fn length(&self) -> nat {
        self@.len()
    }

    fn len(&self) -> (n: usize) {
        let s: &[T] = *self;
        s.len()
    }
}

impl<T> FixedLength for [T] {
    open spec fn length(&self) -> nat {
        self@.len()
    }

    fn len(&self) -> (n: usize) {
        <[T]>::len(self)
    }
}

/// Prediction of the final leaf value.
pub trait LeafPredictor: Sized {
    type X: FeatureSet + ?Sized;

    type Y: OutcomeVariable + ?Sized;

    /// Whether the predictor has a value to predict.
    spec fn decided(&self) -> bool;

    /// The value that the predictor predicts, for every sample alike.
    spec fn value(&self) -> <Self::Y as OutcomeVariable>::Item;

    /// Whether the predictor is the one that is fitted to the outcomes `y`.
    spec fn fitted_to(&self, y: Seq<<Self::Y as OutcomeVariable>::Item>) -> bool;

    /// predicted value
    fn predict(&self, x: &<Self::X as FeatureSet>::Item) -> (y: <Self::Y as OutcomeVariable>::Item)
        requires
            self.decided(),
        ensures
            y == self.value(),
    ;

    /// fit predictor to data
    fn fit(x: &Self::X, y: &Self::Y) -> (predictor: Self)
        ensures
            predictor.fitted_to(y.outcomes()),
    ;
}

/// Splits data at a tree node. This is a marker trait, shared by more
/// specialized splitters.
pub trait Splitter: Sized {
    type X: FeatureSet + ?Sized;

    /// Whether the splitter asks only for a feature that every one of
    /// `samples` has.
    spec fn fits(&self, samples: Seq<<Self::X as FeatureSet>::Item>) -> bool;

    /// A splitter with a random feature of `x`.
    fn new_random(x: &Self::X, rng: &mut Generator) -> (splitter: Self)
        requires
            x.drawable(),
        ensures
            splitter.fits(x.items()),
    ;
}

/// Assigns a sample to either side of the split.
pub trait DeterministicSplitter: Splitter {
    /// The side that the sample belongs to.
    spec fn side(&self, f: <Self::X as FeatureSet>::Item) -> Side;

    fn split(&self, f: &<Self::X as FeatureSet>::Item) -> (side: Side)
        requires
            self.fits(seq![*f]),
        ensures
            side == self.side(*f),
    ;
}

} // verus!
