//! Ready-made learners on tabular samples.

use vstd::prelude::*;
use crate::data::{DataSet, SampleDescription, TrainingData};
use crate::datasets::TupleSample;
use crate::dforest::{
    arenas, forest_planted, grown_from, lemma_forest_planted_rearranged, DeterministicForest,
    DeterministicForestBuilder,
};
use crate::dtree::{DeterministicTreeBuilder, Limits};
use crate::error::ForestError;
use crate::random::Generator;
use crate::split::BestRandomSplit;

verus! {

/// The settings of a forest of randomized trees, as plain numbers.
pub struct Settings {
    /// The number of trees.
    pub n_estimators: nat,
    /// The number of random splits tried at each node.
    pub n_splits: nat,
    /// The size below which a subset is not split.
    pub min_samples_split: nat,
}

impl Settings {
    /// The stopping rules of the trees: depth is not limited.
    pub open spec fn limits(self) -> Limits {
        Limits { min_samples_split: self.min_samples_split, max_depth: None }
    }
}

/// What fitting a forest with `settings` to `given` makes of it, with a
/// generator in the state `words`: `found` are the samples afterwards and
/// `r` the result. The samples are rearranged; a forest of no tree needs no
/// data, any other needs data that is not empty and can be trained on; the
/// forest has the number of trees asked for, the trees that
/// `forest_planted` names, each grown on all samples under the stopping
/// rules.
pub open spec fn fitted<S: SampleDescription, D: TrainingData<S> + ?Sized>(
    settings: Settings,
    words: Seq<u32>,
    given: Seq<S>,
    found: Seq<S>,
    r: Result<DeterministicForest<S>, ForestError>,
) -> bool {
    &&& found.to_multiset() == given.to_multiset()
    &&& r matches Ok(forest) ==> arenas::<S>(forest@) == forest_planted::<S, D>(
        given,
        words,
        settings.n_estimators,
        settings.limits(),
        settings.n_splits,
    ).0
    &&& r is Ok <==> settings.n_estimators == 0 || (given.len() > 0 && D::trainable(given))
    &&& r is Err ==> r == Err::<DeterministicForest<S>, ForestError>(
        if given.len() == 0 {
            ForestError::EmptyBounds
        } else {
            ForestError::DomainViolation
        },
    )
    &&& r matches Ok(forest) ==> forest@.len() == settings.n_estimators && forall|t: int|
        0 <= t < forest@.len() ==> grown_from::<S, D>(#[trigger] forest@[t], given, settings.limits())
}

/// Two fits with the same seed give the same forest: with the same
/// settings and a generator in the same state, on the same samples in
/// whatever order, either both fail or both succeed with forests whose
/// trees are the same, node for node.
pub proof fn lemma_same_seed_same_forest<S: SampleDescription, D: TrainingData<S> + ?Sized>(
    settings: Settings,
    words: Seq<u32>,
    first: Seq<S>,
    second: Seq<S>,
    found_first: Seq<S>,
    found_second: Seq<S>,
    r_first: Result<DeterministicForest<S>, ForestError>,
    r_second: Result<DeterministicForest<S>, ForestError>,
)
    requires
        first.to_multiset() == second.to_multiset(),
        fitted::<S, D>(settings, words, first, found_first, r_first),
        fitted::<S, D>(settings, words, second, found_second, r_second),
    ensures
        r_first is Ok <==> r_second is Ok,
        r_first is Err ==> r_first == r_second,
        r_first is Ok ==> arenas::<S>(r_first->Ok_0@) == arenas::<S>(r_second->Ok_0@),
{
    vstd::seq_lib::to_multiset_len(first);
    vstd::seq_lib::to_multiset_len(second);
    if D::trainable(first) {
        D::lemma_trainable_rearranged(first, second);
    }
    if D::trainable(second) {
        D::lemma_trainable_rearranged(second, first);
    }
    if r_first is Ok {
        if first.len() > 0 && D::trainable(first) {
            lemma_forest_planted_rearranged::<S, D>(
                first,
                second,
                words,
                settings.n_estimators,
                settings.limits(),
                settings.n_splits,
            );
        } else {
            assert(settings.n_estimators == 0);
        }
    }
}

/// Fits a forest of `n_estimators` trees to `data`; each node tries
/// `n_splits` random splits, drawn from `rng`.
pub fn fit_forest<S: SampleDescription, D: TrainingData<S> + ?Sized>(
    n_estimators: usize,
    n_splits: usize,
    min_samples_split: usize,
    rng: Generator,
    data: &mut D,
) -> (r: Result<DeterministicForest<S>, ForestError>)
    ensures
        fitted::<S, D>(
            Settings {
                n_estimators: n_estimators as nat,
                n_splits: n_splits as nat,
                min_samples_split: min_samples_split as nat,
            },
            rng@,
            old(data).samples(),
            final(data).samples(),
            r,
        ),
{
    let splitter = BestRandomSplit::with_generator(n_splits, rng);
    let tree_builder = DeterministicTreeBuilder::new(min_samples_split, None, splitter);
    let mut builder = DeterministicForestBuilder::new(n_estimators, tree_builder);
    builder.fit(data)
}

/// A forest of regression trees.
pub type RegressionModel = DeterministicForest<TupleSample<i32>>;

/// A forest of classification trees.
pub type ClassificationModel = DeterministicForest<TupleSample<u8>>;

/// An extra-trees regressor: a forest of randomized regression trees on
/// tabular samples with integer targets.
pub struct ExtraTreesRegressor {
    n_estimators: usize,
    n_splits: usize,
    min_samples_split: usize,
}

impl View for ExtraTreesRegressor {
    type V = Settings;

    closed spec fn view(&self) -> Settings {
        Settings {
            n_estimators: self.n_estimators as nat,
            n_splits: self.n_splits as nat,
            min_samples_split: self.min_samples_split as nat,
        }
    }
}

impl ExtraTreesRegressor {
    /// Ten trees, one random split per node, and no subset too small to
    /// split.
    pub fn new() -> (r: ExtraTreesRegressor)
        ensures
            r@ == (Settings { n_estimators: 10, n_splits: 1, min_samples_split: 1 }),
    {
        ExtraTreesRegressor { n_estimators: 10, n_splits: 1, min_samples_split: 1 }
    }

    /// Sets the number of trees.
    pub fn n_estimators(self, n: usize) -> (r: Self)
        ensures
            r@ == (Settings { n_estimators: n as nat, ..self@ }),
    {
        let mut r = self;
        r.n_estimators = n;
        r
    }

    /// Sets the number of random splits tried at each node.
    pub fn n_splits(self, n: usize) -> (r: Self)
        ensures
            r@ == (Settings { n_splits: n as nat, ..self@ }),
    {
        let mut r = self;
        r.n_splits = n;
        r
    }

    /// Sets the size below which a subset is not split.
    pub fn min_samples_split(self, n: usize) -> (r: Self)
        ensures
            r@ == (Settings { min_samples_split: n as nat, ..self@ }),
    {
        let mut r = self;
        r.min_samples_split = n;
        r
    }

    /// Fits the forest to `data`, drawing from a generator in a state that
    /// the system draws.
    pub fn fit(self, data: &mut [TupleSample<i32>]) -> (r: Result<RegressionModel, ForestError>)
        ensures
            exists|words: Seq<u32>|
                fitted::<TupleSample<i32>, [TupleSample<i32>]>(
                    self@,
                    words,
                    old(data)@,
                    final(data)@,
                    r,
                ),
    {
        let rng = Generator::from_entropy();
        let ghost words = rng@;
        let r = self.fit_with(data, rng);
        proof {
            assert(fitted::<TupleSample<i32>, [TupleSample<i32>]>(
                self@,
                words,
                old(data)@,
                data@,
                r,
            ));
        }
        r
    }

    /// Fits the forest to `data`, drawing from `rng`.
    pub fn fit_with(self, data: &mut [TupleSample<i32>], rng: Generator) -> (r: Result<
        RegressionModel,
        ForestError,
    >)
        ensures
            fitted::<TupleSample<i32>, [TupleSample<i32>]>(
                self@,
                rng@,
                old(data)@,
                final(data)@,
                r,
            ),
    {
        fit_forest(self.n_estimators, self.n_splits, self.min_samples_split, rng, data)
    }
}

/// An extra-trees classifier: a forest of randomized classification trees
/// on tabular samples with class labels.
pub struct ExtraTreesClassifier {
    n_estimators: usize,
    n_splits: usize,
    min_samples_split: usize,
}

impl View for ExtraTreesClassifier {
    type V = Settings;

    closed spec fn view(&self) -> Settings {
        Settings {
            n_estimators: self.n_estimators as nat,
            n_splits: self.n_splits as nat,
            min_samples_split: self.min_samples_split as nat,
        }
    }
}

impl ExtraTreesClassifier {
    /// Ten trees, one random split per node, and no subset too small to
    /// split.
    pub fn new() -> (r: ExtraTreesClassifier)
        ensures
            r@ == (Settings { n_estimators: 10, n_splits: 1, min_samples_split: 1 }),
    {
        ExtraTreesClassifier { n_estimators: 10, n_splits: 1, min_samples_split: 1 }
    }

    /// Sets the number of trees.
    pub fn n_estimators(self, n: usize) -> (r: Self)
        ensures
            r@ == (Settings { n_estimators: n as nat, ..self@ }),
    {
        let mut r = self;
        r.n_estimators = n;
        r
    }

    /// Sets the number of random splits tried at each node.
    pub fn n_splits(self, n: usize) -> (r: Self)
        ensures
            r@ == (Settings { n_splits: n as nat, ..self@ }),
    {
        let mut r = self;
        r.n_splits = n;
        r
    }

    /// Sets the size below which a subset is not split.
    pub fn min_samples_split(self, n: usize) -> (r: Self)
        ensures
            r@ == (Settings { min_samples_split: n as nat, ..self@ }),
    {
        let mut r = self;
        r.min_samples_split = n;
        r
    }

    /// Fits the forest to `data`, drawing from a generator in a state that
    /// the system draws.
    pub fn fit(self, data: &mut [TupleSample<u8>]) -> (r: Result<ClassificationModel, ForestError>)
        ensures
            exists|words: Seq<u32>|
                fitted::<TupleSample<u8>, [TupleSample<u8>]>(
                    self@,
                    words,
                    old(data)@,
                    final(data)@,
                    r,
                ),
    {
        let rng = Generator::from_entropy();
        let ghost words = rng@;
        let r = self.fit_with(data, rng);
        proof {
            assert(fitted::<TupleSample<u8>, [TupleSample<u8>]>(
                self@,
                words,
                old(data)@,
                data@,
                r,
            ));
        }
        r
    }

    /// Fits the forest to `data`, drawing from `rng`.
    pub fn fit_with(self, data: &mut [TupleSample<u8>], rng: Generator) -> (r: Result<
        ClassificationModel,
        ForestError,
    >)
        ensures
            fitted::<TupleSample<u8>, [TupleSample<u8>]>(
                self@,
                rng@,
                old(data)@,
                final(data)@,
                r,
            ),
    {
        fit_forest(self.n_estimators, self.n_splits, self.min_samples_split, rng, data)
    }
}

} // verus!
