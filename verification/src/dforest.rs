//! Forests of decision trees: trees trained independently of one another,
//! whose predictions for a sample are combined into one.

use vstd::prelude::*;
use crate::categorical::{
    lemma_plus_associative, lemma_plus_identity, plus, total_of, CatCount,
};
use crate::continuous::{Average, MeanValue};
use crate::data::{DataSet, SampleDescription, TrainingData};
use crate::dtree::{
    arena, grown, lemma_planted_rearranged, planted, reaches, walkable, DeterministicTree,
    DeterministicTreeBuilder, Limits, Node, NodeView,
};
use crate::error::ForestError;

verus! {

/// A prediction that can be combined over the trees of a forest: a monoid,
/// with a last step that is told over how many trees the sum was taken.
pub trait Aggregate: Sized + View {
    /// The neutral prediction, the sum over no tree.
    spec fn zero_value() -> Self::V;

    /// The sum of two predictions.
    spec fn combined(a: Self::V, b: Self::V) -> Self::V;

    /// Whether the sum of two predictions can be held.
    spec fn addable(a: Self::V, b: Self::V) -> bool;

    /// The sum `a` over `count` trees as a prediction.
    spec fn scaled(a: Self::V, count: nat) -> Self::V;

    /// The sum is associative.
    proof fn lemma_combined_associative(a: Self::V, b: Self::V, c: Self::V)
        ensures
            Self::combined(Self::combined(a, b), c) == Self::combined(a, Self::combined(b, c)),
    ;

    /// The neutral prediction changes no sum.
    proof fn lemma_zero_neutral(a: Self::V)
        ensures
            Self::combined(a, Self::zero_value()) == a,
            Self::combined(Self::zero_value(), a) == a,
    ;

    fn zero() -> (z: Self)
        ensures
            z@ == Self::zero_value(),
    ;

    fn combine(self, other: &Self) -> (sum: Option<Self>)
        ensures
            sum is Some <==> Self::addable(self@, other@),
            sum matches Some(s) ==> s@ == Self::combined(self@, other@),
    ;

    fn finalize(self, count: usize) -> (p: Self)
        ensures
            p@ == Self::scaled(self@, count as nat),
    ;
}

/// Class counts are summed bin by bin; the sum over the trees is itself the
/// prediction, whose shares are the class probabilities.
impl Aggregate for CatCount {
    open spec fn zero_value() -> Seq<nat> {
        Seq::<nat>::empty()
    }

    open spec fn combined(a: Seq<nat>, b: Seq<nat>) -> Seq<nat> {
        plus(a, b)
    }

    open spec fn addable(a: Seq<nat>, b: Seq<nat>) -> bool {
        total_of(a) + total_of(b) <= u64::MAX
    }

    open spec fn scaled(a: Seq<nat>, count: nat) -> Seq<nat> {
        a
    }

    proof fn lemma_combined_associative(a: Seq<nat>, b: Seq<nat>, c: Seq<nat>) {
        lemma_plus_associative(a, b, c);
    }

    proof fn lemma_zero_neutral(a: Seq<nat>) {
        lemma_plus_identity(a);
    }

    fn zero() -> (z: CatCount) {
        CatCount::empty()
    }

    fn combine(self, other: &CatCount) -> (sum: Option<CatCount>) {
        CatCount::combine(self, other)
    }

    fn finalize(self, count: usize) -> (p: CatCount) {
        self
    }
}

/// Means are gathered term by term; the terms of all trees are the
/// prediction, whose value is their mean.
impl Aggregate for Average {
    open spec fn zero_value() -> Seq<MeanValue> {
        Seq::<MeanValue>::empty()
    }

    open spec fn combined(a: Seq<MeanValue>, b: Seq<MeanValue>) -> Seq<MeanValue> {
        a + b
    }

    open spec fn addable(a: Seq<MeanValue>, b: Seq<MeanValue>) -> bool {
        true
    }

    open spec fn scaled(a: Seq<MeanValue>, count: nat) -> Seq<MeanValue> {
        a
    }

    proof fn lemma_combined_associative(a: Seq<MeanValue>, b: Seq<MeanValue>, c: Seq<MeanValue>) {
        assert((a + b) + c =~= a + (b + c));
    }

    proof fn lemma_zero_neutral(a: Seq<MeanValue>) {
        assert(a + Seq::<MeanValue>::empty() =~= a);
        assert(Seq::<MeanValue>::empty() + a =~= a);
    }

    fn zero() -> (z: Average) {
        Average::empty()
    }

    fn combine(self, other: &Average) -> (sum: Option<Average>) {
        Some(self.join(other))
    }

    fn finalize(self, count: usize) -> (p: Average) {
        self
    }
}

/// The nodes of a tree.
pub type Nodes<S> = Seq<Node<<S as SampleDescription>::ThetaSplit, <S as SampleDescription>::ThetaLeaf>>;

/// The prediction of one tree for `sample`: that of the leaf to which the
/// sample descends.
pub open spec fn tree_prediction<S: SampleDescription>(tree: Nodes<S>, sample: S) -> <S::Prediction as View>::V {
    sample.prediction_from(tree[reaches(tree, 0, sample)]->w@)
}

/// The sum of the predictions of the first `k` trees for `sample`.
pub open spec fn sum_of_predictions<S: SampleDescription>(
    trees: Seq<Nodes<S>>,
    sample: S,
    k: nat,
) -> <S::Prediction as View>::V where S::Prediction: Aggregate
    decreases k,
{
    if k == 0 {
        <S::Prediction as Aggregate>::zero_value()
    } else {
        <S::Prediction as Aggregate>::combined(
            sum_of_predictions(trees, sample, (k - 1) as nat),
            tree_prediction(trees[k - 1], sample),
        )
    }
}

/// Whether each of the first `k` trees has a prediction for `sample`, and
/// each can be added to the sum of those before it.
pub open spec fn summable<S: SampleDescription>(trees: Seq<Nodes<S>>, sample: S, k: nat) -> bool where
    S::Prediction: Aggregate,

    decreases k,
{
    if k == 0 {
        true
    } else {
        &&& summable(trees, sample, (k - 1) as nat)
        &&& walkable(trees[k - 1], 0, sample)
        &&& <S::Prediction as Aggregate>::addable(
            sum_of_predictions(trees, sample, (k - 1) as nat),
            tree_prediction(trees[k - 1], sample),
        )
    }
}

/// Whether `r` is what the forest of `trees` predicts for `sample`: the sum
/// of the trees' predictions, taken in the order of the trees and told
/// their number; or, where a tree has no prediction for the sample or a sum
/// cannot be held, a domain violation.
pub open spec fn predicted<S: SampleDescription>(
    trees: Seq<Nodes<S>>,
    sample: S,
    r: Result<S::Prediction, ForestError>,
) -> bool where S::Prediction: Aggregate {
    &&& r is Ok <==> summable(trees, sample, trees.len())
    &&& r is Err ==> r == Err::<S::Prediction, ForestError>(ForestError::DomainViolation)
    &&& r matches Ok(p) ==> p@ == <S::Prediction as Aggregate>::scaled(
        sum_of_predictions(trees, sample, trees.len()),
        trees.len(),
    )
}

/// Inference is repeatable: whatever a forest predicts for a sample, it
/// predicts the same whenever it is asked again.
pub proof fn lemma_prediction_repeatable<S: SampleDescription>(
    trees: Seq<Nodes<S>>,
    sample: S,
    first: Result<S::Prediction, ForestError>,
    second: Result<S::Prediction, ForestError>,
) where S::Prediction: Aggregate
    requires
        predicted(trees, sample, first),
        predicted(trees, sample, second),
    ensures
        first is Ok <==> second is Ok,
        first is Ok ==> first->Ok_0@ == second->Ok_0@,
        first is Err ==> first == second,
{
}

/// Whether the tree is one that growing under `limits` makes of `samples`,
/// in some order of theirs.
pub open spec fn grown_from<S: SampleDescription, D: TrainingData<S> + ?Sized>(
    tree: Nodes<S>,
    samples: Seq<S>,
    limits: Limits,
) -> bool {
    exists|d: Seq<S>|
        d.to_multiset() == samples.to_multiset() && #[trigger] grown::<S, D>(
            tree,
            0,
            tree.len() as int,
            d,
            0,
            limits,
        )
}

/// The nodes of a tree with their leaf parameters as plain values.
pub type Arena<S> = Seq<
    NodeView<
        <S as SampleDescription>::ThetaSplit,
        <<S as SampleDescription>::ThetaLeaf as View>::V,
    >,
>;

/// The nodes of each tree with their leaf parameters as plain values.
pub open spec fn arenas<S: SampleDescription>(trees: Seq<Nodes<S>>) -> Seq<Arena<S>> {
    Seq::new(trees.len(), |t: int| arena(trees[t]))
}

/// The trees of the forest of `n` trees that is grown on `samples` by a
/// builder whose generator is in the state `words`, and the state of the
/// generator afterwards: each tree is grown on all samples, one after the
/// other, each from the state in which the one before has left the
/// generator.
pub open spec fn forest_planted<S: SampleDescription, D: TrainingData<S> + ?Sized>(
    samples: Seq<S>,
    words: Seq<u32>,
    n: nat,
    limits: Limits,
    k: nat,
) -> (Seq<Arena<S>>, Seq<u32>)
    decreases n,
{
    if n == 0 {
        (Seq::<Arena<S>>::empty(), words)
    } else {
        let earlier = forest_planted::<S, D>(samples, words, (n - 1) as nat, limits, k);
        let tree = planted::<S, D>(samples, earlier.1, 0, 0, limits, k);
        (earlier.0.push(tree.0), tree.1)
    }
}

/// Forest determinism. The forest that is grown on samples by a builder
/// with given rules, whose generator is in a given state, is the same
/// whenever it is grown again, and in whatever order the samples stand.
pub proof fn lemma_forest_planted_rearranged<S: SampleDescription, D: TrainingData<S> + ?Sized>(
    a: Seq<S>,
    b: Seq<S>,
    words: Seq<u32>,
    n: nat,
    limits: Limits,
    k: nat,
)
    requires
        D::trainable(a),
        a.len() > 0,
        a.to_multiset() == b.to_multiset(),
    ensures
        forest_planted::<S, D>(a, words, n, limits, k) == forest_planted::<S, D>(
            b,
            words,
            n,
            limits,
            k,
        ),
    decreases n,
{
    if n > 0 {
        lemma_forest_planted_rearranged::<S, D>(a, b, words, (n - 1) as nat, limits, k);
        let earlier = forest_planted::<S, D>(a, words, (n - 1) as nat, limits, k);
        lemma_planted_rearranged::<S, D>(a, b, earlier.1, 0, 0, limits, k);
    }
}

/// A forest: trees in the order in which they were built.
pub struct DeterministicForest<S: SampleDescription> {
    estimators: Vec<DeterministicTree<S>>,
}

impl<S: SampleDescription> View for DeterministicForest<S> {
    type V = Seq<Nodes<S>>;

    closed spec fn view(&self) -> Seq<Nodes<S>> {
        Seq::new(self.estimators@.len(), |t: int| self.estimators@[t]@)
    }
}

impl<S: SampleDescription> DeterministicForest<S> {
    /// The forest of the given trees.
    pub fn new(estimators: Vec<DeterministicTree<S>>) -> (forest: Self)
        ensures
            forest@.len() == estimators@.len(),
            forall|t: int| 0 <= t < estimators@.len() ==> #[trigger] forest@[t] == estimators@[t]@,
    {
        DeterministicForest { estimators }
    }

    /// The number of trees.
    pub fn n_estimators(&self) -> (n: usize)
        ensures
            n == self@.len(),
    {
        self.estimators.len()
    }

    /// The tree at `index`.
    pub fn estimator(&self, index: usize) -> (tree: Option<&DeterministicTree<S>>)
        ensures
            tree is Some <==> index < self@.len(),
            tree matches Some(t) ==> t@ == self@[index as int],
    {
        if index < self.estimators.len() {
            Some(&self.estimators[index])
        } else {
            None
        }
    }

    /// The prediction for `sample`: every tree's prediction, combined in the
    /// order of the trees.
    pub fn predict(&self, sample: &S) -> (r: Result<S::Prediction, ForestError>) where
        S::Prediction: Aggregate,

        ensures
            predicted(self@, *sample, r),
    {
        let n = self.estimators.len();
        let mut sum = <S::Prediction as Aggregate>::zero();
        let mut t: usize = 0;
        while t < n
            invariant
                t <= n,
                n == self.estimators@.len(),
                n == self@.len(),
                summable(self@, *sample, t as nat),
                sum@ == sum_of_predictions(self@, *sample, t as nat),
            decreases n - t,
        {
            proof {
                assert(self@[t as int] == self.estimators@[t as int]@);
            }
            let p = match self.estimators[t].predict(sample) {
                Ok(p) => p,
                Err(e) => {
                    proof {
                        lemma_not_summable(self@, *sample, (t + 1) as nat, n as nat);
                    }
                    return Err(ForestError::DomainViolation);
                },
            };
            sum = match sum.combine(&p) {
                Some(s) => s,
                None => {
                    proof {
                        lemma_not_summable(self@, *sample, (t + 1) as nat, n as nat);
                    }
                    return Err(ForestError::DomainViolation);
                },
            };
            t = t + 1;
        }
        Ok(sum.finalize(n))
    }
}

/// Where the first trees are not summable, no more of them are.
proof fn lemma_not_summable<S: SampleDescription>(trees: Seq<Nodes<S>>, sample: S, j: nat, k: nat) where
    S::Prediction: Aggregate,

    requires
        j <= k,
        !summable(trees, sample, j),
    ensures
        !summable(trees, sample, k),
    decreases k,
{
    if j < k {
        lemma_not_summable(trees, sample, j, (k - 1) as nat);
    }
}

/// Builds forests: a number of trees, each trained on the same samples, one
/// after the other, with random decisions of its own.
pub struct DeterministicForestBuilder {
    n_estimators: usize,
    tree_builder: DeterministicTreeBuilder,
}

impl DeterministicForestBuilder {
    /// A builder of forests of `n_estimators` trees, each built as
    /// `tree_builder` builds them.
    pub fn new(n_estimators: usize, tree_builder: DeterministicTreeBuilder) -> (builder: Self)
        ensures
            builder.size() == n_estimators,
            builder.limits() == tree_builder.limits(),
            builder.trials() == tree_builder.trials(),
            builder.state() == tree_builder.state(),
    {
        DeterministicForestBuilder { n_estimators, tree_builder }
    }

    /// The number of trees of a forest.
    pub closed spec fn size(&self) -> nat {
        self.n_estimators as nat
    }

    /// The stopping rules of the trees.
    pub closed spec fn limits(&self) -> Limits {
        self.tree_builder.limits()
    }

    /// The number of splits that are tried at each node.
    pub closed spec fn trials(&self) -> nat {
        self.tree_builder.trials()
    }

    /// The state of the generator.
    pub closed spec fn state(&self) -> Seq<u32> {
        self.tree_builder.state()
    }

    /// Fits a forest to `data`, which it rearranges: the trees are those
    /// that `forest_planted` names. A forest of no tree needs no data; any
    /// other needs data that is not empty and can be trained on.
    pub fn fit<S: SampleDescription, D: TrainingData<S> + ?Sized>(&mut self, data: &mut D) -> (r:
        Result<DeterministicForest<S>, ForestError>)
        ensures
            final(self).size() == old(self).size(),
            final(self).limits() == old(self).limits(),
            final(self).trials() == old(self).trials(),
            final(data).samples().to_multiset() == old(data).samples().to_multiset(),
            r is Ok <==> old(self).size() == 0 || (old(data).samples().len() > 0 && D::trainable(
                old(data).samples(),
            )),
            r is Err ==> r == Err::<DeterministicForest<S>, ForestError>(
                if old(data).samples().len() == 0 {
                    ForestError::EmptyBounds
                } else {
                    ForestError::DomainViolation
                },
            ) && final(self).state() == old(self).state(),
            r matches Ok(forest) ==> (arenas::<S>(forest@), final(self).state()) == forest_planted::<S, D>(
                old(data).samples(),
                old(self).state(),
                old(self).size(),
                old(self).limits(),
                old(self).trials(),
            ),
            r matches Ok(forest) ==> forest@.len() == old(self).size() && forall|t: int|
                0 <= t < forest@.len() ==> grown_from::<S, D>(
                    #[trigger] forest@[t],
                    old(data).samples(),
                    old(self).limits(),
                ),
    {
        let n = self.n_estimators;
        let mut estimators: Vec<DeterministicTree<S>> = Vec::new();
        let ghost mut planted_so_far: Seq<Arena<S>> = Seq::empty();
        let mut t: usize = 0;
        while t < n
            invariant
                t <= n,
                n == self.n_estimators,
                self.size() == old(self).size(),
                self.limits() == old(self).limits(),
                self.trials() == old(self).trials(),
                data.samples().to_multiset() == old(data).samples().to_multiset(),
                estimators@.len() == t,
                t > 0 ==> old(data).samples().len() > 0 && D::trainable(old(data).samples()),
                t == 0 ==> self.state() == old(self).state(),
                planted_so_far.len() == t,
                forall|j: int| 0 <= j < t ==> #[trigger] planted_so_far[j] == arena(estimators@[j]@),
                (planted_so_far, self.state()) == forest_planted::<S, D>(
                    old(data).samples(),
                    old(self).state(),
                    t as nat,
                    old(self).limits(),
                    old(self).trials(),
                ),
                forall|k: int|
                    0 <= k < t ==> grown_from::<S, D>(
                        (#[trigger] estimators@[k])@,
                        old(data).samples(),
                        old(self).limits(),
                    ),
            decreases n - t,
        {
            let ghost before = data.samples();
            let ghost state_before = self.state();
            proof {
                vstd::seq_lib::to_multiset_len(before);
                vstd::seq_lib::to_multiset_len(old(data).samples());
                if D::trainable(before) {
                    D::lemma_trainable_rearranged(before, old(data).samples());
                }
                if D::trainable(old(data).samples()) {
                    D::lemma_trainable_rearranged(old(data).samples(), before);
                }
            }
            match self.tree_builder.fit(data) {
                Ok(tree) => {
                    proof {
                        assert(grown::<S, D>(
                            tree@,
                            0,
                            tree@.len() as int,
                            data.samples(),
                            0,
                            old(self).limits(),
                        ));
                        lemma_planted_rearranged::<S, D>(
                            before,
                            old(data).samples(),
                            state_before,
                            0,
                            0,
                            old(self).limits(),
                            old(self).trials(),
                        );
                        planted_so_far = planted_so_far.push(arena(tree@));
                    }
                    estimators.push(tree);
                },
                Err(e) => {
                    return Err(e);
                },
            }
            t = t + 1;
        }
        let forest = DeterministicForest::new(estimators);
        proof {
            assert(arenas::<S>(forest@) =~= planted_so_far);
        }
        Ok(forest)
    }
}

} // verus!
