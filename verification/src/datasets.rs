//! Tabular samples: a row of integer features and a target, with the column
//! index as split parameter. Class labels are trained on with the Gini
//! criterion and class counts as leaves, integer values with the variance
//! criterion and means as leaves.

use vstd::prelude::*;
use crate::array_ops::lemma_mapped_rearranged;
use crate::categorical::{labels, tally, CatCount};
use crate::continuous::{mean_of, Average, Mean, MeanValue};
use crate::criterion::{GiniCriterion, SplitCriterion, VarCriterion};
use crate::data::{bounds_of, DataSet, SampleDescription, TrainingData};
use crate::error::ForestError;
use crate::fraction::{Fraction, Ratio};
use crate::random::{index_step, Generator};
use crate::Shape2D;

verus! {

/// A sample as a pair of a feature row `x` and a target `y`.
#[derive(Debug)]
pub struct TupleSample<Y> {
    pub x: Vec<i64>,
    pub y: Y,
}

impl<Y: Clone> Clone for TupleSample<Y> {
    fn clone(&self) -> (copy: Self)
        ensures
            copy.x@ == self.x@,
            cloned(self.y, copy.y),
    {
        let x = self.x.clone();
        proof {
            assert(x@ =~= self.x@);
        }
        TupleSample { x, y: self.y.clone() }
    }
}

impl<Y> TupleSample<Y> {
    /// The sample with features `x` and target `y`.
    pub fn new(x: Vec<i64>, y: Y) -> (sample: Self)
        ensures
            sample.x == x,
            sample.y == y,
    {
        TupleSample { x, y }
    }
}

/// Whether all rows have one width, which is not zero.
pub open spec fn one_shape<Y>(samples: Seq<TupleSample<Y>>) -> bool {
    &&& forall|i: int| 0 <= i < samples.len() ==> (#[trigger] samples[i]).x@.len() >= 1
    &&& forall|i: int, j: int|
        0 <= i < samples.len() && 0 <= j < samples.len() ==> (#[trigger] samples[i]).x@.len() == (
        #[trigger] samples[j]).x@.len()
}

/// The targets of the samples, in their order.
pub open spec fn targets_of<Y>(samples: Seq<TupleSample<Y>>) -> Seq<Y> {
    samples.map_values(|s: TupleSample<Y>| s.y)
}

/// Rows of one shape are of one shape in any order, and their targets are
/// the same targets in another order.
pub proof fn lemma_rows_rearranged<Y>(a: Seq<TupleSample<Y>>, b: Seq<TupleSample<Y>>)
    requires
        a.to_multiset() == b.to_multiset(),
    ensures
        one_shape(a) ==> one_shape(b),
        a.len() == b.len(),
        targets_of(a).to_multiset() == targets_of(b).to_multiset(),
{
    vstd::seq_lib::to_multiset_len(a);
    vstd::seq_lib::to_multiset_len(b);
    lemma_mapped_rearranged(a, b, |s: TupleSample<Y>| s.y);
    if one_shape(a) {
        assert forall|i: int| 0 <= i < b.len() implies exists|k: int|
            0 <= k < a.len() && a[k] == #[trigger] b[i] by {
            vstd::seq_lib::to_multiset_contains(b, b[i]);
            vstd::seq_lib::to_multiset_contains(a, b[i]);
            assert(b.contains(b[i]));
            assert(a.contains(b[i]));
        }
        assert forall|i: int| 0 <= i < b.len() implies (#[trigger] b[i]).x@.len() >= 1 by {
            let k = choose|k: int| 0 <= k < a.len() && a[k] == b[i];
            assert(a[k].x@.len() >= 1);
        }
        assert forall|i: int, j: int| 0 <= i < b.len() && 0 <= j < b.len() implies (
        #[trigger] b[i]).x@.len() == (#[trigger] b[j]).x@.len() by {
            let k = choose|k: int| 0 <= k < a.len() && a[k] == b[i];
            let l = choose|l: int| 0 <= l < a.len() && a[l] == b[j];
            assert(a[k].x@.len() == a[l].x@.len());
        }
    }
}

/// Each of two parts of rows of one shape is of one shape, and the targets
/// of the whole are those of the parts.
pub proof fn lemma_rows_parts<Y>(a: Seq<TupleSample<Y>>, b: Seq<TupleSample<Y>>)
    ensures
        one_shape(a + b) ==> one_shape(a) && one_shape(b),
        targets_of(a + b) == targets_of(a) + targets_of(b),
{
    let s = a + b;
    assert(targets_of(a + b) =~= targets_of(a) + targets_of(b));
    if one_shape(s) {
        assert forall|i: int| 0 <= i < a.len() implies (#[trigger] a[i]).x@.len() >= 1 by {
            assert(s[i] == a[i]);
        }
        assert forall|i: int, j: int| 0 <= i < a.len() && 0 <= j < a.len() implies (
        #[trigger] a[i]).x@.len() == (#[trigger] a[j]).x@.len() by {
            assert(s[i] == a[i]);
            assert(s[j] == a[j]);
        }
        assert forall|i: int| 0 <= i < b.len() implies (#[trigger] b[i]).x@.len() >= 1 by {
            assert(s[a.len() + i] == b[i]);
        }
        assert forall|i: int, j: int| 0 <= i < b.len() && 0 <= j < b.len() implies (
        #[trigger] b[i]).x@.len() == (#[trigger] b[j]).x@.len() by {
            assert(s[a.len() + i] == b[i]);
            assert(s[a.len() + j] == b[j]);
        }
    }
}

/// Tells whether all rows have one width, which is not zero.
pub fn has_one_shape<Y>(data: &[TupleSample<Y>]) -> (b: bool)
    ensures
        b == one_shape(data@),
{
    let n = data.len();
    if n == 0 {
        return true;
    }
    let width = data[0].x.len();
    if width == 0 {
        return false;
    }
    let mut i: usize = 1;
    while i < n
        invariant
            1 <= i <= n,
            n == data@.len(),
            width == data@[0].x@.len(),
            width >= 1,
            forall|k: int| 0 <= k < i ==> (#[trigger] data@[k]).x@.len() == width,
        decreases n - i,
    {
        if data[i].x.len() != width {
            proof {
                assert(data@[i as int].x@.len() != data@[0].x@.len());
            }
            return false;
        }
        i = i + 1;
    }
    true
}

/// The targets of the samples, in their order.
pub fn collect_targets<Y: Copy>(data: &[TupleSample<Y>]) -> (targets: Vec<Y>)
    ensures
        targets@ == targets_of(data@),
{
    let n = data.len();
    let mut targets: Vec<Y> = Vec::new();
    let mut i: usize = 0;
    while i < n
        invariant
            i <= n,
            n == data@.len(),
            targets@.len() == i,
            forall|k: int| 0 <= k < i ==> #[trigger] targets@[k] == data@[k].y,
        decreases n - i,
    {
        targets.push(data[i].y);
        i = i + 1;
    }
    proof {
        assert(targets@ =~= targets_of(data@));
    }
    targets
}

/// The column that is drawn for rows of one shape from a generator in the
/// state `words`, and the state afterwards: an index below the width of the
/// rows.
pub open spec fn drawn_column<Y>(samples: Seq<TupleSample<Y>>, words: Seq<u32>) -> (usize, Seq<u32>) {
    index_step(words, samples[0].x@.len() as usize)
}

/// The column drawn does not depend on the order of the rows.
pub proof fn lemma_drawn_column_rearranged<Y>(
    a: Seq<TupleSample<Y>>,
    b: Seq<TupleSample<Y>>,
    words: Seq<u32>,
)
    requires
        one_shape(a),
        a.len() > 0,
        a.to_multiset() == b.to_multiset(),
    ensures
        drawn_column(a, words) == drawn_column(b, words),
{
    lemma_rows_rearranged(a, b);
    vstd::seq_lib::to_multiset_contains(b, b[0]);
    vstd::seq_lib::to_multiset_contains(a, b[0]);
    assert(b.contains(b[0]));
    let k = choose|k: int| 0 <= k < a.len() && a[k] == b[0];
    assert(a[k].x@.len() == a[0].x@.len());
}

/// The columns of rows of one shape, in order; none where there are no
/// rows, or rows of several widths.
pub fn all_columns<Y>(data: &[TupleSample<Y>]) -> (all: Option<Vec<usize>>)
    ensures
        all is Some <==> data@.len() > 0 && one_shape(data@),
        all matches Some(columns) ==> columns@.len() == data@[0].x@.len() && forall|c: int|
            0 <= c < columns@.len() ==> #[trigger] columns@[c] == c,
{
    if data.len() == 0 || !has_one_shape(data) {
        return None;
    }
    let width = data[0].x.len();
    let mut columns: Vec<usize> = Vec::new();
    let mut c: usize = 0;
    while c < width
        invariant
            c <= width,
            columns@.len() == c,
            forall|j: int| 0 <= j < c ==> #[trigger] columns@[j] == j,
        decreases width - c,
    {
        columns.push(c);
        c = c + 1;
    }
    Some(columns)
}

/// Draws a column of rows of one shape, each with equal chance.
pub fn draw_column<Y>(data: &[TupleSample<Y>], rng: &mut Generator) -> (theta: usize)
    requires
        one_shape(data@),
        data@.len() > 0,
    ensures
        forall|i: int| 0 <= i < data@.len() ==> theta < (#[trigger] data@[i]).x@.len(),
        (theta, final(rng)@) == drawn_column(data@, old(rng)@),
{
    let width = data[0].x.len();
    let theta = rng.index_below(width);
    proof {
        assert forall|i: int| 0 <= i < data@.len() implies theta < (#[trigger] data@[i]).x@.len() by {
            assert(data@[i].x@.len() == data@[0].x@.len());
        }
    }
    theta
}

impl<Y> Shape2D for [TupleSample<Y>] {
    /// The number of samples, and the width of the first row.
    open spec fn shape(&self) -> (nat, nat) {
        (
            self@.len(),
            if self@.len() > 0 {
                self@[0].x@.len()
            } else {
                0
            },
        )
    }

    fn n_rows(&self) -> (n: usize) {
        self.len()
    }

    fn n_cols(&self) -> (n: usize) {
        if self.len() > 0 {
            self[0].x.len()
        } else {
            0
        }
    }
}

impl SampleDescription for TupleSample<u8> {
    type ThetaSplit = usize;

    type ThetaLeaf = CatCount;

    type Target = u8;

    type Prediction = CatCount;

    /// The sample has the columns below the width of its row.
    open spec fn accepts(&self, theta: &usize) -> bool {
        *theta < self.x@.len()
    }

    open spec fn target_value(&self) -> u8 {
        self.y
    }

    /// The feature that a column index selects is the entry of that column.
    open spec fn feature_value(&self, theta: &usize) -> i64 {
        self.x@[*theta as int]
    }

    /// The prediction at a leaf is the leaf's class counts.
    open spec fn prediction_from(&self, w: Seq<nat>) -> Seq<nat> {
        w
    }

    fn target(&self) -> (t: u8) {
        self.y
    }

    fn has_split_feature(&self, theta: &usize) -> (b: bool) {
        *theta < self.x.len()
    }

    fn sample_as_split_feature(&self, theta: &usize) -> (f: i64) {
        self.x[*theta]
    }

    fn sample_predict(&self, w: &CatCount) -> (p: CatCount) {
        w.clone()
    }
}

impl TrainingData<TupleSample<u8>> for [TupleSample<u8>] {
    /// Rows of one shape, and no more of them than the Gini criterion can
    /// score.
    open spec fn trainable(samples: Seq<TupleSample<u8>>) -> bool {
        one_shape(samples) && GiniCriterion::scorable(targets_of(samples))
    }

    /// A leaf holds the class counts of its samples.
    open spec fn leaf_from(samples: Seq<TupleSample<u8>>) -> Seq<nat> {
        tally(labels(targets_of(samples)))
    }

    /// The Gini impurity of the class labels.
    open spec fn impurity(samples: Seq<TupleSample<u8>>) -> Ratio {
        GiniCriterion::presplit(targets_of(samples))
    }

    open spec fn split_impurity(left: Seq<TupleSample<u8>>, right: Seq<TupleSample<u8>>) -> Ratio {
        GiniCriterion::postsplit(targets_of(left), targets_of(right))
    }

    /// A column is drawn, each with equal chance.
    open spec fn drawn_feature(samples: Seq<TupleSample<u8>>, words: Seq<u32>) -> (usize, Seq<u32>) {
        drawn_column(samples, words)
    }

    proof fn lemma_drawn_feature_rearranged(
        a: Seq<TupleSample<u8>>,
        b: Seq<TupleSample<u8>>,
        words: Seq<u32>,
    ) {
        lemma_drawn_column_rearranged(a, b, words);
    }

    proof fn lemma_leaf_rearranged(a: Seq<TupleSample<u8>>, b: Seq<TupleSample<u8>>) {
        lemma_rows_rearranged(a, b);
        crate::array_ops::lemma_mapped_rearranged(targets_of(a), targets_of(b), |c: u8| c as nat);
        crate::categorical::lemma_tally_rearranged(labels(targets_of(a)), labels(targets_of(b)));
    }

    proof fn lemma_trainable_rearranged(a: Seq<TupleSample<u8>>, b: Seq<TupleSample<u8>>) {
        lemma_rows_rearranged(a, b);
        GiniCriterion::lemma_rearranged(targets_of(a), targets_of(b));
    }

    proof fn lemma_trainable_parts(a: Seq<TupleSample<u8>>, b: Seq<TupleSample<u8>>) {
        lemma_rows_parts(a, b);
        GiniCriterion::lemma_scorable_parts(targets_of(a), targets_of(b));
    }

    proof fn lemma_impurity_rearranged(a: Seq<TupleSample<u8>>, b: Seq<TupleSample<u8>>) {
        lemma_rows_rearranged(a, b);
        GiniCriterion::lemma_rearranged(targets_of(a), targets_of(b));
    }

    proof fn lemma_split_impurity_rearranged(
        l1: Seq<TupleSample<u8>>,
        r1: Seq<TupleSample<u8>>,
        l2: Seq<TupleSample<u8>>,
        r2: Seq<TupleSample<u8>>,
    ) {
        lemma_rows_rearranged(l1, l2);
        lemma_rows_rearranged(r1, r2);
        GiniCriterion::lemma_rearranged(targets_of(l1), targets_of(l2));
        GiniCriterion::lemma_rearranged(targets_of(r1), targets_of(r2));
        assert(GiniCriterion::postsplit(targets_of(l1), targets_of(r1)) == GiniCriterion::postsplit(
            targets_of(l2),
            targets_of(r1),
        ));
    }

    proof fn lemma_split_impurity_is_weighted(
        left: Seq<TupleSample<u8>>,
        right: Seq<TupleSample<u8>>,
    ) {
        GiniCriterion::lemma_postsplit_is_weighted(targets_of(left), targets_of(right));
    }

    fn n_samples(&self) -> (n: usize) {
        self.len()
    }

    fn is_trainable(&self) -> (b: bool) {
        let targets = collect_targets(self);
        has_one_shape(self) && GiniCriterion::is_scorable(targets.as_slice())
    }

    /// All columns, in order.
    fn all_split_features(&self) -> (all: Option<Vec<usize>>)
        ensures
            all is Some <==> self@.len() > 0 && one_shape(self@),
            all matches Some(columns) ==> columns@.len() == self@[0].x@.len() && forall|c: int|
                0 <= c < columns@.len() ==> #[trigger] columns@[c] == c,
    {
        let all = all_columns(self);
        proof {
            if all is Some {
                let columns = all.unwrap();
                assert forall|i: int| 0 <= i < columns@.len() implies crate::split::all_accept(
                    self.samples(),
                    #[trigger] columns@[i],
                ) by {
                    assert forall|j: int| 0 <= j < self@.len() implies (
                    #[trigger] self.samples()[j]).accepts(&columns@[i]) by {
                        assert(self@[j].x@.len() == self@[0].x@.len());
                    }
                }
            }
        }
        all
    }

    /// Draws a column, each with equal chance.
    fn gen_split_feature(&self, rng: &mut Generator) -> (theta: usize) {
        draw_column(self, rng)
    }

    fn train_leaf_predictor(&self) -> (w: CatCount) {
        let targets = collect_targets(self);
        CatCount::tally_of(targets.as_slice())
    }

    fn feature_bounds(&self, theta: &usize) -> (r: Result<(i64, i64), ForestError>) {
        bounds_of(self, theta)
    }

    fn split_criterion(&self) -> (score: Fraction) {
        let targets = collect_targets(self);
        GiniCriterion::calc_presplit(targets.as_slice())
    }

    fn split_criterion_of(left: &Self, right: &Self) -> (score: Fraction) {
        proof {
            lemma_rows_parts(left@, right@);
        }
        let yl = collect_targets(left);
        let yr = collect_targets(right);
        GiniCriterion::calc_postsplit(yl.as_slice(), yr.as_slice())
    }
}

impl SampleDescription for TupleSample<i32> {
    type ThetaSplit = usize;

    type ThetaLeaf = Mean;

    type Target = i32;

    type Prediction = Average;

    /// The sample has the columns below the width of its row.
    open spec fn accepts(&self, theta: &usize) -> bool {
        *theta < self.x@.len()
    }

    open spec fn target_value(&self) -> i32 {
        self.y
    }

    /// The feature that a column index selects is the entry of that column.
    open spec fn feature_value(&self, theta: &usize) -> i64 {
        self.x@[*theta as int]
    }

    /// The prediction at a leaf is the leaf's mean, as an average of one
    /// term.
    open spec fn prediction_from(&self, w: MeanValue) -> Seq<MeanValue> {
        seq![w]
    }

    fn target(&self) -> (t: i32) {
        self.y
    }

    fn has_split_feature(&self, theta: &usize) -> (b: bool) {
        *theta < self.x.len()
    }

    fn sample_as_split_feature(&self, theta: &usize) -> (f: i64) {
        self.x[*theta]
    }

    fn sample_predict(&self, w: &Mean) -> (p: Average) {
        Average::of(*w)
    }
}

impl TrainingData<TupleSample<i32>> for [TupleSample<i32>] {
    /// Rows of one shape, and no more of them than the variance criterion
    /// can score.
    open spec fn trainable(samples: Seq<TupleSample<i32>>) -> bool {
        one_shape(samples) && VarCriterion::scorable(targets_of(samples))
    }

    /// A leaf holds the mean of the targets of its samples.
    open spec fn leaf_from(samples: Seq<TupleSample<i32>>) -> MeanValue {
        mean_of(targets_of(samples))
    }

    /// The variance of the targets.
    open spec fn impurity(samples: Seq<TupleSample<i32>>) -> Ratio {
        VarCriterion::presplit(targets_of(samples))
    }

    open spec fn split_impurity(left: Seq<TupleSample<i32>>, right: Seq<TupleSample<i32>>) -> Ratio {
        VarCriterion::postsplit(targets_of(left), targets_of(right))
    }

    /// A column is drawn, each with equal chance.
    open spec fn drawn_feature(samples: Seq<TupleSample<i32>>, words: Seq<u32>) -> (usize, Seq<u32>) {
        drawn_column(samples, words)
    }

    proof fn lemma_drawn_feature_rearranged(
        a: Seq<TupleSample<i32>>,
        b: Seq<TupleSample<i32>>,
        words: Seq<u32>,
    ) {
        lemma_drawn_column_rearranged(a, b, words);
    }

    proof fn lemma_leaf_rearranged(a: Seq<TupleSample<i32>>, b: Seq<TupleSample<i32>>) {
        lemma_rows_rearranged(a, b);
        crate::continuous::lemma_value_sums_rearranged(targets_of(a), targets_of(b));
    }

    proof fn lemma_trainable_rearranged(a: Seq<TupleSample<i32>>, b: Seq<TupleSample<i32>>) {
        lemma_rows_rearranged(a, b);
        VarCriterion::lemma_rearranged(targets_of(a), targets_of(b));
    }

    proof fn lemma_trainable_parts(a: Seq<TupleSample<i32>>, b: Seq<TupleSample<i32>>) {
        lemma_rows_parts(a, b);
        VarCriterion::lemma_scorable_parts(targets_of(a), targets_of(b));
    }

    proof fn lemma_impurity_rearranged(a: Seq<TupleSample<i32>>, b: Seq<TupleSample<i32>>) {
        lemma_rows_rearranged(a, b);
        VarCriterion::lemma_rearranged(targets_of(a), targets_of(b));
    }

    proof fn lemma_split_impurity_rearranged(
        l1: Seq<TupleSample<i32>>,
        r1: Seq<TupleSample<i32>>,
        l2: Seq<TupleSample<i32>>,
        r2: Seq<TupleSample<i32>>,
    ) {
        lemma_rows_rearranged(l1, l2);
        lemma_rows_rearranged(r1, r2);
        VarCriterion::lemma_rearranged(targets_of(l1), targets_of(l2));
        VarCriterion::lemma_rearranged(targets_of(r1), targets_of(r2));
        assert(VarCriterion::postsplit(targets_of(l1), targets_of(r1)) == VarCriterion::postsplit(
            targets_of(l2),
            targets_of(r1),
        ));
    }

    proof fn lemma_split_impurity_is_weighted(
        left: Seq<TupleSample<i32>>,
        right: Seq<TupleSample<i32>>,
    ) {
        VarCriterion::lemma_postsplit_is_weighted(targets_of(left), targets_of(right));
    }

    fn n_samples(&self) -> (n: usize) {
        self.len()
    }

    fn is_trainable(&self) -> (b: bool) {
        let targets = collect_targets(self);
        has_one_shape(self) && VarCriterion::is_scorable(targets.as_slice())
    }

    /// All columns, in order.
    fn all_split_features(&self) -> (all: Option<Vec<usize>>)
        ensures
            all is Some <==> self@.len() > 0 && one_shape(self@),
            all matches Some(columns) ==> columns@.len() == self@[0].x@.len() && forall|c: int|
                0 <= c < columns@.len() ==> #[trigger] columns@[c] == c,
    {
        let all = all_columns(self);
        proof {
            if all is Some {
                let columns = all.unwrap();
                assert forall|i: int| 0 <= i < columns@.len() implies crate::split::all_accept(
                    self.samples(),
                    #[trigger] columns@[i],
                ) by {
                    assert forall|j: int| 0 <= j < self@.len() implies (
                    #[trigger] self.samples()[j]).accepts(&columns@[i]) by {
                        assert(self@[j].x@.len() == self@[0].x@.len());
                    }
                }
            }
        }
        all
    }

    /// Draws a column, each with equal chance.
    fn gen_split_feature(&self, rng: &mut Generator) -> (theta: usize) {
        draw_column(self, rng)
    }

    fn train_leaf_predictor(&self) -> (w: Mean) {
        let targets = collect_targets(self);
        Mean::of(targets.as_slice())
    }

    fn feature_bounds(&self, theta: &usize) -> (r: Result<(i64, i64), ForestError>) {
        bounds_of(self, theta)
    }

    fn split_criterion(&self) -> (score: Fraction) {
        let targets = collect_targets(self);
        VarCriterion::calc_presplit(targets.as_slice())
    }

    fn split_criterion_of(left: &Self, right: &Self) -> (score: Fraction) {
        proof {
            lemma_rows_parts(left@, right@);
        }
        let yl = collect_targets(left);
        let yr = collect_targets(right);
        VarCriterion::calc_postsplit(yl.as_slice(), yr.as_slice())
    }
}

} // verus!
