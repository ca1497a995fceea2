use vstd::prelude::*;
use crate::array_ops::lemma_rearranged_all;
use crate::data::{
    bounds, is_bounds, lemma_bounds_rearranged, lemma_bounds_unique, DataSet, SampleDescription,
    TrainingData,
};
use crate::error::ForestError;
use crate::fraction::{lemma_lt_transitive, lemma_not_below_zero, Fraction, Ratio};
use crate::random::{between_step, Generator};
use crate::Side;

verus! {

/// A split: the parameter `theta` that selects a feature, and the threshold
/// that the feature's value is held against. A sample goes left where its
/// feature is at most the threshold, right otherwise.
pub struct Split<Theta, Threshold> {
    pub theta: Theta,
    pub threshold: Threshold,
}

/// Whether `sample` goes to the left of `split`. Samples whose feature
/// equals the threshold go left.
pub open spec fn goes_left<S: SampleDescription>(
    sample: S,
    split: Split<S::ThetaSplit, i64>,
) -> bool {
    sample.feature_value(&split.theta) <= split.threshold
}

/// Whether every one of `samples` has the feature that `theta` selects.
pub open spec fn all_accept<S: SampleDescription>(samples: Seq<S>, theta: S::ThetaSplit) -> bool {
    forall|i: int| 0 <= i < samples.len() ==> (#[trigger] samples[i]).accepts(&theta)
}

/// Whether every one of `samples` goes left.
pub open spec fn all_left<S: SampleDescription>(
    samples: Seq<S>,
    split: Split<S::ThetaSplit, i64>,
) -> bool {
    forall|i: int| 0 <= i < samples.len() ==> goes_left(#[trigger] samples[i], split)
}

/// Whether every one of `samples` goes right.
pub open spec fn all_right<S: SampleDescription>(
    samples: Seq<S>,
    split: Split<S::ThetaSplit, i64>,
) -> bool {
    forall|i: int| 0 <= i < samples.len() ==> !goes_left(#[trigger] samples[i], split)
}

/// Whether `left` and `right` are what `split` makes of `samples`: together
/// a rearrangement of them, `left` holding those that go left.
pub open spec fn splits_into<S: SampleDescription>(
    samples: Seq<S>,
    split: Split<S::ThetaSplit, i64>,
    left: Seq<S>,
    right: Seq<S>,
) -> bool {
    &&& (left + right).to_multiset() == samples.to_multiset()
    &&& all_left(left, split)
    &&& all_right(right, split)
}

/// Whether `samples` stand partitioned by `split` with `m` of them on the
/// left, and neither side is empty.
pub open spec fn is_cut<S: SampleDescription>(
    samples: Seq<S>,
    split: Split<S::ThetaSplit, i64>,
    m: int,
) -> bool {
    &&& 0 < m < samples.len()
    &&& all_left(samples.subrange(0, m), split)
    &&& all_right(samples.subrange(m, samples.len() as int), split)
}

/// The number of samples on the left of partitioned `samples`.
pub open spec fn cut_of<S: SampleDescription>(
    samples: Seq<S>,
    split: Split<S::ThetaSplit, i64>,
) -> int {
    choose|m: int| is_cut(samples, split, m)
}

/// Partitioned samples are cut at one place only.
pub proof fn lemma_cut_unique<S: SampleDescription>(
    samples: Seq<S>,
    split: Split<S::ThetaSplit, i64>,
    m: int,
)
    requires
        is_cut(samples, split, m),
    ensures
        cut_of(samples, split) == m,
{
    let c = cut_of(samples, split);
    assert(is_cut(samples, split, c));
    if c < m {
        assert(samples.subrange(0, m)[c] == samples[c]);
        assert(samples.subrange(c, samples.len() as int)[0] == samples[c]);
    }
    if m < c {
        assert(samples.subrange(0, c)[m] == samples[m]);
        assert(samples.subrange(m, samples.len() as int)[0] == samples[m]);
    }
}

/// The elements of a sequence that is made of two parts are those of the
/// parts, as multisets.
pub proof fn lemma_count_of_parts<T>(a: Seq<T>, b: Seq<T>, x: T)
    ensures
        (a + b).to_multiset().count(x) == a.to_multiset().count(x) + b.to_multiset().count(x),
{
    broadcast use vstd::multiset::group_multiset_axioms;

    vstd::seq_lib::lemma_multiset_commutative(a, b);
}

/// What a split makes of a set of samples is determined up to the order
/// within either side.
pub proof fn lemma_parts_determined<S: SampleDescription>(
    split: Split<S::ThetaSplit, i64>,
    l1: Seq<S>,
    r1: Seq<S>,
    l2: Seq<S>,
    r2: Seq<S>,
)
    requires
        (l1 + r1).to_multiset() == (l2 + r2).to_multiset(),
        all_left(l1, split),
        all_left(l2, split),
        all_right(r1, split),
        all_right(r2, split),
    ensures
        l1.to_multiset() == l2.to_multiset(),
        r1.to_multiset() == r2.to_multiset(),
        l1.len() == l2.len(),
        r1.len() == r2.len(),
{
    assert forall|x: S| l1.to_multiset().count(x) == l2.to_multiset().count(x) && r1.to_multiset().count(x) == r2.to_multiset().count(x) by {
        lemma_count_of_parts(l1, r1, x);
        lemma_count_of_parts(l2, r2, x);
        vstd::seq_lib::to_multiset_contains(l1, x);
        vstd::seq_lib::to_multiset_contains(l2, x);
        vstd::seq_lib::to_multiset_contains(r1, x);
        vstd::seq_lib::to_multiset_contains(r2, x);
        if goes_left(x, split) {
            if r1.contains(x) {
                let i = choose|i: int| 0 <= i < r1.len() && r1[i] == x;
                assert(!goes_left(r1[i], split));
            }
            if r2.contains(x) {
                let i = choose|i: int| 0 <= i < r2.len() && r2[i] == x;
                assert(!goes_left(r2[i], split));
            }
        } else {
            if l1.contains(x) {
                let i = choose|i: int| 0 <= i < l1.len() && l1[i] == x;
                assert(goes_left(l1[i], split));
            }
            if l2.contains(x) {
                let i = choose|i: int| 0 <= i < l2.len() && l2[i] == x;
                assert(goes_left(l2[i], split));
            }
        }
    }
    assert(l1.to_multiset() =~= l2.to_multiset());
    assert(r1.to_multiset() =~= r2.to_multiset());
    vstd::seq_lib::to_multiset_len(l1);
    vstd::seq_lib::to_multiset_len(l2);
    vstd::seq_lib::to_multiset_len(r1);
    vstd::seq_lib::to_multiset_len(r2);
}

/// The samples that go left, in their order.
pub open spec fn left_part<S: SampleDescription>(
    samples: Seq<S>,
    split: Split<S::ThetaSplit, i64>,
) -> Seq<S>
    decreases samples.len(),
{
    if samples.len() == 0 {
        Seq::<S>::empty()
    } else if goes_left(samples.last(), split) {
        left_part(samples.drop_last(), split).push(samples.last())
    } else {
        left_part(samples.drop_last(), split)
    }
}

/// The samples that go right, in their order.
pub open spec fn right_part<S: SampleDescription>(
    samples: Seq<S>,
    split: Split<S::ThetaSplit, i64>,
) -> Seq<S>
    decreases samples.len(),
{
    if samples.len() == 0 {
        Seq::<S>::empty()
    } else if goes_left(samples.last(), split) {
        right_part(samples.drop_last(), split)
    } else {
        right_part(samples.drop_last(), split).push(samples.last())
    }
}

/// The two parts are what the split makes of the samples.
pub proof fn lemma_parts<S: SampleDescription>(samples: Seq<S>, split: Split<S::ThetaSplit, i64>)
    ensures
        splits_into(samples, split, left_part(samples, split), right_part(samples, split)),
        left_part(samples, split).len() + right_part(samples, split).len() == samples.len(),
    decreases samples.len(),
{
    broadcast use vstd::multiset::group_multiset_axioms;

    let l = left_part(samples, split);
    let r = right_part(samples, split);
    if samples.len() == 0 {
        assert(l + r =~= samples);
    } else {
        let rest = samples.drop_last();
        let x = samples.last();
        lemma_parts(rest, split);
        let l0 = left_part(rest, split);
        let r0 = right_part(rest, split);
        assert(samples =~= rest.push(x));
        vstd::seq_lib::to_multiset_build(rest, x);
        vstd::seq_lib::lemma_multiset_commutative(l0, r0);
        vstd::seq_lib::lemma_multiset_commutative(l, r);
        if goes_left(x, split) {
            vstd::seq_lib::to_multiset_build(l0, x);
            assert((l + r).to_multiset() =~= samples.to_multiset());
        } else {
            vstd::seq_lib::to_multiset_build(r0, x);
            assert((l + r).to_multiset() =~= samples.to_multiset());
        }
    }
}

/// The impurity after `split` of `samples`.
pub open spec fn split_score<S: SampleDescription, D: TrainingData<S> + ?Sized>(
    samples: Seq<S>,
    split: Split<S::ThetaSplit, i64>,
) -> Ratio {
    D::split_impurity(left_part(samples, split), right_part(samples, split))
}

/// The impurity after a split is that of the two sides, in whatever order
/// they stand.
pub proof fn lemma_split_score<S: SampleDescription, D: TrainingData<S> + ?Sized>(
    samples: Seq<S>,
    split: Split<S::ThetaSplit, i64>,
    left: Seq<S>,
    right: Seq<S>,
)
    requires
        splits_into(samples, split, left, right),
    ensures
        split_score::<S, D>(samples, split) == D::split_impurity(left, right),
        left.to_multiset() == left_part(samples, split).to_multiset(),
        right.to_multiset() == right_part(samples, split).to_multiset(),
        left.len() == left_part(samples, split).len(),
        right.len() == right_part(samples, split).len(),
{
    lemma_parts(samples, split);
    let l = left_part(samples, split);
    let r = right_part(samples, split);
    lemma_parts_determined(split, left, right, l, r);
    D::lemma_split_impurity_rearranged(left, right, l, r);
}

/// The impurity after a split does not depend on the order of the samples.
pub proof fn lemma_split_score_rearranged<S: SampleDescription, D: TrainingData<S> + ?Sized>(
    a: Seq<S>,
    b: Seq<S>,
    split: Split<S::ThetaSplit, i64>,
)
    requires
        a.to_multiset() == b.to_multiset(),
    ensures
        split_score::<S, D>(a, split) == split_score::<S, D>(b, split),
        left_part(a, split).to_multiset() == left_part(b, split).to_multiset(),
        right_part(a, split).to_multiset() == right_part(b, split).to_multiset(),
{
    lemma_parts(a, split);
    lemma_parts(b, split);
    lemma_split_score::<S, D>(b, split, left_part(a, split), right_part(a, split));
}

/// The side of `split` that `sample` belongs to.
pub fn side_of<S: SampleDescription>(split: &Split<S::ThetaSplit, i64>, sample: &S) -> (side: Side)
    requires
        sample.accepts(&split.theta),
    ensures
        side == Side::Left <==> goes_left(*sample, *split),
        side == Side::Right <==> !goes_left(*sample, *split),
{
    if sample.sample_as_split_feature(&split.theta) <= split.threshold {
        Side::Left
    } else {
        Side::Right
    }
}

/// Whether `split` is a viable split of `samples`: every sample has its
/// feature, neither side is empty, and the impurity after the split is
/// strictly smaller than the impurity before it.
pub open spec fn improves<S: SampleDescription, D: TrainingData<S> + ?Sized>(
    samples: Seq<S>,
    split: Split<S::ThetaSplit, i64>,
) -> bool {
    &&& all_accept(samples, split.theta)
    &&& forall|l: Seq<S>, r: Seq<S>| #[trigger]
        splits_into(samples, split, l, r) ==> l.len() > 0 && r.len() > 0 && D::split_impurity(
            l,
            r,
        ).lt(D::impurity(samples))
}

/// A viable split of samples is a viable split of their rearrangements.
pub proof fn lemma_improves_rearranged<S: SampleDescription, D: TrainingData<S> + ?Sized>(
    a: Seq<S>,
    b: Seq<S>,
    split: Split<S::ThetaSplit, i64>,
)
    requires
        improves::<S, D>(a, split),
        a.to_multiset() == b.to_multiset(),
    ensures
        improves::<S, D>(b, split),
{
    lemma_rearranged_all(a, b, |s: S| s.accepts(&split.theta));
    D::lemma_impurity_rearranged(a, b);
    assert forall|l: Seq<S>, r: Seq<S>| #[trigger] splits_into(b, split, l, r) implies l.len() > 0
        && r.len() > 0 && D::split_impurity(l, r).lt(D::impurity(b)) by {
        assert(splits_into(a, split, l, r));
    }
}

/// A split whose two sides are at hand, with a score below the impurity of
/// the whole, is a viable split.
pub proof fn lemma_improves_from_parts<S: SampleDescription, D: TrainingData<S> + ?Sized>(
    samples: Seq<S>,
    split: Split<S::ThetaSplit, i64>,
    left: Seq<S>,
    right: Seq<S>,
)
    requires
        all_accept(samples, split.theta),
        splits_into(samples, split, left, right),
        left.len() > 0,
        right.len() > 0,
        D::split_impurity(left, right).lt(D::impurity(samples)),
    ensures
        improves::<S, D>(samples, split),
{
    assert forall|l: Seq<S>, r: Seq<S>| #[trigger] splits_into(samples, split, l, r) implies l.len()
        > 0 && r.len() > 0 && D::split_impurity(l, r).lt(D::impurity(samples)) by {
        lemma_parts_determined(split, l, r, left, right);
        D::lemma_split_impurity_rearranged(l, r, left, right);
    }
}

/// A split that was tried, with the impurity after it.
pub struct Candidate<Theta> {
    pub split: Split<Theta, i64>,
    pub score: Fraction,
}

/// A split that was tried, with the impurity after it as a number.
pub struct Trial<Theta> {
    pub split: Split<Theta, i64>,
    pub score: Ratio,
}

impl<Theta> View for Candidate<Theta> {
    type V = Trial<Theta>;

    open spec fn view(&self) -> Trial<Theta> {
        Trial { split: self.split, score: self.score@ }
    }
}

/// The candidate, if there is one, with its score as a number.
pub open spec fn as_trial<Theta>(c: Option<Candidate<Theta>>) -> Option<Trial<Theta>> {
    match c {
        Some(x) => Some(x@),
        None => None,
    }
}

/// Of the best split so far and a new candidate, the one to keep: the
/// candidate where its score is strictly smaller than the best score so far,
/// or, where there is none yet, strictly smaller than the impurity `before`
/// the split; else what was kept before. On equal scores the earlier one
/// stays.
pub open spec fn kept_of<Theta>(
    best: Option<Trial<Theta>>,
    before: Ratio,
    candidate: Trial<Theta>,
) -> Option<Trial<Theta>> {
    match best {
        Some(b) => Some(
            if candidate.score.lt(b.score) {
                candidate
            } else {
                b
            },
        ),
        None => if candidate.score.lt(before) {
            Some(candidate)
        } else {
            None
        },
    }
}

/// Of the best split so far and a new candidate, the one to keep, as
/// `kept_of` says.
pub fn keep_better<Theta>(
    best: Option<Candidate<Theta>>,
    before: &Fraction,
    candidate: Candidate<Theta>,
) -> (kept: Option<Candidate<Theta>>)
    ensures
        as_trial(kept) == kept_of(as_trial(best), before@, candidate@),
        match best {
            Some(b) => kept == Some(
                if candidate.score@.lt(b.score@) {
                    candidate
                } else {
                    b
                },
            ),
            None => kept == (if candidate.score@.lt(before@) {
                Some(candidate)
            } else {
                None
            }),
        },
{
    match best {
        Some(b) => {
            if candidate.score.lt(&b.score) {
                Some(candidate)
            } else {
                Some(b)
            }
        },
        None => {
            if candidate.score.lt(before) {
                Some(candidate)
            } else {
                None
            }
        },
    }
}

/// The best of the first `k` trials on `samples` with a generator that
/// starts in the state `words`, and the state after them. A trial draws a
/// split feature; where the feature is not constant on the samples, it
/// draws a threshold from its least value up to, but not including, its
/// greatest, and the split is a candidate with the impurity after it.
pub open spec fn trials<S: SampleDescription, D: TrainingData<S> + ?Sized>(
    samples: Seq<S>,
    words: Seq<u32>,
    k: nat,
) -> (Option<Trial<S::ThetaSplit>>, Seq<u32>)
    decreases k,
{
    if k == 0 {
        (None, words)
    } else {
        let earlier = trials::<S, D>(samples, words, (k - 1) as nat);
        let drawn = D::drawn_feature(samples, earlier.1);
        let b = bounds(samples, drawn.0);
        if b.0 == b.1 {
            (earlier.0, drawn.1)
        } else {
            let step = between_step(drawn.1, b.0, b.1);
            let split = Split { theta: drawn.0, threshold: step.0 };
            let trial = Trial { split, score: split_score::<S, D>(samples, split) };
            (kept_of(earlier.0, D::impurity(samples), trial), step.1)
        }
    }
}

/// The split that `k` trials on `samples` propose, if any, and the state
/// of the generator after them.
pub open spec fn proposal<S: SampleDescription, D: TrainingData<S> + ?Sized>(
    samples: Seq<S>,
    words: Seq<u32>,
    k: nat,
) -> (Option<Split<S::ThetaSplit, i64>>, Seq<u32>) {
    let t = trials::<S, D>(samples, words, k);
    (
        match t.0 {
            Some(trial) => Some(trial.split),
            None => None,
        },
        t.1,
    )
}

/// What trials propose does not depend on the order of the samples.
pub proof fn lemma_trials_rearranged<S: SampleDescription, D: TrainingData<S> + ?Sized>(
    a: Seq<S>,
    b: Seq<S>,
    words: Seq<u32>,
    k: nat,
)
    requires
        D::trainable(a),
        a.len() > 0,
        a.to_multiset() == b.to_multiset(),
    ensures
        trials::<S, D>(a, words, k) == trials::<S, D>(b, words, k),
        proposal::<S, D>(a, words, k) == proposal::<S, D>(b, words, k),
    decreases k,
{
    if k > 0 {
        lemma_trials_rearranged::<S, D>(a, b, words, (k - 1) as nat);
        let earlier = trials::<S, D>(a, words, (k - 1) as nat);
        D::lemma_drawn_feature_rearranged(a, b, earlier.1);
        let drawn = D::drawn_feature(a, earlier.1);
        lemma_bounds_rearranged(a, b, drawn.0);
        let bd = bounds(a, drawn.0);
        if bd.0 != bd.1 {
            let step = between_step(drawn.1, bd.0, bd.1);
            let split = Split { theta: drawn.0, threshold: step.0 };
            lemma_split_score_rearranged::<S, D>(a, b, split);
            D::lemma_impurity_rearranged(a, b);
        }
    }
}

/// The splitter that tries a number of random splits and keeps the best.
pub struct BestRandomSplit {
    n_splits: usize,
    rng: Generator,
}

impl BestRandomSplit {
    /// A splitter that tries `n_splits` random splits at a time, with a
    /// generator seeded by the system.
    pub fn new(n_splits: usize) -> (splitter: BestRandomSplit)
        ensures
            splitter.trials() == n_splits,
    {
        BestRandomSplit { n_splits, rng: Generator::from_entropy() }
    }

    /// A splitter that tries `n_splits` random splits at a time and takes
    /// its random decisions from `rng`.
    pub fn with_generator(n_splits: usize, rng: Generator) -> (splitter: BestRandomSplit)
        ensures
            splitter.trials() == n_splits,
            splitter.state() == rng@,
    {
        BestRandomSplit { n_splits, rng }
    }

    /// The number of splits tried at a time.
    pub closed spec fn trials(&self) -> nat {
        self.n_splits as nat
    }

    /// The number of splits tried at a time.
    pub fn n_splits(&self) -> (n: usize)
        ensures
            n == self.trials(),
    {
        self.n_splits
    }

    /// The state of the generator.
    pub closed spec fn state(&self) -> Seq<u32> {
        self.rng@
    }

    /// Proposes a split of `data`: tries `n_splits` random splits as
    /// `trials` says and returns the one with the smallest impurity after
    /// the split, the earliest among equals, if that is strictly smaller
    /// than the impurity before. `data` is rearranged.
    ///
    /// A split that is proposed is viable. No split is proposed where none
    /// is tried or the data is pure already; empty data has neither bounds
    /// nor impurity.
    pub fn find_split<S: SampleDescription, D: TrainingData<S> + ?Sized>(
        &mut self,
        data: &mut D,
    ) -> (r: Result<Option<Split<S::ThetaSplit, i64>>, ForestError>)
        requires
            D::trainable(old(data).samples()),
        ensures
            final(self).trials() == old(self).trials(),
            final(data).samples().to_multiset() == old(data).samples().to_multiset(),
            r is Err <==> old(data).samples().len() == 0,
            r is Err ==> r == Err::<Option<Split<S::ThetaSplit, i64>>, ForestError>(
                ForestError::EmptyBounds,
            ) && final(self).state() == old(self).state(),
            r matches Ok(p) ==> (p, final(self).state()) == proposal::<S, D>(
                old(data).samples(),
                old(self).state(),
                old(self).trials(),
            ),
            r matches Ok(Some(split)) ==> improves::<S, D>(final(data).samples(), split),
            old(self).trials() == 0 || D::impurity(old(data).samples()).is_zero() ==> !(r matches Ok(
                Some(_),
            )),
    {
        if data.n_samples() == 0 {
            return Err(ForestError::EmptyBounds);
        }
        let before = data.split_criterion();
        Ok(self.find_split_below(data, &before))
    }

    /// Proposes a split of `data`, of which there is some and whose
    /// impurity is `before`, as `find_split` does.
    pub fn find_split_below<S: SampleDescription, D: TrainingData<S> + ?Sized>(
        &mut self,
        data: &mut D,
        before: &Fraction,
    ) -> (p: Option<Split<S::ThetaSplit, i64>>)
        requires
            D::trainable(old(data).samples()),
            old(data).samples().len() > 0,
            before@ == D::impurity(old(data).samples()),
        ensures
            final(self).trials() == old(self).trials(),
            final(data).samples().to_multiset() == old(data).samples().to_multiset(),
            (p, final(self).state()) == proposal::<S, D>(
                old(data).samples(),
                old(self).state(),
                old(self).trials(),
            ),
            p matches Some(split) ==> improves::<S, D>(final(data).samples(), split),
            old(self).trials() == 0 || before@.is_zero() ==> p is None,
    {
        let mut best: Option<Candidate<S::ThetaSplit>> = None;
        let mut trial: usize = 0;
        let ghost start = self.rng@;
        while trial < self.n_splits
            invariant
                self.trials() == old(self).trials(),
                start == old(self).state(),
                trial <= self.n_splits,
                data.samples().to_multiset() == old(data).samples().to_multiset(),
                data.samples().len() > 0,
                D::trainable(data.samples()),
                before@ == D::impurity(data.samples()),
                before@ == D::impurity(old(data).samples()),
                best matches Some(b) ==> improves::<S, D>(data.samples(), b.split) && b.score@.lt(
                    before@,
                ) && b.score@.den > 0,
                before@.is_zero() ==> best is None,
                trial == 0 ==> best is None,
                (as_trial(best), self.rng@) == trials::<S, D>(data.samples(), start, trial as nat),
            decreases self.n_splits - trial,
        {
            let ghost arranged = data.samples();
            let ghost done = trial as nat;
            let ghost had = best;
            trial = trial + 1;
            let theta = data.gen_split_feature(&mut self.rng);
            let ghost drawn = theta;
            match data.feature_bounds(&theta) {
                Ok((lo, hi)) => {
                    proof {
                        lemma_bounds_unique(arranged, drawn, lo, hi);
                    }
                    if lo != hi {
                        proof {
                            let i = choose|i: int|
                                0 <= i < arranged.len() && (#[trigger] arranged[i]).feature_value(
                                    &drawn,
                                ) == lo;
                            assert(lo <= arranged[i].feature_value(&drawn) <= hi);
                        }
                        let threshold = self.rng.between(lo, hi);
                        let split = Split { theta, threshold };
                        let (left, right) = data.partition_data(&split);
                        let ghost l = left.samples();
                        let ghost r = right.samples();
                        proof {
                            D::lemma_trainable_rearranged(arranged, l + r);
                            lemma_sides_nonempty::<S>(arranged, split, l, r, lo, hi);
                        }
                        let score = D::split_criterion_of(left, right);
                        proof {
                            assert(data.samples() == l + r);
                            D::lemma_impurity_rearranged(arranged, l + r);
                            if best is Some {
                                let b = best.unwrap();
                                lemma_improves_rearranged::<S, D>(arranged, l + r, b.split);
                            }
                            lemma_rearranged_all(arranged, l + r, |s: S| s.accepts(&split.theta));
                            if before@.is_zero() {
                                lemma_not_below_zero(score@, before@);
                            }
                            lemma_split_score::<S, D>(arranged, split, l, r);
                            D::lemma_split_impurity_is_weighted(l, r);
                        }
                        let ghost level = score@;
                        best = keep_better(best, before, Candidate { split, score });
                        proof {
                            if best is Some {
                                let kept = best.unwrap();
                                if kept.split == split && kept.score@ == level {
                                    if had is Some {
                                        let b = had.unwrap();
                                        if level.lt(b.score@) {
                                            lemma_lt_transitive(level, b.score@, before@);
                                        }
                                    }
                                    if level.lt(before@) {
                                        lemma_improves_from_parts::<S, D>(l + r, split, l, r);
                                    }
                                }
                            }
                            assert((as_trial(best), self.rng@) == trials::<S, D>(
                                arranged,
                                start,
                                done + 1,
                            ));
                            lemma_trials_rearranged::<S, D>(arranged, l + r, start, done + 1);
                        }
                    } else {
                        proof {
                            assert((as_trial(best), self.rng@) == trials::<S, D>(
                                arranged,
                                start,
                                done + 1,
                            ));
                        }
                    }
                },
                Err(_) => {},
            }
        }
        proof {
            lemma_trials_rearranged::<S, D>(
                old(data).samples(),
                data.samples(),
                start,
                old(self).trials(),
            );
        }
        match best {
            Some(b) => Some(b.split),
            None => None,
        }
    }
}

/// Where a threshold lies at or above the least and below the greatest
/// value of the split feature, each side of the split gets a sample.
proof fn lemma_sides_nonempty<S: SampleDescription>(
    samples: Seq<S>,
    split: Split<S::ThetaSplit, i64>,
    left: Seq<S>,
    right: Seq<S>,
    lo: i64,
    hi: i64,
)
    requires
        is_bounds(samples, split.theta, lo, hi),
        lo <= split.threshold < hi,
        splits_into(samples, split, left, right),
    ensures
        left.len() > 0,
        right.len() > 0,
{
    let i = choose|i: int|
        0 <= i < samples.len() && (#[trigger] samples[i]).feature_value(&split.theta) == lo;
    let j = choose|j: int|
        0 <= j < samples.len() && (#[trigger] samples[j]).feature_value(&split.theta) == hi;
    let a = samples[i];
    let b = samples[j];
    assert(goes_left(a, split));
    assert(!goes_left(b, split));
    vstd::seq_lib::to_multiset_contains(samples, a);
    vstd::seq_lib::to_multiset_contains(samples, b);
    vstd::seq_lib::to_multiset_contains(left + right, a);
    vstd::seq_lib::to_multiset_contains(left + right, b);
    assert(samples.contains(a));
    assert(samples.contains(b));
    let ka = choose|k: int| 0 <= k < (left + right).len() && (left + right)[k] == a;
    let kb = choose|k: int| 0 <= k < (left + right).len() && (left + right)[k] == b;
    if ka >= left.len() {
        assert(right[ka - left.len()] == a);
    }
    if kb < left.len() {
        assert(left[kb] == b);
    }
}

} // verus!
