//! Decision trees with deterministic splits: a sample goes to exactly one
//! side of each split.

use vstd::prelude::*;
use crate::array_ops::lemma_rearranged_all;
use crate::data::{DataSet, SampleDescription, TrainingData};
use crate::error::ForestError;
use crate::split::{
    all_accept, all_left, all_right, cut_of, goes_left, improves, is_cut, lemma_cut_unique,
    lemma_parts, lemma_split_score, lemma_split_score_rearranged, lemma_trials_rearranged,
    left_part, proposal, right_part, splits_into, BestRandomSplit, Split,
};

verus! {

/// A node of a tree. Nodes stand in one sequence and name their children by
/// index; a parent stands before its children, the left child directly
/// behind it.
pub enum Node<Theta, Leaf> {
    /// An inner node: a split and the indices of the two children.
    Internal { split: Split<Theta, i64>, left: usize, right: usize },
    /// A leaf with its parameter.
    Leaf { w: Leaf },
}

/// A node with its leaf parameter as a plain value.
pub enum NodeView<Theta, LeafValue> {
    /// An inner node: a split and the indices of the two children.
    Internal { split: Split<Theta, i64>, left: nat, right: nat },
    /// A leaf with its parameter.
    Leaf { w: LeafValue },
}

/// The node with its leaf parameter as a plain value.
pub open spec fn node_view<Theta, Leaf: View>(node: Node<Theta, Leaf>) -> NodeView<Theta, Leaf::V> {
    match node {
        Node::Internal { split, left, right } => NodeView::Internal {
            split,
            left: left as nat,
            right: right as nat,
        },
        Node::Leaf { w } => NodeView::Leaf { w: w@ },
    }
}

/// The nodes with their leaf parameters as plain values.
pub open spec fn arena<Theta, Leaf: View>(nodes: Seq<Node<Theta, Leaf>>) -> Seq<
    NodeView<Theta, Leaf::V>,
> {
    Seq::new(nodes.len(), |i: int| node_view(nodes[i]))
}

/// The stopping rules of tree growing.
pub struct Limits {
    /// Subsets with fewer samples are not split.
    pub min_samples_split: nat,
    /// Nodes at this depth are not split, the root being at depth 0.
    pub max_depth: Option<nat>,
}

impl Limits {
    /// Whether a subset of `n` samples at `depth` may be split.
    pub open spec fn allow(self, n: nat, depth: nat) -> bool {
        &&& n >= self.min_samples_split
        &&& self.max_depth matches Some(d) ==> depth < d
    }
}

/// Whether the nodes form a tree in which every inner node stands directly
/// before its left child and before its right child.
pub open spec fn shaped<Theta, Leaf>(nodes: Seq<Node<Theta, Leaf>>) -> bool {
    &&& nodes.len() > 0
    &&& forall|i: int|
        0 <= i < nodes.len() && (#[trigger] nodes[i]) is Internal ==> nodes[i]->left == i + 1 && i
            + 1 < nodes[i]->right < nodes.len()
}

/// The index of the leaf that `sample` comes to when it descends from the
/// node `i`: left where its feature is at most the threshold, right
/// otherwise.
pub open spec fn reaches<S: SampleDescription>(
    nodes: Seq<Node<S::ThetaSplit, S::ThetaLeaf>>,
    i: int,
    sample: S,
) -> int
    decreases nodes.len() - i,
{
    if 0 <= i < nodes.len() {
        match nodes[i] {
            Node::Internal { split, left, right } => {
                if i < left < nodes.len() && i < right < nodes.len() {
                    if goes_left(sample, split) {
                        reaches(nodes, left as int, sample)
                    } else {
                        reaches(nodes, right as int, sample)
                    }
                } else {
                    i
                }
            },
            Node::Leaf { .. } => i,
        }
    } else {
        i
    }
}

/// Whether `sample` has every split feature that is asked of it on its way
/// down from the node `i`.
pub open spec fn walkable<S: SampleDescription>(
    nodes: Seq<Node<S::ThetaSplit, S::ThetaLeaf>>,
    i: int,
    sample: S,
) -> bool
    decreases nodes.len() - i,
{
    if 0 <= i < nodes.len() {
        match nodes[i] {
            Node::Internal { split, left, right } => {
                sample.accepts(&split.theta) && if i < left < nodes.len() && i < right
                    < nodes.len() {
                    if goes_left(sample, split) {
                        walkable(nodes, left as int, sample)
                    } else {
                        walkable(nodes, right as int, sample)
                    }
                } else {
                    true
                }
            },
            Node::Leaf { .. } => true,
        }
    } else {
        true
    }
}

/// Whether the nodes from `i` up to `end` are the tree that was grown on the
/// samples `d`, which stand in the order in which growing left them, the
/// node `i` being at `depth`:
/// - a leaf is the only node, holds at least one sample, and its parameter
///   is fitted to its samples;
/// - an inner node was allowed by the stopping rules; every sample has its
///   split feature; the samples stand partitioned by its split with neither
///   side empty; the impurity after the split is strictly smaller than the
///   impurity before; the left subtree follows directly and was grown on
///   the left samples, the right subtree follows the left one and was grown
///   on the right samples.
pub open spec fn grown<S: SampleDescription, D: TrainingData<S> + ?Sized>(
    nodes: Seq<Node<S::ThetaSplit, S::ThetaLeaf>>,
    i: int,
    end: int,
    d: Seq<S>,
    depth: nat,
    limits: Limits,
) -> bool
    decreases end - i,
{
    if 0 <= i < end <= nodes.len() {
        match nodes[i] {
            Node::Leaf { w } => end == i + 1 && d.len() > 0 && w@ == D::leaf_from(d),
            Node::Internal { split, left, right } => {
                let m = cut_of(d, split);
                &&& left == i + 1
                &&& i + 1 < right < end
                &&& limits.allow(d.len(), depth)
                &&& all_accept(d, split.theta)
                &&& is_cut(d, split, m)
                &&& D::split_impurity(d.subrange(0, m), d.subrange(m, d.len() as int)).lt(
                    D::impurity(d),
                )
                &&& grown::<S, D>(nodes, left as int, right as int, d.subrange(0, m), depth + 1, limits)
                &&& grown::<S, D>(
                    nodes,
                    right as int,
                    end,
                    d.subrange(m, d.len() as int),
                    depth + 1,
                    limits,
                )
            },
        }
    } else {
        false
    }
}

/// The nodes of the tree that is grown on `samples`, its root standing at
/// index `at` and at `depth`, by a builder that tries `k` splits at a node
/// and whose generator is in the state `words`; and the state of the
/// generator afterwards.
///
/// Where the stopping rules forbid a split or the samples are pure, the
/// tree is a leaf fitted to the samples, and nothing is drawn. Otherwise
/// the trials propose a split;
/// where they propose none, the tree is a leaf. Otherwise the root holds
/// the split; the left subtree follows it directly and is grown on the
/// samples that go left, the right subtree follows the left one and is
/// grown on the others.
pub open spec fn planted<S: SampleDescription, D: TrainingData<S> + ?Sized>(
    samples: Seq<S>,
    words: Seq<u32>,
    at: nat,
    depth: nat,
    limits: Limits,
    k: nat,
) -> (Seq<NodeView<S::ThetaSplit, <S::ThetaLeaf as View>::V>>, Seq<u32>)
    decreases samples.len(),
{
    let leaf = seq![NodeView::Leaf { w: D::leaf_from(samples) }];
    if !limits.allow(samples.len(), depth) || D::impurity(samples).is_zero() {
        (leaf, words)
    } else {
        let p = proposal::<S, D>(samples, words, k);
        match p.0 {
            None => (leaf, p.1),
            Some(split) => {
                let l = left_part(samples, split);
                let r = right_part(samples, split);
                if 0 < l.len() < samples.len() && 0 < r.len() < samples.len() {
                    let lt = planted::<S, D>(l, p.1, at + 1, depth + 1, limits, k);
                    let rt = planted::<S, D>(r, lt.1, at + 1 + lt.0.len(), depth + 1, limits, k);
                    (
                        seq![
                            NodeView::Internal { split, left: at + 1, right: at + 1 + lt.0.len() },
                        ] + lt.0 + rt.0,
                        rt.1,
                    )
                } else {
                    (leaf, p.1)
                }
            },
        }
    }
}

/// Tree determinism. The tree that is grown on samples by a builder with
/// given rules, whose generator is in a given state, is the same whenever
/// it is grown again, and in whatever order the samples stand.
pub proof fn lemma_planted_rearranged<S: SampleDescription, D: TrainingData<S> + ?Sized>(
    a: Seq<S>,
    b: Seq<S>,
    words: Seq<u32>,
    at: nat,
    depth: nat,
    limits: Limits,
    k: nat,
)
    requires
        D::trainable(a),
        a.len() > 0,
        a.to_multiset() == b.to_multiset(),
    ensures
        planted::<S, D>(a, words, at, depth, limits, k) == planted::<S, D>(
            b,
            words,
            at,
            depth,
            limits,
            k,
        ),
    decreases a.len(),
{
    vstd::seq_lib::to_multiset_len(a);
    vstd::seq_lib::to_multiset_len(b);
    D::lemma_leaf_rearranged(a, b);
    D::lemma_impurity_rearranged(a, b);
    if limits.allow(a.len(), depth) && !D::impurity(a).is_zero() {
        lemma_trials_rearranged::<S, D>(a, b, words, k);
        let p = proposal::<S, D>(a, words, k);
        if p.0 is Some {
            let split = p.0.unwrap();
            let la = left_part(a, split);
            let ra = right_part(a, split);
            let lb = left_part(b, split);
            let rb = right_part(b, split);
            lemma_split_score_rearranged::<S, D>(a, b, split);
            vstd::seq_lib::to_multiset_len(la);
            vstd::seq_lib::to_multiset_len(lb);
            vstd::seq_lib::to_multiset_len(ra);
            vstd::seq_lib::to_multiset_len(rb);
            if 0 < la.len() < a.len() && 0 < ra.len() < a.len() {
                lemma_parts(a, split);
                D::lemma_trainable_rearranged(a, la + ra);
                D::lemma_trainable_parts(la, ra);
                lemma_planted_rearranged::<S, D>(la, lb, p.1, at + 1, depth + 1, limits, k);
                let lt = planted::<S, D>(la, p.1, at + 1, depth + 1, limits, k);
                lemma_planted_rearranged::<S, D>(
                    ra,
                    rb,
                    lt.1,
                    at + 1 + lt.0.len(),
                    depth + 1,
                    limits,
                    k,
                );
            }
        }
    }
}

/// Whether a tree was grown depends on its own nodes only.
pub proof fn lemma_grown_frame<S: SampleDescription, D: TrainingData<S> + ?Sized>(
    a: Seq<Node<S::ThetaSplit, S::ThetaLeaf>>,
    b: Seq<Node<S::ThetaSplit, S::ThetaLeaf>>,
    i: int,
    end: int,
    d: Seq<S>,
    depth: nat,
    limits: Limits,
)
    requires
        grown::<S, D>(a, i, end, d, depth, limits),
        end <= b.len(),
        forall|k: int| i <= k < end ==> a[k] == b[k],
    ensures
        grown::<S, D>(b, i, end, d, depth, limits),
    decreases end - i,
{
    match a[i] {
        Node::Leaf { w } => {},
        Node::Internal { split, left, right } => {
            let m = cut_of(d, split);
            lemma_grown_frame::<S, D>(a, b, left as int, right as int, d.subrange(0, m), depth + 1, limits);
            lemma_grown_frame::<S, D>(
                a,
                b,
                right as int,
                end,
                d.subrange(m, d.len() as int),
                depth + 1,
                limits,
            );
        },
    }
}

/// In a grown tree every inner node stands directly before its left child
/// and before its right child, and all of them within the tree.
pub proof fn lemma_grown_shaped<S: SampleDescription, D: TrainingData<S> + ?Sized>(
    nodes: Seq<Node<S::ThetaSplit, S::ThetaLeaf>>,
    i: int,
    end: int,
    d: Seq<S>,
    depth: nat,
    limits: Limits,
)
    requires
        grown::<S, D>(nodes, i, end, d, depth, limits),
    ensures
        forall|k: int|
            i <= k < end && (#[trigger] nodes[k]) is Internal ==> nodes[k]->left == k + 1 && k + 1
                < nodes[k]->right < end,
    decreases end - i,
{
    match nodes[i] {
        Node::Leaf { w } => {},
        Node::Internal { split, left, right } => {
            let m = cut_of(d, split);
            lemma_grown_shaped::<S, D>(nodes, left as int, right as int, d.subrange(0, m), depth + 1, limits);
            lemma_grown_shaped::<S, D>(
                nodes,
                right as int,
                end,
                d.subrange(m, d.len() as int),
                depth + 1,
                limits,
            );
        },
    }
}

/// A grown tree has fewer than twice as many nodes as it was grown on
/// samples.
pub proof fn lemma_node_count<S: SampleDescription, D: TrainingData<S> + ?Sized>(
    nodes: Seq<Node<S::ThetaSplit, S::ThetaLeaf>>,
    i: int,
    end: int,
    d: Seq<S>,
    depth: nat,
    limits: Limits,
)
    requires
        grown::<S, D>(nodes, i, end, d, depth, limits),
    ensures
        end - i <= 2 * d.len() - 1,
    decreases end - i,
{
    match nodes[i] {
        Node::Leaf { w } => {},
        Node::Internal { split, left, right } => {
            let m = cut_of(d, split);
            lemma_node_count::<S, D>(nodes, left as int, right as int, d.subrange(0, m), depth + 1, limits);
            lemma_node_count::<S, D>(
                nodes,
                right as int,
                end,
                d.subrange(m, d.len() as int),
                depth + 1,
                limits,
            );
        },
    }
}

/// Leaf coverage. In a grown tree every training sample descends to exactly
/// one leaf, the leaf `reaches` names, which is a leaf of the tree; and to
/// every leaf of the tree at least one training sample descends.
pub proof fn lemma_leaf_coverage<S: SampleDescription, D: TrainingData<S> + ?Sized>(
    nodes: Seq<Node<S::ThetaSplit, S::ThetaLeaf>>,
    i: int,
    end: int,
    d: Seq<S>,
    depth: nat,
    limits: Limits,
)
    requires
        grown::<S, D>(nodes, i, end, d, depth, limits),
    ensures
        forall|k: int|
            0 <= k < d.len() ==> i <= reaches(nodes, i, #[trigger] d[k]) < end && nodes[reaches(
                nodes,
                i,
                d[k],
            )] is Leaf && walkable(nodes, i, d[k]),
        forall|l: int|
            i <= l < end && (#[trigger] nodes[l]) is Leaf ==> exists|k: int|
                0 <= k < d.len() && reaches(nodes, i, #[trigger] d[k]) == l,
    decreases end - i,
{
    match nodes[i] {
        Node::Leaf { w } => {
            assert forall|l: int| i <= l < end && (#[trigger] nodes[l]) is Leaf implies exists|k: int|
                0 <= k < d.len() && reaches(nodes, i, #[trigger] d[k]) == l by {
                assert(reaches(nodes, i, d[0]) == i);
            }
        },
        Node::Internal { split, left, right } => {
            let m = cut_of(d, split);
            let dl = d.subrange(0, m);
            let dr = d.subrange(m, d.len() as int);
            lemma_leaf_coverage::<S, D>(nodes, left as int, right as int, dl, depth + 1, limits);
            lemma_leaf_coverage::<S, D>(nodes, right as int, end, dr, depth + 1, limits);
            assert forall|k: int| 0 <= k < d.len() implies i <= reaches(nodes, i, #[trigger] d[k])
                < end && nodes[reaches(nodes, i, d[k])] is Leaf && walkable(nodes, i, d[k]) by {
                if k < m {
                    assert(dl[k] == d[k]);
                    assert(goes_left(dl[k], split));
                } else {
                    assert(dr[k - m] == d[k]);
                    assert(!goes_left(dr[k - m], split));
                }
            }
            assert forall|l: int| i <= l < end && (#[trigger] nodes[l]) is Leaf implies exists|k: int|
                0 <= k < d.len() && reaches(nodes, i, #[trigger] d[k]) == l by {
                if l < right {
                    let k = choose|k: int|
                        0 <= k < dl.len() && reaches(nodes, left as int, #[trigger] dl[k]) == l;
                    assert(dl[k] == d[k]);
                    assert(goes_left(dl[k], split));
                    assert(reaches(nodes, i, d[k]) == l);
                } else {
                    let k = choose|k: int|
                        0 <= k < dr.len() && reaches(nodes, right as int, #[trigger] dr[k]) == l;
                    assert(dr[k] == d[k + m]);
                    assert(!goes_left(dr[k], split));
                    assert(reaches(nodes, i, d[k + m]) == l);
                }
            }
        },
    }
}

/// Sets the children of the inner node `p`.
fn set_children<Theta, Leaf>(
    nodes: &mut Vec<Node<Theta, Leaf>>,
    p: usize,
    first: usize,
    second: usize,
)
    requires
        p < old(nodes)@.len(),
        old(nodes)@[p as int] is Internal,
    ensures
        final(nodes)@.len() == old(nodes)@.len(),
        forall|k: int|
            0 <= k < old(nodes)@.len() && k != p ==> #[trigger] final(nodes)@[k] == old(nodes)@[k],
        final(nodes)@[p as int] is Internal,
        final(nodes)@[p as int]->left == first,
        final(nodes)@[p as int]->right == second,
        final(nodes)@[p as int]->split == old(nodes)@[p as int]->split,
{
    match &mut nodes[p] {
        Node::Internal { left, right, .. } => {
            *left = first;
            *right = second;
        },
        Node::Leaf { .. } => {},
    }
}

/// A decision tree: a sequence of nodes with the root at index 0. Built
/// once by a builder, read-only afterwards.
pub struct DeterministicTree<S: SampleDescription> {
    nodes: Vec<Node<S::ThetaSplit, S::ThetaLeaf>>,
}

impl<S: SampleDescription> View for DeterministicTree<S> {
    type V = Seq<Node<S::ThetaSplit, S::ThetaLeaf>>;

    closed spec fn view(&self) -> Seq<Node<S::ThetaSplit, S::ThetaLeaf>> {
        self.nodes@
    }
}

impl<S: SampleDescription> DeterministicTree<S> {
    #[verifier::type_invariant]
    spec fn well_formed(self) -> bool {
        shaped(self.nodes@)
    }

    /// The number of nodes.
    pub fn n_nodes(&self) -> (n: usize)
        ensures
            n == self@.len(),
            n > 0,
    {
        proof {
            use_type_invariant(self);
        }
        self.nodes.len()
    }

    /// The node at `index`.
    pub fn node(&self, index: usize) -> (node: Option<&Node<S::ThetaSplit, S::ThetaLeaf>>)
        ensures
            node is Some <==> index < self@.len(),
            node matches Some(n) ==> *n == self@[index as int],
    {
        if index < self.nodes.len() {
            Some(&self.nodes[index])
        } else {
            None
        }
    }

    /// The index of the leaf to which `sample` descends from the root, going
    /// left at a split where its feature is at most the threshold. A sample
    /// that lacks a split feature on its way comes to no leaf.
    pub fn leaf_of(&self, sample: &S) -> (r: Result<usize, ForestError>)
        ensures
            r is Ok <==> walkable(self@, 0, *sample),
            r is Err ==> r == Err::<usize, ForestError>(ForestError::DomainViolation),
            r matches Ok(i) ==> i == reaches(self@, 0, *sample) && i < self@.len() && self@[i as int] is Leaf,
    {
        proof {
            use_type_invariant(self);
        }
        let n = self.nodes.len();
        let mut i: usize = 0;
        loop
            invariant
                n == self.nodes@.len(),
                shaped(self.nodes@),
                i < n,
                reaches(self.nodes@, i as int, *sample) == reaches(self.nodes@, 0, *sample),
                walkable(self.nodes@, i as int, *sample) == walkable(self.nodes@, 0, *sample),
            decreases n - i,
        {
            match &self.nodes[i] {
                Node::Leaf { w } => {
                    return Ok(i);
                },
                Node::Internal { split, left, right } => {
                    if !sample.has_split_feature(&split.theta) {
                        return Err(ForestError::DomainViolation);
                    }
                    if sample.sample_as_split_feature(&split.theta) <= split.threshold {
                        i = *left;
                    } else {
                        i = *right;
                    }
                },
            }
        }
    }

    /// The prediction for `sample`: that of the leaf to which the sample
    /// descends. A sample that lacks a split feature on its way has no
    /// prediction.
    pub fn predict(&self, sample: &S) -> (r: Result<S::Prediction, ForestError>)
        ensures
            r is Ok <==> walkable(self@, 0, *sample),
            r is Err ==> r == Err::<S::Prediction, ForestError>(ForestError::DomainViolation),
            r matches Ok(p) ==> self@[reaches(self@, 0, *sample)] is Leaf && p@
                == sample.prediction_from(self@[reaches(self@, 0, *sample)]->w@),
    {
        match self.leaf_of(sample) {
            Ok(i) => {
                match &self.nodes[i] {
                    Node::Leaf { w } => Ok(sample.sample_predict(w)),
                    Node::Internal { .. } => Err(ForestError::DomainViolation),
                }
            },
            Err(e) => Err(e),
        }
    }
}

/// Builds decision trees: proposes a split, and where there is none or a
/// stopping rule holds, fits a leaf; otherwise partitions the samples and
/// goes on with either side.
pub struct DeterministicTreeBuilder {
    min_samples_split: usize,
    max_depth: Option<usize>,
    split_finder: BestRandomSplit,
}

impl DeterministicTreeBuilder {
    /// A builder that splits no subset of fewer than `min_samples_split`
    /// samples, no node at `max_depth` if one is given, and takes its splits
    /// from `split_finder`.
    pub fn new(
        min_samples_split: usize,
        max_depth: Option<usize>,
        split_finder: BestRandomSplit,
    ) -> (builder: DeterministicTreeBuilder)
        ensures
            builder.limits().min_samples_split == min_samples_split,
            builder.limits().max_depth == match max_depth {
                Some(d) => Some(d as nat),
                None => None::<nat>,
            },
            builder.trials() == split_finder.trials(),
            builder.state() == split_finder.state(),
    {
        DeterministicTreeBuilder { min_samples_split, max_depth, split_finder }
    }

    /// The stopping rules of this builder.
    pub closed spec fn limits(&self) -> Limits {
        Limits {
            min_samples_split: self.min_samples_split as nat,
            max_depth: match self.max_depth {
                Some(d) => Some(d as nat),
                None => None,
            },
        }
    }

    /// The number of splits that are tried at each node.
    pub closed spec fn trials(&self) -> nat {
        self.split_finder.trials()
    }

    /// The state of the generator.
    pub closed spec fn state(&self) -> Seq<u32> {
        self.split_finder.state()
    }

    /// Whether the stopping rules let a subset of `n` samples at `depth` be
    /// split.
    fn may_split(&self, n: usize, depth: usize) -> (b: bool)
        ensures
            b == self.limits().allow(n as nat, depth as nat),
    {
        if n < self.min_samples_split {
            return false;
        }
        match self.max_depth {
            Some(d) => depth < d,
            None => true,
        }
    }

    /// Grows the subtree for `data` at the end of `nodes`.
    fn grow<S: SampleDescription, D: TrainingData<S> + ?Sized>(
        &mut self,
        data: &mut D,
        depth: usize,
        nodes: &mut Vec<Node<S::ThetaSplit, S::ThetaLeaf>>,
    )
        requires
            D::trainable(old(data).samples()),
            old(data).samples().len() > 0,
            depth + old(data).samples().len() <= usize::MAX,
        ensures
            final(self).limits() == old(self).limits(),
            final(self).trials() == old(self).trials(),
            final(data).samples().to_multiset() == old(data).samples().to_multiset(),
            final(nodes)@.len() > old(nodes)@.len(),
            final(nodes)@.subrange(0, old(nodes)@.len() as int) == old(nodes)@,
            (
                arena(final(nodes)@).subrange(old(nodes)@.len() as int, final(nodes)@.len() as int),
                final(self).state(),
            ) == planted::<S, D>(
                old(data).samples(),
                old(self).state(),
                old(nodes)@.len(),
                depth as nat,
                old(self).limits(),
                old(self).trials(),
            ),
            grown::<S, D>(
                final(nodes)@,
                old(nodes)@.len() as int,
                final(nodes)@.len() as int,
                final(data).samples(),
                depth as nat,
                old(self).limits(),
            ),
            !old(self).limits().allow(old(data).samples().len(), depth as nat) || old(self).trials()
                == 0 || D::impurity(old(data).samples()).is_zero() ==> final(nodes)@.len() == old(
                nodes,
            )@.len() + 1,
        decreases old(data).samples().len(),
    {
        let n = data.n_samples();
        let p = nodes.len();
        let ghost limits = self.limits();
        let ghost k = self.trials();
        let ghost state0 = self.state();
        let ghost given = data.samples();
        let ghost nodes0 = nodes@;
        let mut proposal: Option<Split<S::ThetaSplit, i64>> = None;
        if self.may_split(n, depth) {
            let before = data.split_criterion();
            if !before.is_zero() {
                proposal = self.split_finder.find_split_below(data, &before);
            }
        }
        let ghost tried = data.samples();
        let ghost state1 = self.state();
        proof {
            D::lemma_trainable_rearranged(given, tried);
            D::lemma_impurity_rearranged(given, tried);
            D::lemma_leaf_rearranged(given, tried);
            vstd::seq_lib::to_multiset_len(given);
            vstd::seq_lib::to_multiset_len(tried);
        }
        match proposal {
            None => {
                let w = data.train_leaf_predictor();
                nodes.push(Node::Leaf { w });
                proof {
                    assert(nodes@.subrange(0, p as int) =~= nodes0);
                    assert(arena(nodes@).subrange(p as int, nodes@.len() as int) =~= seq![
                        NodeView::Leaf { w: D::leaf_from(given) },
                    ]);
                }
            },
            Some(split) => {
                // A viable split leaves samples on either side.
                let (left, right) = data.partition_data(&split);
                let ghost l0 = left.samples();
                let ghost r0 = right.samples();
                proof {
                    assert(splits_into(tried, split, l0, r0));
                    D::lemma_trainable_rearranged(tried, l0 + r0);
                    D::lemma_trainable_parts(l0, r0);
                    vstd::seq_lib::to_multiset_len(l0 + r0);
                    lemma_split_score::<S, D>(tried, split, l0, r0);
                    lemma_split_score_rearranged::<S, D>(given, tried, split);
                    vstd::seq_lib::to_multiset_len(left_part(given, split));
                    vstd::seq_lib::to_multiset_len(left_part(tried, split));
                    vstd::seq_lib::to_multiset_len(right_part(given, split));
                    vstd::seq_lib::to_multiset_len(right_part(tried, split));
                }
                nodes.push(Node::Internal { split, left: p, right: p });
                let first = nodes.len();
                let ghost nodes1 = nodes@;
                self.grow(left, depth + 1, nodes);
                let ghost nodes2 = nodes@;
                let ghost state2 = self.state();
                let r = nodes.len();
                set_children(nodes, p, first, r);
                let ghost nodes3 = nodes@;
                proof {
                    assert(nodes2[p as int] == nodes1[p as int]) by {
                        assert(nodes2.subrange(0, p + 1)[p as int] == nodes1[p as int]);
                    }
                }
                self.grow(right, depth + 1, nodes);
                let ghost nodes4 = nodes@;
                proof {
                    let split = nodes1[p as int]->split;
                    let end = nodes4.len() as int;
                    let fl = left.samples();
                    let fr = right.samples();
                    let d = data.samples();
                    let m = fl.len() as int;
                    assert(d == fl + fr);
                    assert(d.subrange(0, m) =~= fl);
                    assert(d.subrange(m, d.len() as int) =~= fr);
                    vstd::seq_lib::to_multiset_len(l0);
                    vstd::seq_lib::to_multiset_len(fl);
                    vstd::seq_lib::to_multiset_len(r0);
                    vstd::seq_lib::to_multiset_len(fr);
                    // the node itself
                    assert(nodes4[p as int] == nodes3[p as int]) by {
                        assert(nodes4.subrange(0, r as int)[p as int] == nodes3[p as int]);
                    }
                    // the two sides still stand partitioned
                    lemma_rearranged_all(l0, fl, |s: S| goes_left(s, split));
                    lemma_rearranged_all(r0, fr, |s: S| !goes_left(s, split));
                    assert(is_cut(d, split, m));
                    lemma_cut_unique(d, split, m);
                    // the whole is a rearrangement of what was given
                    vstd::seq_lib::lemma_multiset_commutative(fl, fr);
                    vstd::seq_lib::lemma_multiset_commutative(l0, r0);
                    assert(d.to_multiset() == tried.to_multiset());
                    // the split is viable on the samples as they stand now
                    crate::split::lemma_improves_rearranged::<S, D>(tried, d, split);
                    assert(splits_into(d, split, fl, fr));
                    // the subtrees, as they stand in the finished sequence
                    assert forall|k: int| p + 1 <= k < r implies nodes2[k] == nodes4[k] by {
                        assert(nodes3[k] == nodes2[k]);
                        assert(nodes4.subrange(0, r as int)[k] == nodes3[k]);
                    }
                    lemma_grown_frame::<S, D>(
                        nodes2,
                        nodes4,
                        p + 1,
                        r as int,
                        fl,
                        (depth + 1) as nat,
                        limits,
                    );
                    assert(nodes4.subrange(0, p as int) =~= nodes0) by {
                        assert forall|k: int| 0 <= k < p implies nodes4[k] == nodes0[k] by {
                            assert(nodes4.subrange(0, r as int)[k] == nodes3[k]);
                            assert(nodes3[k] == nodes2[k]);
                            assert(nodes2.subrange(0, p + 1)[k] == nodes1[k]);
                        }
                    }
                    // the nodes are those that the same draws plant on the samples as given
                    let gl = left_part(given, split);
                    let gr = right_part(given, split);
                    lemma_planted_rearranged::<S, D>(
                        l0,
                        gl,
                        state1,
                        (p + 1) as nat,
                        (depth + 1) as nat,
                        limits,
                        k,
                    );
                    let lt = planted::<S, D>(gl, state1, (p + 1) as nat, (depth + 1) as nat, limits, k);
                    assert(lt.0 == arena(nodes2).subrange(p + 1, r as int));
                    assert(lt.0.len() == r - (p + 1));
                    lemma_planted_rearranged::<S, D>(
                        r0,
                        gr,
                        state2,
                        r as nat,
                        (depth + 1) as nat,
                        limits,
                        k,
                    );
                    let rt = planted::<S, D>(gr, state2, r as nat, (depth + 1) as nat, limits, k);
                    assert(rt.0 == arena(nodes4).subrange(r as int, end));
                    let top = NodeView::Internal { split, left: (p + 1) as nat, right: r as nat };
                    assert(node_view(nodes4[p as int]) == top);
                    assert forall|j: int| p + 1 <= j < r implies node_view(nodes4[j]) == lt.0[j - (p
                        + 1)] by {
                        assert(arena(nodes2).subrange(p + 1, r as int)[j - (p + 1)] == node_view(
                            nodes2[j],
                        ));
                    }
                    assert forall|j: int| r <= j < end implies node_view(nodes4[j]) == rt.0[j - r] by {
                        assert(arena(nodes4).subrange(r as int, end)[j - r] == node_view(nodes4[j]));
                    }
                    assert(arena(nodes4).subrange(p as int, end) =~= seq![top] + lt.0 + rt.0);
                }
            },
        }
    }

    /// Fits a tree to `data`, which it rearranges: the root is grown on all
    /// samples, each subtree on the samples that its parent's split sends
    /// its way. Empty data and data that cannot be trained on are turned
    /// down.
    ///
    /// The tree is a single leaf where the stopping rules forbid a split of
    /// the whole data, no split is ever tried, or the data is pure.
    pub fn fit<S: SampleDescription, D: TrainingData<S> + ?Sized>(&mut self, data: &mut D) -> (r:
        Result<DeterministicTree<S>, ForestError>)
        ensures
            final(self).limits() == old(self).limits(),
            final(self).trials() == old(self).trials(),
            final(data).samples().to_multiset() == old(data).samples().to_multiset(),
            r is Ok <==> old(data).samples().len() > 0 && D::trainable(old(data).samples()),
            r is Err ==> r == Err::<DeterministicTree<S>, ForestError>(
                if old(data).samples().len() == 0 {
                    ForestError::EmptyBounds
                } else {
                    ForestError::DomainViolation
                },
            ) && final(self).state() == old(self).state(),
            r matches Ok(tree) ==> (arena(tree@), final(self).state()) == planted::<S, D>(
                old(data).samples(),
                old(self).state(),
                0,
                0,
                old(self).limits(),
                old(self).trials(),
            ),
            r matches Ok(tree) ==> grown::<S, D>(
                tree@,
                0,
                tree@.len() as int,
                final(data).samples(),
                0,
                old(self).limits(),
            ) && tree@.len() <= 2 * old(data).samples().len() - 1 && (!old(self).limits().allow(
                old(data).samples().len(),
                0,
            ) || old(self).trials() == 0 || D::impurity(old(data).samples()).is_zero()
                ==> tree@.len() == 1),
    {
        if data.n_samples() == 0 {
            return Err(ForestError::EmptyBounds);
        }
        if !data.is_trainable() {
            return Err(ForestError::DomainViolation);
        }
        let mut nodes: Vec<Node<S::ThetaSplit, S::ThetaLeaf>> = Vec::new();
        self.grow(data, 0, &mut nodes);
        proof {
            lemma_grown_shaped::<S, D>(
                nodes@,
                0,
                nodes@.len() as int,
                data.samples(),
                0,
                old(self).limits(),
            );
            assert(arena(nodes@).subrange(0, nodes@.len() as int) =~= arena(nodes@));
            lemma_node_count::<S, D>(
                nodes@,
                0,
                nodes@.len() as int,
                data.samples(),
                0,
                old(self).limits(),
            );
            vstd::seq_lib::to_multiset_len(data.samples());
            vstd::seq_lib::to_multiset_len(old(data).samples());
        }
        Ok(DeterministicTree { nodes })
    }
}

} // verus!
