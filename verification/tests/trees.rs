use forester::categorical::CatCount;
use forester::data::{DataSet, TrainingData};
use forester::datasets::TupleSample;
use forester::dforest::DeterministicForestBuilder;
use forester::dtree::{DeterministicTree, DeterministicTreeBuilder, Node};
use forester::error::ForestError;
use forester::random::Generator;
use forester::split::{keep_better, side_of, BestRandomSplit, Candidate, Split};
use forester::fraction::Fraction;
use forester::{Shape2D, Side};

fn labelled(rows: &[(i64, i64, u8)]) -> Vec<TupleSample<u8>> {
    rows.iter().map(|&(a, b, y)| TupleSample::new(vec![a, b], y)).collect()
}

fn board() -> Vec<TupleSample<u8>> {
    let mut rows = Vec::new();
    for a in 0..8 {
        for b in 0..8 {
            rows.push((a, b, (((a / 2) + (b / 2)) % 3) as u8));
        }
    }
    labelled(&rows)
}

fn seeded(k: usize, seed: [u32; 4]) -> BestRandomSplit {
    BestRandomSplit::with_generator(k, Generator::from_seed(seed).unwrap())
}

fn counts(c: &CatCount) -> Vec<u64> {
    (0..c.n_classes()).map(|i| c.count(i)).collect()
}

fn arena(tree: &DeterministicTree<TupleSample<u8>>) -> Vec<(usize, i64, usize, usize, Vec<u64>)> {
    (0..tree.n_nodes())
        .map(|i| match tree.node(i).unwrap() {
            Node::Internal { split, left, right } => {
                (split.theta, split.threshold, *left, *right, Vec::new())
            }
            Node::Leaf { w } => (0, 0, 0, 0, counts(w)),
        })
        .collect()
}

#[test]
fn same_seed_gives_the_same_tree() {
    let mut first = board();
    let mut second = board();
    let a = DeterministicTreeBuilder::new(2, None, seeded(3, [5, 6, 7, 8]))
        .fit(&mut first[..])
        .unwrap();
    let b = DeterministicTreeBuilder::new(2, None, seeded(3, [5, 6, 7, 8]))
        .fit(&mut second[..])
        .unwrap();
    assert!(a.n_nodes() > 1);
    assert_eq!(arena(&a), arena(&b));
    let mut third = board();
    let c = DeterministicTreeBuilder::new(2, None, seeded(3, [8, 7, 6, 5]))
        .fit(&mut third[..])
        .unwrap();
    assert_ne!(arena(&a), arena(&c));
}

#[test]
fn the_order_of_the_samples_does_not_matter() {
    let mut first = board();
    let mut second = board();
    second.reverse();
    second.swap(3, 40);
    let a = DeterministicTreeBuilder::new(1, None, seeded(2, [9, 8, 7, 6]))
        .fit(&mut first[..])
        .unwrap();
    let b = DeterministicTreeBuilder::new(1, None, seeded(2, [9, 8, 7, 6]))
        .fit(&mut second[..])
        .unwrap();
    assert!(a.n_nodes() > 3);
    assert_eq!(arena(&a), arena(&b));
}

#[test]
fn same_seed_gives_the_same_forest() {
    let mut first = board();
    let mut second = board();
    let a = DeterministicForestBuilder::new(
        4,
        DeterministicTreeBuilder::new(2, Some(3), seeded(2, [1, 1, 1, 1])),
    )
    .fit(&mut first[..])
    .unwrap();
    let b = DeterministicForestBuilder::new(
        4,
        DeterministicTreeBuilder::new(2, Some(3), seeded(2, [1, 1, 1, 1])),
    )
    .fit(&mut second[..])
    .unwrap();
    for t in 0..4 {
        assert_eq!(arena(a.estimator(t).unwrap()), arena(b.estimator(t).unwrap()));
    }
    assert!(a.estimator(4).is_none());
    assert_ne!(arena(a.estimator(0).unwrap()), arena(a.estimator(1).unwrap()));
}

#[test]
fn repeated_prediction_is_identical() {
    let mut data = board();
    let forest = DeterministicForestBuilder::new(
        7,
        DeterministicTreeBuilder::new(1, None, seeded(2, [4, 3, 2, 1])),
    )
    .fit(&mut data[..])
    .unwrap();
    for a in -1..9 {
        let sample = TupleSample::new(vec![a, 7 - a], 0);
        let first = forest.predict(&sample).unwrap();
        let second = forest.predict(&sample).unwrap();
        assert_eq!(counts(&first), counts(&second));
        assert_eq!(first.total(), 7 * first.total() / 7);
        assert_eq!(first.total(), second.total());
    }
}

#[test]
fn parents_stand_before_children_and_leaves_are_covered() {
    let mut data = board();
    let tree =
        DeterministicTreeBuilder::new(1, None, seeded(4, [10, 20, 30, 40])).fit(&mut data[..]).unwrap();
    let n = tree.n_nodes();
    assert!(n <= 2 * data.len() - 1);
    let mut reached = vec![0u64; n];
    for sample in data.iter() {
        let leaf = tree.leaf_of(sample).unwrap();
        assert!(matches!(tree.node(leaf).unwrap(), Node::Leaf { .. }));
        reached[leaf] += 1;
    }
    let mut leaves = 0;
    for i in 0..n {
        match tree.node(i).unwrap() {
            Node::Internal { left, right, .. } => {
                assert_eq!(*left, i + 1);
                assert!(*left < *right && *right < n);
                assert_eq!(reached[i], 0);
            }
            Node::Leaf { w } => {
                leaves += 1;
                assert!(reached[i] > 0);
                assert_eq!(w.total(), reached[i]);
            }
        }
    }
    assert_eq!(n, 2 * leaves - 1);
    assert!(tree.node(n).is_none());
}

#[test]
fn grown_to_the_end_every_leaf_is_pure() {
    let mut data = board();
    let tree =
        DeterministicTreeBuilder::new(1, None, seeded(6, [6, 6, 6, 6])).fit(&mut data[..]).unwrap();
    for sample in data.iter() {
        let p = tree.predict(sample).unwrap();
        assert_eq!(p.count(sample.y as usize), p.total());
    }
}

#[test]
fn stopping_rules_hold() {
    let mut data = board();
    let stump =
        DeterministicTreeBuilder::new(1, Some(0), seeded(5, [1, 2, 3, 4])).fit(&mut data[..]).unwrap();
    assert_eq!(stump.n_nodes(), 1);
    let too_few = DeterministicTreeBuilder::new(65, None, seeded(5, [1, 2, 3, 4]))
        .fit(&mut data[..])
        .unwrap();
    assert_eq!(too_few.n_nodes(), 1);
    let untried =
        DeterministicTreeBuilder::new(1, None, seeded(0, [1, 2, 3, 4])).fit(&mut data[..]).unwrap();
    assert_eq!(untried.n_nodes(), 1);
    let shallow =
        DeterministicTreeBuilder::new(1, Some(1), seeded(9, [1, 2, 3, 4])).fit(&mut data[..]).unwrap();
    assert!(shallow.n_nodes() == 1 || shallow.n_nodes() == 3);
    let p = stump.predict(&TupleSample::new(vec![0, 0], 0)).unwrap();
    assert_eq!(p.total(), 64);
}

#[test]
fn constant_target_gives_one_leaf() {
    let mut data: Vec<TupleSample<u8>> =
        (0..100).map(|i| TupleSample::new(vec![i, 100 - i], 3)).collect();
    let mut builder = DeterministicTreeBuilder::new(1, None, BestRandomSplit::new(5));
    let tree = builder.fit(&mut data[..]).unwrap();
    assert_eq!(tree.n_nodes(), 1);
    match tree.node(0).unwrap() {
        Node::Leaf { w } => {
            assert_eq!(w.total(), 100);
            assert_eq!(w.count(3), 100);
        }
        Node::Internal { .. } => panic!("a pure data set is not split"),
    }
    let p = tree.predict(&TupleSample::new(vec![0, 0], 0)).unwrap();
    assert_eq!(p.most_frequent(), Ok(3));
}

#[test]
fn proposed_split_lowers_the_impurity() {
    for seed in 1..40u32 {
        let mut data = board();
        let before = data[..].split_criterion();
        let mut splitter = seeded(3, [seed, 1, 2, 3]);
        match splitter.find_split(&mut data[..]).unwrap() {
            Some(split) => {
                let (left, right) = data[..].partition_data(&split);
                assert!(left.len() > 0 && right.len() > 0);
                let after =
                    <[TupleSample<u8>] as TrainingData<TupleSample<u8>>>::split_criterion_of(
                        left, right,
                    );
                assert!(after.lt(&before));
                for s in left.iter() {
                    assert!(s.x[split.theta] <= split.threshold);
                }
                for s in right.iter() {
                    assert!(s.x[split.theta] > split.threshold);
                }
            }
            None => {}
        }
        assert_eq!(data.len(), 64);
    }
}

#[test]
fn no_split_of_pure_or_empty_data() {
    let mut pure = labelled(&[(1, 2, 4), (3, 4, 4), (5, 6, 4)]);
    assert!(seeded(10, [1, 2, 3, 4]).find_split(&mut pure[..]).unwrap().is_none());
    let mut mixed = labelled(&[(1, 2, 4), (3, 4, 5)]);
    assert!(seeded(0, [1, 2, 3, 4]).find_split(&mut mixed[..]).unwrap().is_none());
    let mut constant = labelled(&[(1, 2, 4), (1, 2, 5)]);
    assert!(seeded(10, [1, 2, 3, 4]).find_split(&mut constant[..]).unwrap().is_none());
    let mut none: Vec<TupleSample<u8>> = Vec::new();
    assert!(matches!(
        seeded(10, [1, 2, 3, 4]).find_split(&mut none[..]),
        Err(ForestError::EmptyBounds)
    ));
    assert_eq!(seeded(10, [1, 2, 3, 4]).n_splits(), 10);
}

#[test]
fn neighbours_are_split_at_the_smaller() {
    let mut data = labelled(&[(4, 0, 0), (5, 0, 1), (4, 0, 0), (5, 0, 1)]);
    let mut found = 0;
    for seed in 1..30u32 {
        if let Some(split) = seeded(2, [seed, 0, 0, 0]).find_split(&mut data[..]).unwrap() {
            assert_eq!(split.theta, 0);
            assert_eq!(split.threshold, 4);
            found += 1;
        }
    }
    assert!(found > 0);
}

#[test]
fn samples_at_the_threshold_go_left() {
    let split = Split { theta: 1usize, threshold: 7i64 };
    assert_eq!(side_of(&split, &TupleSample::new(vec![100, 7], 0u8)), Side::Left);
    assert_eq!(side_of(&split, &TupleSample::new(vec![0, 8], 0u8)), Side::Right);
    assert_eq!(side_of(&split, &TupleSample::new(vec![0, -8], 0u8)), Side::Left);
    let mut data = labelled(&[(0, 9, 0), (0, 7, 1), (0, 7, 2), (0, 6, 3), (0, 8, 4)]);
    let (left, right) = data[..].partition_data(&split);
    let mut l: Vec<u8> = left.iter().map(|s| s.y).collect();
    let mut r: Vec<u8> = right.iter().map(|s| s.y).collect();
    l.sort();
    r.sort();
    assert_eq!(l, vec![1, 2, 3]);
    assert_eq!(r, vec![0, 4]);
}

#[test]
fn the_earlier_candidate_stays_on_equal_scores() {
    let half = || Fraction::new(1, 2).unwrap();
    let third = || Fraction::new(1, 3).unwrap();
    let cand = |theta: usize, score: Fraction| Candidate {
        split: Split { theta, threshold: 0 },
        score,
    };
    let none = keep_better(None, &half(), cand(1, Fraction::new(2, 4).unwrap()));
    assert!(none.is_none());
    let first = keep_better(None, &half(), cand(1, third())).unwrap();
    assert_eq!(first.split.theta, 1);
    let kept = keep_better(Some(first), &half(), cand(2, Fraction::new(2, 6).unwrap())).unwrap();
    assert_eq!(kept.split.theta, 1);
    let better = keep_better(Some(kept), &half(), cand(3, Fraction::new(1, 4).unwrap())).unwrap();
    assert_eq!(better.split.theta, 3);
    assert_eq!((better.score.numer(), better.score.denom()), (1, 4));
    let worse = keep_better(Some(better), &half(), cand(4, Fraction::new(9, 10).unwrap())).unwrap();
    assert_eq!(worse.split.theta, 3);
}

#[test]
fn data_set_operations() {
    let mut data = labelled(&[(3, 10, 0), (1, 30, 1), (2, 20, 1), (5, 0, 0)]);
    assert_eq!(data[..].n_samples(), 4);
    assert_eq!(data[..].n_rows(), 4);
    assert_eq!(data[..].n_cols(), 2);
    assert!(data[..].is_trainable());
    assert_eq!(data[..].all_split_features(), Some(vec![0, 1]));
    assert_eq!(data[..].feature_bounds(&0), Ok((1, 5)));
    assert_eq!(data[..].feature_bounds(&1), Ok((0, 30)));
    let none: Vec<TupleSample<u8>> = Vec::new();
    assert_eq!(none[..].feature_bounds(&0), Err(ForestError::EmptyBounds));
    assert_eq!(none[..].n_cols(), 0);
    assert_eq!(none[..].all_split_features(), None);
    data[..].sort_data(&0);
    assert_eq!(data.iter().map(|s| s.x[0]).collect::<Vec<_>>(), vec![1, 2, 3, 5]);
    data[..].sort_data(&1);
    assert_eq!(data.iter().map(|s| s.x[1]).collect::<Vec<_>>(), vec![0, 10, 20, 30]);
    let leaf = data[..].train_leaf_predictor();
    assert_eq!(counts(&leaf), vec![2, 2]);
    let seen = std::cell::Cell::new(0i64);
    data[..].visit_samples(|s: &TupleSample<u8>| seen.set(seen.get() * 10 + s.x[0]));
    assert_eq!(seen.get(), 5321);
    let mut rng = Generator::from_seed([1, 2, 3, 4]).unwrap();
    for _ in 0..50 {
        let theta = data[..].gen_split_feature(&mut rng);
        assert!(theta < 2);
    }
}
