use std::cell::Cell;

use forester::array_ops::resample;
use forester::categorical::CatCount;
use forester::datasets::TupleSample;
use forester::dtree::DeterministicTreeBuilder;
use forester::random::Generator;
use forester::split::BestRandomSplit;
use forester::splitters::ThresholdSplitter;
use forester::{
    Data, DeterministicSplitter, FeatureSet, LeafPredictor, OutcomeVariable, Sample, Side, Splitter,
};

fn rows() -> Vec<TupleSample<u8>> {
    vec![
        TupleSample::new(vec![4, 10], 2),
        TupleSample::new(vec![6, 10], 1),
        TupleSample::new(vec![9, 10], 2),
        TupleSample::new(vec![5, 10], 0),
    ]
}

#[test]
fn outcomes_are_visited_in_order() {
    let data = rows();
    assert_eq!(<[TupleSample<u8>] as OutcomeVariable>::n_samples(&data[..]), 4);
    let seen = Cell::new(0u32);
    <[TupleSample<u8>] as OutcomeVariable>::for_each(&data[..], |y: &u8| {
        seen.set(seen.get() * 10 + *y as u32)
    });
    assert_eq!(seen.get(), 2120);
    let again = Cell::new(0u32);
    <[TupleSample<u8>] as OutcomeVariable>::for_each_mut(&data[..], |y: &u8| {
        again.set(again.get() + *y as u32)
    });
    assert_eq!(again.get(), 5);
}

#[test]
fn features_are_read_by_column() {
    let data = rows();
    assert_eq!(Data::n_rows(&data[..]), 4);
    assert_eq!(<[TupleSample<u8>] as FeatureSet>::n_samples(&data[..]), 4);
    assert_eq!(data[..].get_sample(2).x, vec![9, 10]);
    assert_eq!(data[1].get_feature(&0), 6);
    assert_eq!(data[1].get_feature(&1), 10);
    assert_eq!(data[..].minmax(&0), Some((4, 9)));
    assert_eq!(data[..].minmax(&1), Some((10, 10)));
    let none: Vec<TupleSample<u8>> = Vec::new();
    assert_eq!(none[..].minmax(&0), None);
    let sum = Cell::new(0i64);
    <[TupleSample<u8>] as FeatureSet>::for_each(&data[..], |s: &TupleSample<u8>| {
        sum.set(sum.get() + s.x[0])
    });
    assert_eq!(sum.get(), 24);
    let mut rng = Generator::from_seed([1, 2, 3, 4]).unwrap();
    let mut seen = [false; 2];
    for _ in 0..40 {
        seen[data[..].random_feature(&mut rng)] = true;
    }
    assert_eq!(seen, [true, true]);
}

#[test]
fn random_threshold_splitter_separates() {
    let data = rows();
    let mut rng = Generator::from_seed([4, 3, 2, 1]).unwrap();
    let mut replay = Generator::from_seed([4, 3, 2, 1]).unwrap();
    let mut on_first = 0;
    for _ in 0..60 {
        let splitter = <ThresholdSplitter<u8> as Splitter>::new_random(&data[..], &mut rng);
        let same = <ThresholdSplitter<u8> as Splitter>::new_random(&data[..], &mut replay);
        assert_eq!(splitter.parts(), same.parts());
        let (theta, threshold) = splitter.parts();
        if theta == 0 {
            on_first += 1;
            assert!(4 <= threshold && threshold < 9);
            assert_eq!(splitter.split(&data[0]), Side::Left);
            assert_eq!(splitter.split(&data[2]), Side::Right);
        } else {
            assert_eq!(threshold, 10);
            assert!(data.iter().all(|s| splitter.split(s) == Side::Left));
        }
    }
    assert!(0 < on_first && on_first < 60);
    let fixed = ThresholdSplitter::<u8>::new(0, 5);
    assert_eq!(fixed.parts(), (0, 5));
    assert_eq!(fixed.split(&data[3]), Side::Left);
    assert_eq!(fixed.split(&data[1]), Side::Right);
}

#[test]
fn class_counts_predict_the_most_frequent_class() {
    let data = rows();
    let predictor = <CatCount as LeafPredictor>::fit(&data[..], &data[..]);
    assert_eq!(predictor.total(), 4);
    assert_eq!(LeafPredictor::predict(&predictor, &data[1]), 2);
    let shares: Vec<(u128, u128)> =
        predictor.normalized().iter().map(|f| (f.numer(), f.denom())).collect();
    assert_eq!(shares, vec![(1, 4), (1, 4), (2, 4)]);
    assert!(CatCount::empty().normalized().is_empty());
}

#[test]
fn resampling_replays_a_seed() {
    let data: Vec<i32> = (0..50).collect();
    let mut a = Generator::from_seed([5, 5, 5, 5]).unwrap();
    let mut b = Generator::from_seed([5, 5, 5, 5]).unwrap();
    let first = resample(&data[..], 30, &mut a);
    let second = resample(&data[..], 30, &mut b);
    assert_eq!(first, second);
    assert_eq!(a.state(), b.state());
    let third = resample(&data[..], 30, &mut a);
    assert_ne!(first, third);
}

#[test]
fn a_tree_has_fewer_than_twice_as_many_nodes_as_samples() {
    for seed in 1..20u32 {
        let mut data: Vec<TupleSample<u8>> =
            (0..37).map(|i| TupleSample::new(vec![(i * 7) % 11, i], (i % 4) as u8)).collect();
        let rng = Generator::from_seed([seed, seed, 1, 1]).unwrap();
        let tree = DeterministicTreeBuilder::new(1, None, BestRandomSplit::with_generator(3, rng))
            .fit(&mut data[..])
            .unwrap();
        assert!(tree.n_nodes() <= 2 * 37 - 1);
        assert_eq!(tree.n_nodes() % 2, 1);
    }
}
