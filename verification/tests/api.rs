use forester::api::{ExtraTreesClassifier, ExtraTreesRegressor};
use forester::categorical::CatCount;
use forester::continuous::Average;
use forester::datasets::TupleSample;
use forester::dtree::DeterministicTreeBuilder;
use forester::error::ForestError;
use forester::random::Generator;
use forester::split::BestRandomSplit;

fn value(a: &Average) -> f64 {
    let n = a.n_terms();
    let mut sum = 0.0;
    for i in 0..n {
        let m = a.term(i).unwrap();
        sum += m.sum as f64 / m.count as f64;
    }
    sum / n as f64
}

fn prob(p: &CatCount, c: usize) -> f64 {
    let f = p.probability(c);
    f.numer() as f64 / f.denom() as f64
}

#[test]
fn trig() {
}

#[test]
fn extra_trees_regressor() {
    let x = vec![[1], [2], [3], [7], [8], [9]];
    let y = vec![5, 5, 5, 2, 2, 2];

    let mut data: Vec<_> =
        x.into_iter().zip(y.into_iter()).map(|(x, y)| TupleSample::new(x.to_vec(), y)).collect();

    let model = ExtraTreesRegressor::new().fit(&mut data).unwrap();

    assert_eq!(value(&model.predict(&TupleSample::new(vec![-1000], 0)).unwrap()), 5.0);
    assert_eq!(value(&model.predict(&TupleSample::new(vec![1000], 0)).unwrap()), 2.0);

    let p = value(&model.predict(&TupleSample::new(vec![5], 0)).unwrap());
    assert!(p >= 2.0);
    assert!(p <= 5.0);
}

#[test]
fn extra_trees_classifier() {
    let x = vec![[1], [2], [3], [7], [8], [9]];
    let y = vec![1, 1, 1, 2, 2, 2];

    let mut data: Vec<TupleSample<u8>> =
        x.into_iter().zip(y.into_iter()).map(|(x, y)| TupleSample::new(x.to_vec(), y)).collect();

    let rng = Generator::from_seed([20, 18, 6, 12]).unwrap();
    let model = ExtraTreesClassifier::new().fit_with(&mut data, rng).unwrap();
    let _tree =
        DeterministicTreeBuilder::new(1, None, BestRandomSplit::new(1)).fit(&mut data[..]).unwrap();

    assert_eq!(prob(&model.predict(&TupleSample::new(vec![-1000], 0)).unwrap(), 1), 1.0);
    assert_eq!(prob(&model.predict(&TupleSample::new(vec![1000], 0)).unwrap(), 2), 1.0);

    let p = model.predict(&TupleSample::new(vec![5], 0)).unwrap();
    assert_eq!(prob(&p, 0), 0.0);
    assert!(prob(&p, 1) > 0.0);
    assert!(prob(&p, 2) > 0.0);
}

#[test]
fn regressor_settings_are_kept() {
    let mut data: Vec<TupleSample<i32>> =
        (0..20).map(|i| TupleSample::new(vec![i as i64], (i % 5) as i32)).collect();
    let rng = Generator::from_seed([9, 9, 9, 9]).unwrap();
    let model = ExtraTreesRegressor::new()
        .n_estimators(3)
        .n_splits(4)
        .min_samples_split(2)
        .fit_with(&mut data, rng)
        .unwrap();
    assert_eq!(model.n_estimators(), 3);
    assert_eq!(data.len(), 20);
}

#[test]
fn forest_of_no_tree_predicts_the_neutral_element() {
    let mut none: Vec<TupleSample<u8>> = Vec::new();
    let model = ExtraTreesClassifier::new().n_estimators(0).fit(&mut none).unwrap();
    assert_eq!(model.n_estimators(), 0);
    let p = model.predict(&TupleSample::new(vec![1], 0)).unwrap();
    assert_eq!(p.total(), 0);
    assert_eq!(p.most_frequent(), Err(ForestError::UndefinedPrediction));
}

#[test]
fn fitting_rejects_empty_and_ragged_data() {
    let mut none: Vec<TupleSample<u8>> = Vec::new();
    assert!(matches!(ExtraTreesClassifier::new().fit(&mut none), Err(ForestError::EmptyBounds)));
    let mut ragged = vec![TupleSample::new(vec![1, 2], 0u8), TupleSample::new(vec![1], 1u8)];
    assert!(matches!(
        ExtraTreesClassifier::new().fit(&mut ragged),
        Err(ForestError::DomainViolation)
    ));
    let mut narrow = vec![TupleSample::new(vec![], 0i32), TupleSample::new(vec![], 1i32)];
    assert!(matches!(
        ExtraTreesRegressor::new().fit(&mut narrow),
        Err(ForestError::DomainViolation)
    ));
    let mut no_values: Vec<TupleSample<i32>> = Vec::new();
    assert!(matches!(ExtraTreesRegressor::new().fit(&mut no_values), Err(ForestError::EmptyBounds)));
}

#[test]
fn prediction_needs_the_split_features() {
    let mut data: Vec<TupleSample<u8>> = vec![
        TupleSample::new(vec![0, 0], 0),
        TupleSample::new(vec![0, 1], 0),
        TupleSample::new(vec![5, 9], 1),
        TupleSample::new(vec![5, 8], 1),
    ];
    let rng = Generator::from_seed([3, 1, 4, 1]).unwrap();
    let model = ExtraTreesClassifier::new().n_splits(8).fit_with(&mut data, rng).unwrap();
    assert!(matches!(
        model.predict(&TupleSample::new(vec![], 0)),
        Err(ForestError::DomainViolation)
    ));
    assert!(model.predict(&TupleSample::new(vec![0, 0], 0)).is_ok());
}

#[test]
fn pure_clusters_are_predicted_with_certainty() {
    let xs: Vec<i64> = vec![-9, -8, -7, -6, -5, 5, 6, 7, 8, 9];
    let mut data: Vec<TupleSample<u8>> =
        xs.iter().map(|&x| TupleSample::new(vec![x], if x < 0 { 0 } else { 1 })).collect();
    let rng = Generator::from_seed([2, 7, 1, 8]).unwrap();
    let model = ExtraTreesClassifier::new().fit_with(&mut data, rng).unwrap();
    for &x in xs.iter() {
        let p = model.predict(&TupleSample::new(vec![x], 0)).unwrap();
        let class = if x < 0 { 0 } else { 1 };
        assert_eq!(prob(&p, class), 1.0);
        assert_eq!(p.most_frequent(), Ok(class));
    }
}

#[test]
fn three_class_spiral() {
    let n = 300;
    let mut data: Vec<TupleSample<u8>> = Vec::new();
    for i in 0..n {
        let class = (i % 3) as u8;
        let r = 0.1 + 5.9 * (i as f64) / (n as f64);
        let phi = r + 2.0 * std::f64::consts::PI * (class as f64) / 3.0;
        let x = (phi.sin() * r * 1000.0).round() as i64;
        let y = (phi.cos() * r * 1000.0).round() as i64;
        data.push(TupleSample::new(vec![x, y], class));
    }
    let kept: Vec<(Vec<i64>, u8)> = data.iter().map(|s| (s.x.clone(), s.y)).collect();
    let rng = Generator::from_seed([11, 22, 33, 44]).unwrap();
    let model = ExtraTreesClassifier::new()
        .n_estimators(100)
        .n_splits(1)
        .min_samples_split(10)
        .fit_with(&mut data, rng)
        .unwrap();
    let mut hits = 0;
    for (x, y) in kept.iter() {
        let p = model.predict(&TupleSample::new(x.clone(), 0)).unwrap();
        if p.most_frequent() == Ok(*y as usize) {
            hits += 1;
        }
    }
    assert!(hits * 10 > n * 7, "{} of {} training points", hits, n);
}
