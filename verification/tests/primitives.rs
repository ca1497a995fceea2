use forester::array_ops::{partition, resample};
use forester::categorical::CatCount;
use forester::continuous::{sum_values, Average, Mean};
use forester::criterion::{GiniCriterion, SplitCriterion, VarCriterion};
use forester::data::DataSet;
use forester::datasets::{collect_targets, has_one_shape, TupleSample};
use forester::dforest::Aggregate;
use forester::error::ForestError;
use forester::fraction::{weigh_split, Fraction};
use forester::random::Generator;
use forester::split_between::split_between;
use forester::FixedLength;
use rand::Rng;

fn counter(labels: &[usize]) -> CatCount {
    let mut c = CatCount::empty();
    for &l in labels {
        c.add_one(l);
    }
    c
}

fn counts(c: &CatCount) -> Vec<u64> {
    (0..c.n_classes()).map(|i| c.count(i)).collect()
}

fn parts(f: Fraction) -> (u128, u128) {
    (f.numer(), f.denom())
}

#[test]
fn partition_puts_the_accepted_first() {
    let mut v = vec![5, 1, 8, 3, 9, 2, 7];
    let pivot = partition(&mut v[..], |x: &i32| *x < 5);
    assert_eq!(pivot, 3);
    assert!(v[..pivot].iter().all(|x| *x < 5));
    assert!(v[pivot..].iter().all(|x| *x >= 5));
    v.sort();
    assert_eq!(v, vec![1, 2, 3, 5, 7, 8, 9]);
}

#[test]
fn partition_of_edge_cases() {
    let mut none: Vec<i32> = Vec::new();
    assert_eq!(partition(&mut none[..], |_x: &i32| true), 0);
    let mut all = vec![1, 2, 3];
    assert_eq!(partition(&mut all[..], |_x: &i32| true), 3);
    assert_eq!(all, vec![1, 2, 3]);
    let mut nothing = vec![1, 2, 3];
    assert_eq!(partition(&mut nothing[..], |_x: &i32| false), 0);
    assert_eq!(nothing, vec![1, 2, 3]);
    let mut dup = vec![2, 2, 1, 2, 1];
    assert_eq!(partition(&mut dup[..], |x: &i32| *x <= 1), 2);
    assert_eq!(dup[..2], [1, 1]);
}

#[test]
fn partition_round_trip() {
    let mut rng = rand::thread_rng();
    for _ in 0..1000 {
        let given: Vec<i32> = (0..1000).map(|_| rng.gen_range(-500, 500)).collect();
        let threshold = rng.gen_range(-600, 600);
        let mut v = given.clone();
        let pivot = partition(&mut v[..], |x: &i32| *x <= threshold);
        assert!(v[..pivot].iter().all(|x| *x <= threshold));
        assert!(v[pivot..].iter().all(|x| *x > threshold));
        let mut a = given;
        a.sort();
        v.sort();
        assert_eq!(a, v);
    }
}

#[test]
fn resample_draws_with_replacement() {
    let data = vec![10, 20, 30];
    let mut rng = Generator::from_seed([7, 7, 7, 7]).unwrap();
    let drawn = resample(&data[..], 200, &mut rng);
    assert_eq!(drawn.len(), 200);
    for v in [10, 20, 30] {
        assert!(drawn.contains(&v));
    }
    assert!(drawn.iter().all(|v| data.contains(v)));
    let none: Vec<i32> = Vec::new();
    assert!(resample(&none[..], 5, &mut rng).is_empty());
    assert!(resample(&data[..], 0, &mut rng).is_empty());
    let rows = vec![TupleSample::new(vec![1], 1u8), TupleSample::new(vec![2], 2u8)];
    let again = rows[..].bootstrap_resample(9, &mut rng);
    assert_eq!(again.len(), 9);
    assert!(again.iter().all(|s| s.x[0] as u8 == s.y));
}

#[test]
fn generator_draws_within_bounds() {
    let mut rng = Generator::from_seed([1, 0, 0, 0]).unwrap();
    let mut seen = [false; 5];
    for _ in 0..200 {
        seen[rng.index_below(5)] = true;
        let v = rng.between(-3, 4);
        assert!(-3 <= v && v < 4);
        assert_eq!(rng.between(i64::MAX - 1, i64::MAX), i64::MAX - 1);
        assert_eq!(rng.index_below(1), 0);
    }
    assert!(seen.iter().all(|s| *s));
    let wide = rng.between(i64::MIN, i64::MAX);
    assert!(wide < i64::MAX);
}

#[test]
fn generator_replays_a_seed() {
    assert!(Generator::from_seed([0, 0, 0, 0]).is_none());
    let mut a = Generator::from_seed([0, 0, 0, 1]).unwrap();
    let mut b = Generator::from_seed([0, 0, 0, 1]).unwrap();
    let mut c = Generator::from_seed([0, 0, 1, 0]).unwrap();
    let xs: Vec<i64> = (0..20).map(|_| a.between(0, 1_000_000)).collect();
    let ys: Vec<i64> = (0..20).map(|_| b.between(0, 1_000_000)).collect();
    let zs: Vec<i64> = (0..20).map(|_| c.between(0, 1_000_000)).collect();
    assert_eq!(xs, ys);
    assert_ne!(xs, zs);
    assert_eq!(a.state(), b.state());
    assert_ne!(a.state(), [0, 0, 0, 1]);
    let mut e = Generator::from_entropy();
    assert_ne!(e.state(), [0, 0, 0, 0]);
    assert!(e.index_below(3) < 3);
}

#[test]
fn counter_counts() {
    let empty = CatCount::empty();
    assert_eq!(empty.total(), 0);
    assert_eq!(empty.n_classes(), 0);
    assert_eq!(empty.count(0), 0);
    let a = counter(&[1, 1, 3]);
    assert_eq!(a.total(), 3);
    assert_eq!(counts(&a), vec![0, 2, 0, 1]);
    assert_eq!(a.count(9), 0);
    let b = CatCount::tally_of(&[1, 1, 3]);
    assert_eq!(counts(&b), counts(&a));
    let copy = a.clone();
    assert_eq!(counts(&copy), counts(&a));
}

#[test]
fn counter_addition_is_a_commutative_monoid() {
    let a = || counter(&[0, 0, 2]);
    let b = || counter(&[1, 4]);
    let c = || counter(&[2, 2, 2, 5]);
    let mut ab_c = a();
    ab_c.merge(&b());
    ab_c.merge(&c());
    let mut bc = b();
    bc.merge(&c());
    let mut a_bc = a();
    a_bc.merge(&bc);
    assert_eq!(counts(&ab_c), counts(&a_bc));
    assert_eq!(counts(&ab_c), vec![2, 1, 4, 0, 1, 1]);
    let mut a_e = a();
    a_e.merge(&CatCount::empty());
    assert_eq!(counts(&a_e), counts(&a()));
    let mut e_a = CatCount::empty();
    e_a.merge(&a());
    assert_eq!(counts(&e_a), counts(&a()));
    let mut ab = a();
    ab.merge(&b());
    let mut ba = b();
    ba.merge(&a());
    assert_eq!(counts(&ab), counts(&ba));
    assert_eq!(ab.total(), a().total() + b().total());
    let sum = a().combine(&b()).unwrap();
    assert_eq!(counts(&sum), counts(&ab));
}

#[test]
fn probabilities_sum_to_one() {
    let a = counter(&[0, 0, 2, 2, 2, 5, 7, 7]);
    assert_eq!(parts(a.probability(2)), (3, 8));
    assert_eq!(parts(a.probability(1)), (0, 8));
    assert_eq!(parts(a.probability(100)), (0, 8));
    let mut sum = 0.0;
    let mut numerators = 0;
    for c in 0..a.n_classes() {
        let p = a.probability(c);
        numerators += p.numer();
        sum += p.numer() as f64 / p.denom() as f64;
    }
    assert_eq!(numerators, 8);
    assert!((sum - 1.0).abs() < 1e-12);
    assert_eq!(parts(CatCount::empty().probability(0)), (0, 1));
}

#[test]
fn most_frequent_takes_the_smallest_among_equals() {
    assert_eq!(counter(&[3, 1, 3, 1, 2]).most_frequent(), Ok(1));
    assert_eq!(counter(&[4]).most_frequent(), Ok(4));
    assert_eq!(counter(&[0, 5, 5]).most_frequent(), Ok(5));
    assert_eq!(CatCount::empty().most_frequent(), Err(ForestError::UndefinedPrediction));
}

#[test]
fn gini_is_exact_and_bounded() {
    assert_eq!(parts(counter(&[0, 0, 1, 1]).gini()), (8, 16));
    assert_eq!(parts(counter(&[0, 1, 2]).gini()), (6, 9));
    assert_eq!(parts(counter(&[2, 2, 2]).gini()), (0, 9));
    assert_eq!(parts(CatCount::empty().gini()), (0, 1));
    let worst = counter(&[0, 1, 2, 3]).gini();
    assert_eq!(parts(worst), (12, 16));
    for labels in [vec![0usize, 0, 0, 3], vec![1, 2, 3, 3, 3], vec![0, 1, 1, 2, 3, 3]] {
        let c = counter(&labels);
        let k = c.n_classes() as u128;
        let g = c.gini();
        assert!(g.numer() * k <= (k - 1) * g.denom());
        assert!(g.numer() > 0);
    }
}

#[test]
fn fractions_compare_exactly() {
    let f = |n: u128, d: u128| Fraction::new(n, d).unwrap();
    assert!(Fraction::new(1, 0).is_none());
    assert!(f(1, 3).lt(&f(1, 2)));
    assert!(!f(1, 2).lt(&f(1, 3)));
    assert!(!f(2, 4).lt(&f(1, 2)));
    assert!(!f(1, 2).lt(&f(2, 4)));
    assert!(f(0, 5).lt(&f(1, 1000)));
    assert!(!f(0, 5).lt(&f(0, 7)));
    assert!(f(0, 1).is_zero());
    assert!(!f(1, 9).is_zero());
    assert!(Fraction::zero().is_zero());
    let big = u128::MAX;
    assert!(f(big - 1, big).lt(&f(big, big)));
    assert!(f(big - 2, big - 1).lt(&f(big - 1, big)));
    assert!(!f(big - 1, big).lt(&f(big - 2, big - 1)));
    assert!(f(big / 3, big).lt(&f(1, 2)));
    assert!(f(7, 3).lt(&f(5, 2)));
    assert!(f(355, 113).lt(&f(22, 7)));
    assert!(!f(22, 7).lt(&f(355, 113)));
    let c = f(3, 4).copy();
    assert_eq!(parts(c), (3, 4));
    assert_eq!(parts(weigh_split(2, 2, 0, 3)), (6, 30));
}

#[test]
fn gini_criterion_weighs_the_sides() {
    assert!(GiniCriterion::is_scorable(&[1, 2, 3]));
    assert_eq!(parts(GiniCriterion::calc_presplit(&[1, 1, 2, 2])), (8, 16));
    assert_eq!(parts(GiniCriterion::calc_postsplit(&[1, 1], &[2, 2])), (0, 16));
    // left: 1 - (4 + 1) / 9 = 4/9, right: 0; (3 * 4/9 + 1 * 0) / 4 = 1/3
    let after = GiniCriterion::calc_postsplit(&[1, 1, 2], &[2]);
    assert!(after.lt(&GiniCriterion::calc_presplit(&[1, 1, 2, 2])));
    assert_eq!(parts(after), (4, 12));
}

#[test]
fn variance_criterion_is_exact() {
    assert!(VarCriterion::is_scorable(&[1, 2, 3]));
    // mean 3.5, squared distances 2.25 each
    assert_eq!(parts(VarCriterion::calc_presplit(&[5, 5, 5, 2, 2, 2])), (81, 36));
    assert_eq!(parts(VarCriterion::calc_presplit(&[-4, -4])), (0, 4));
    assert_eq!(parts(VarCriterion::calc_presplit(&[i32::MIN, i32::MAX])), ((1u128 << 64) - (1u128 << 33) + 1, 4));
    assert_eq!(parts(VarCriterion::calc_postsplit(&[5, 5, 5], &[2, 2, 2])), (0, 54));
    // left {5, 5, 2}: 3 * 54 - 144 = 18 over 9; right {5, 2, 2}: 3 * 33 - 81 = 18 over 9
    assert_eq!(parts(VarCriterion::calc_postsplit(&[5, 5, 2], &[5, 2, 2])), (108, 54));
    assert_eq!(sum_values(&[3, -4, 5]), (4, 50));
    assert_eq!(sum_values(&[]), (0, 0));
}

#[test]
fn means_are_joined_term_by_term() {
    let m = Mean::of(&[5, 6, 8]);
    assert_eq!((m.sum, m.count), (19, 3));
    let a = Average::of(m);
    assert_eq!(a.n_terms(), 1);
    let b = Average::of(Mean::of(&[-1]));
    let joined = a.join(&b);
    assert_eq!(joined.n_terms(), 2);
    assert_eq!(joined.term(0), Some(Mean { sum: 19, count: 3 }));
    assert_eq!(joined.term(1), Some(Mean { sum: -1, count: 1 }));
    assert_eq!(joined.term(2), None);
    assert_eq!(Average::empty().n_terms(), 0);
    let z = <Average as Aggregate>::zero();
    let sum = z.combine(&joined).unwrap().finalize(2);
    assert_eq!(sum.n_terms(), 2);
    let c = <CatCount as Aggregate>::zero().combine(&counter(&[1])).unwrap().finalize(1);
    assert_eq!(counts(&c), vec![0, 1]);
}

#[test]
fn split_between_rounds_down() {
    assert_eq!(split_between(1, 2), 1);
    assert_eq!(split_between(0, 10), 5);
    assert_eq!(split_between(-5, 4), -1);
    assert_eq!(split_between(-3, -2), -3);
    assert_eq!(split_between(i64::MIN, i64::MAX), -1);
    assert_eq!(split_between(i64::MAX - 1, i64::MAX), i64::MAX - 1);
}

#[test]
fn rows_and_lengths() {
    let rows = vec![TupleSample::new(vec![1, 2], 7i32), TupleSample::new(vec![3, 4], 8i32)];
    assert!(has_one_shape(&rows[..]));
    assert_eq!(collect_targets(&rows[..]), vec![7, 8]);
    let ragged = vec![TupleSample::new(vec![1, 2], 7i32), TupleSample::new(vec![3], 8i32)];
    assert!(!has_one_shape(&ragged[..]));
    let empty_rows = vec![TupleSample::new(vec![], 7i32)];
    assert!(!has_one_shape(&empty_rows[..]));
    let none: Vec<TupleSample<i32>> = Vec::new();
    assert!(has_one_shape(&none[..]));
    let slice: &[i32] = &[1, 2, 3];
    assert_eq!(FixedLength::len(&slice), 3);
    assert_eq!(FixedLength::len(slice), 3);
}

#[test]
fn errors_describe_themselves() {
    assert_eq!(ForestError::EmptyBounds.describe(), "feature bounds of an empty subset");
    assert_eq!(
        ForestError::UndefinedPrediction.describe(),
        "most frequent class of an empty counter"
    );
    assert_eq!(
        ForestError::DomainViolation.describe(),
        "a sample lacks a requested split feature"
    );
}
