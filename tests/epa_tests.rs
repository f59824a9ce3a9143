use epa::epa::{EpaParameters, Fraction, PermutationStrategy};
use epa::matrix::{SquareMatrix, SquareMatrixBorrower};
use epa::perm::{nearest_permutation, next_by_draw, random_nearest_from_draws, random_nearest_permutation, similarity_weights, total_weight, Permutation};
use epa::sample::{can_sample, placed_similarity, place_item, sample, sample_from_draws, step_weights, Clustering};
use epa::select::select_by_weight;
use rand::rngs::StdRng;
use rand::SeedableRng;

fn is_permutation(items: &[usize], n: usize) -> bool {
    let mut seen = vec![false; n];
    if items.len() != n {
        return false;
    }
    for &x in items {
        if x >= n || seen[x] {
            return false;
        }
        seen[x] = true;
    }
    true
}

fn frac(num: i16, den: u16) -> Fraction {
    Fraction::new(num, den).unwrap()
}

fn check_partition(c: &Clustering, n: usize) {
    assert_eq!(c.n_items(), n);
    assert!(c.n_clusters() <= n);
    if n > 0 {
        assert!(c.n_clusters() >= 1);
    }
    let mut used = vec![false; c.n_clusters()];
    for x in 0..n {
        let l = c.label_of(x);
        assert!(l < c.n_clusters());
        used[l] = true;
    }
    assert!(used.iter().all(|&u| u));
}

#[test]
fn identity_has_ones_on_diagonal() {
    for n in 1..6 {
        let m = SquareMatrix::identity(n);
        assert_eq!(m.n_items(), n);
        let v = m.view();
        for i in 0..n {
            for j in 0..n {
                assert_eq!(v.index(i, j), if i == j { 1 } else { 0 });
            }
        }
    }
}

#[test]
fn zeros_and_ones_fill_every_entry() {
    let z = SquareMatrix::zeros(4);
    assert_eq!(z.data().len(), 16);
    assert!(z.data().iter().all(|&x| x == 0));
    let o = SquareMatrix::ones(4);
    assert_eq!(o.data().len(), 16);
    assert!(o.data().iter().all(|&x| x == 1));
    assert_eq!(SquareMatrix::zeros(0).data().len(), 0);
}

#[test]
fn entries_are_stored_column_by_column() {
    let mut m = SquareMatrix::zeros(3);
    m.set(1, 2, 7);
    assert_eq!(m.data()[3 * 2 + 1], 7);
    let v = m.view();
    assert_eq!(v.index(1, 2), 7);
    assert_eq!(v.index(2, 1), 0);
    let data = [1u16, 2, 3, 4];
    let b = SquareMatrixBorrower::from_slice(&data, 2);
    assert_eq!(b.n_items(), 2);
    assert_eq!(b.index(0, 1), 3);
    assert_eq!(b.index(1, 0), 2);
    assert_eq!(b.data(), &data[..]);
}

#[test]
fn sums_of_triangle_and_row_subset() {
    // column-major: entry (i, j) at 3 * j + i
    let data = [1u16, 2, 3, 4, 5, 6, 7, 8, 9];
    let b = SquareMatrixBorrower::from_slice(&data, 3);
    // strictly lower triangle: (1,0)=2, (2,0)=3, (2,1)=6
    assert_eq!(b.sum_of_triangle(), 11);
    // row 1: (1,0)=2, (1,2)=8
    assert_eq!(b.sum_of_row_subset(1, &[0, 2]), 10);
    assert_eq!(b.sum_of_row_subset(1, &[]), 0);
    assert_eq!(b.sum_of_row_subset(2, &[1, 1]), 12);
}

#[test]
fn permutation_from_vector_checks_bijection() {
    assert!(Permutation::from_vector(vec![2, 0, 1]).is_some());
    assert!(Permutation::from_vector(vec![0, 0, 1]).is_none());
    assert!(Permutation::from_vector(vec![0, 3, 1]).is_none());
    assert!(Permutation::from_vector(vec![]).is_some());
    let p = Permutation::from_vector(vec![2, 0, 1]).unwrap();
    assert_eq!(p.n_items(), 3);
    assert_eq!(p.get(0), 2);
    assert_eq!(p.as_slice(), &[2, 0, 1]);
    assert_eq!(Permutation::natural(4).as_slice(), &[0, 1, 2, 3]);
}

#[test]
fn shuffle_keeps_a_bijection_and_reorders() {
    let mut moved = false;
    for seed in 0..20 {
        let mut rng = StdRng::seed_from_u64(seed);
        let mut p = Permutation::natural(10);
        p.shuffle(&mut rng);
        assert!(is_permutation(p.as_slice(), 10));
        if p.as_slice() != Permutation::natural(10).as_slice() {
            moved = true;
        }
    }
    assert!(moved);
}

#[test]
fn nearest_follows_most_similar_item() {
    // similarities: 0-2 high, 2-1 high, 0-1 low, 3 weakly tied to 1
    let mut m = SquareMatrix::zeros(4);
    let pairs = [(0, 2, 9), (2, 1, 8), (0, 1, 1), (1, 3, 5), (0, 3, 2), (2, 3, 3)];
    for &(i, j, s) in pairs.iter() {
        m.set(i, j, s);
        m.set(j, i, s);
    }
    let v = m.view();
    let p = nearest_permutation(&v, 0);
    assert_eq!(p.as_slice(), &[0, 2, 1, 3]);
    let q = nearest_permutation(&v, 0);
    assert_eq!(p.as_slice(), q.as_slice());
    let r = nearest_permutation(&v, 3);
    assert_eq!(r.as_slice(), &[3, 1, 2, 0]);
}

#[test]
fn nearest_breaks_ties_by_lowest_index() {
    let m = SquareMatrix::ones(4);
    let p = nearest_permutation(&m.view(), 2);
    assert_eq!(p.as_slice(), &[2, 0, 1, 3]);
}

#[test]
fn random_nearest_builds_bijection() {
    let m = SquareMatrix::ones(6);
    for seed in 0..10 {
        let mut rng = StdRng::seed_from_u64(seed);
        let p = random_nearest_permutation(&m.view(), 4, &mut rng);
        assert!(is_permutation(p.as_slice(), 6));
        assert_eq!(p.get(0), 4);
    }
    let z = SquareMatrix::zeros(3);
    let mut rng = StdRng::seed_from_u64(1);
    let p = random_nearest_permutation(&z.view(), 1, &mut rng);
    assert_eq!(p.as_slice(), &[1, 0, 2]);
}

#[test]
fn every_strategy_yields_bijection() {
    let m = SquareMatrix::ones(5);
    for strategy in 0..3 {
        for seed in 0..5 {
            let mut rng = StdRng::seed_from_u64(seed);
            let mut params =
                EpaParameters::new(m.view(), Permutation::natural(5), frac(1, 1), frac(0, 1)).unwrap();
            let s = match strategy {
                0 => PermutationStrategy::Shuffle,
                1 => PermutationStrategy::Nearest,
                _ => PermutationStrategy::RandomNearest,
            };
            params.shuffle_permutation(s, &mut rng);
            assert!(is_permutation(params.permutation().as_slice(), 5));
        }
    }
}

#[test]
fn parameters_need_matching_sizes() {
    let m = SquareMatrix::ones(3);
    assert!(EpaParameters::new(m.view(), Permutation::natural(2), frac(1, 1), frac(0, 1)).is_none());
    assert!(EpaParameters::new(m.view(), Permutation::natural(4), frac(1, 1), frac(0, 1)).is_none());
    let p = EpaParameters::new(m.view(), Permutation::natural(3), frac(1, 1), frac(0, 1)).unwrap();
    assert_eq!(p.similarity().n_items(), 3);
    assert_eq!(p.mass().num, 1);
    assert_eq!(p.discount().num, 0);
}

#[test]
fn fraction_needs_positive_denominator() {
    assert!(Fraction::new(1, 0).is_none());
    let f = Fraction::new(-3, 4).unwrap();
    assert_eq!((f.num, f.den), (-3, 4));
}

#[test]
fn sample_covers_every_item() {
    let mut m = SquareMatrix::ones(7);
    m.set(0, 3, 4);
    m.set(3, 0, 4);
    for seed in 0..30 {
        let mut rng = StdRng::seed_from_u64(seed);
        let p = EpaParameters::new(m.view(), Permutation::natural(7), frac(3, 2), frac(1, 4)).unwrap();
        let c = sample(&p, &mut rng);
        check_partition(&c, 7);
    }
}

#[test]
fn sample_of_one_item_has_one_cluster() {
    let m = SquareMatrix::ones(1);
    for seed in 0..5 {
        let mut rng = StdRng::seed_from_u64(seed);
        let p = EpaParameters::new(m.view(), Permutation::natural(1), frac(5, 3), frac(1, 2)).unwrap();
        let c = sample(&p, &mut rng);
        assert_eq!(c.n_clusters(), 1);
        assert_eq!(c.labels(), &[0]);
    }
}

#[test]
fn sample_of_no_items_is_empty() {
    let m = SquareMatrix::ones(0);
    let mut rng = StdRng::seed_from_u64(0);
    let p = EpaParameters::new(m.view(), Permutation::natural(0), frac(1, 1), frac(0, 1)).unwrap();
    let c = sample(&p, &mut rng);
    assert_eq!(c.n_clusters(), 0);
    assert_eq!(c.n_items(), 0);
}

#[test]
fn sample_is_determined_by_the_random_stream() {
    let m = SquareMatrix::ones(8);
    for seed in 0..10 {
        let p = EpaParameters::new(m.view(), Permutation::natural(8), frac(1, 1), frac(1, 3)).unwrap();
        let a = sample(&p, &mut StdRng::seed_from_u64(seed));
        let b = sample(&p, &mut StdRng::seed_from_u64(seed));
        assert_eq!(a.labels(), b.labels());
        assert_eq!(a.n_clusters(), b.n_clusters());
    }
}

#[test]
fn three_items_of_equal_similarity() {
    let m = SquareMatrix::ones(3);
    let p = EpaParameters::new(m.view(), Permutation::natural(3), frac(1, 1), frac(0, 1)).unwrap();
    // item 1: new cluster and cluster of item 0 weigh the same
    assert_eq!(step_weights(&p, 1, 1), (3, 3));
    let mut alone = 0;
    let mut together = 0;
    for seed in 0..200 {
        let c = sample(&p, &mut StdRng::seed_from_u64(seed));
        check_partition(&c, 3);
        assert_eq!(c.label_of(0), 0);
        if c.label_of(1) == c.label_of(0) {
            together += 1;
        } else {
            alone += 1;
        }
    }
    assert!(alone > 50 && together > 50);
}

#[test]
fn step_weights_with_discount() {
    let m = SquareMatrix::ones(3);
    let p = EpaParameters::new(m.view(), Permutation::natural(3), frac(2, 1), frac(1, 2)).unwrap();
    // new: (2 * 2 + 1 * 1 * 1) * 3; old: (1 * 2 - 1 * 1) * 1 * 3 * 1
    assert_eq!(step_weights(&p, 1, 1), (15, 3));
    // item 2 with two clusters: new (4 + 2) * 3; old (2 * 2 - 1 * 2) * 3
    assert_eq!(step_weights(&p, 2, 2), (18, 6));
}

#[test]
fn negative_weights_count_as_zero() {
    let m = SquareMatrix::ones(3);
    let p = EpaParameters::new(m.view(), Permutation::natural(3), frac(-5, 1), frac(0, 1)).unwrap();
    assert_eq!(step_weights(&p, 1, 1), (0, 3));
    assert!(!can_sample(&p));
    for r in [0u128, 1, 2, 7] {
        let c = sample_from_draws(&p, &vec![(r, r), (r, r), (r, r)]);
        assert_eq!(c.n_clusters(), 1);
    }
}

#[test]
fn dissimilar_items_stay_apart() {
    let m = SquareMatrix::identity(4);
    let p = EpaParameters::new(m.view(), Permutation::natural(4), frac(1, 1), frac(0, 1)).unwrap();
    assert_eq!(step_weights(&p, 2, 2), (0, 0));
    assert!(!can_sample(&p));
    let c = sample_from_draws(&p, &vec![(0, 0), (5, 5), (9, 9), (1, 1)]);
    assert_eq!(c.n_clusters(), 4);
}

#[test]
fn weighted_selection_by_prefix() {
    let w = vec![1u64, 0, 2];
    assert_eq!(total_weight(&w), 3);
    assert_eq!(select_by_weight(&w, 0), 0);
    assert_eq!(select_by_weight(&w, 1), 2);
    assert_eq!(select_by_weight(&w, 2), 2);
}

#[test]
fn similarity_weights_read_a_row() {
    let data = [1u16, 2, 3, 4, 5, 6, 7, 8, 9];
    let b = SquareMatrixBorrower::from_slice(&data, 3);
    assert_eq!(similarity_weights(&b, 0, &vec![2, 1]), vec![7, 4]);
}

#[test]
fn unchecked_entry_matches_index() {
    let data = [1u16, 2, 3, 4];
    let b = SquareMatrixBorrower::from_slice(&data, 2);
    assert_eq!(b.get_unchecked(1, 0), 2);
    assert_eq!(b.get_unchecked(0, 1), 3);
}

#[test]
fn cluster_members_and_sizes() {
    let m = SquareMatrix::identity(4);
    let p = EpaParameters::new(m.view(), Permutation::natural(4), frac(1, 1), frac(0, 1)).unwrap();
    let c = sample_from_draws(&p, &vec![(0, 0); 4]);
    for label in 0..4 {
        assert_eq!(c.size_of(label), 1);
        assert_eq!(c.items_of(label), vec![label]);
    }
    assert_eq!(c.size_of(9), 0);
    let o = SquareMatrix::ones(3);
    let q = EpaParameters::new(o.view(), Permutation::natural(3), frac(-5, 1), frac(0, 1)).unwrap();
    let d = sample_from_draws(&q, &vec![(0, 0); 3]);
    assert_eq!(d.items_of(0), vec![0, 1, 2]);
    assert_eq!(d.size_of(0), 3);
}

#[test]
fn draws_decide_three_equal_items() {
    let m = SquareMatrix::ones(3);
    let p = EpaParameters::new(m.view(), Permutation::natural(3), frac(1, 1), frac(0, 1)).unwrap();
    // item 1 joins item 0 (3 >= weight 3 of a new cluster); item 2 opens a cluster
    let c = sample_from_draws(&p, &vec![(0, 0), (3, 0), (0, 0)]);
    assert_eq!(c.labels(), &[0, 0, 1]);
    assert_eq!(c.n_clusters(), 2);
    // item 1 opens a cluster; item 2 (new 3, old 6) joins item 1, picked by r2 = 1 of 2
    let d = sample_from_draws(&p, &vec![(0, 0), (0, 0), (5, 1)]);
    assert_eq!(d.labels(), &[0, 1, 1]);
    // r2 = 0 picks item 0 instead
    let e = sample_from_draws(&p, &vec![(0, 0), (0, 0), (5, 0)]);
    assert_eq!(e.labels(), &[0, 1, 0]);
    // a second draw past the range wraps around the similarity sum
    let f = sample_from_draws(&p, &vec![(0, 0), (0, 0), (5, 3)]);
    assert_eq!(f.labels(), &[0, 1, 1]);
    assert_eq!(placed_similarity(&p, 2), 2);
}

#[test]
fn draws_on_one_item() {
    let m = SquareMatrix::ones(1);
    let p = EpaParameters::new(m.view(), Permutation::natural(1), frac(2, 1), frac(1, 2)).unwrap();
    for r in [0u128, 7, u128::MAX] {
        let c = sample_from_draws(&p, &vec![(r, r)]);
        assert_eq!(c.labels(), &[0]);
        assert_eq!(c.n_clusters(), 1);
    }
}

#[test]
fn placing_items_one_by_one() {
    let m = SquareMatrix::ones(2);
    let p = EpaParameters::new(m.view(), Permutation::from_vector(vec![1, 0]).unwrap(), frac(1, 1), frac(0, 1)).unwrap();
    let mut labels = vec![0usize, 0];
    let mut n_clusters = 0usize;
    place_item(&p, 0, &mut labels, &mut n_clusters, (0, 0));
    assert_eq!((labels.clone(), n_clusters), (vec![0, 0], 1));
    // weights (2, 2): a first draw of 1 opens a second cluster for item 0
    assert_eq!(step_weights(&p, 1, 1), (2, 2));
    place_item(&p, 1, &mut labels, &mut n_clusters, (1, 0));
    assert_eq!((labels, n_clusters), (vec![1, 0], 2));
}

#[test]
fn sampling_needs_positive_strength_and_similarity() {
    let m = SquareMatrix::ones(4);
    let ok = EpaParameters::new(m.view(), Permutation::natural(4), frac(1, 1), frac(1, 2)).unwrap();
    assert!(can_sample(&ok));
    // mass + discount * q = -1 + q / 2 is not positive for q = 1 and q = 2
    let weak = EpaParameters::new(m.view(), Permutation::natural(4), frac(-1, 1), frac(1, 2)).unwrap();
    assert!(!can_sample(&weak));
    // -1/4 + q / 2 is positive for every q >= 1
    let fine = EpaParameters::new(m.view(), Permutation::natural(4), frac(-1, 4), frac(1, 2)).unwrap();
    assert!(can_sample(&fine));
    let z = SquareMatrix::zeros(2);
    let flat = EpaParameters::new(z.view(), Permutation::natural(2), frac(1, 1), frac(0, 1)).unwrap();
    assert!(!can_sample(&flat));
    let e = SquareMatrix::ones(0);
    let empty = EpaParameters::new(e.view(), Permutation::natural(0), frac(-1, 1), frac(0, 1)).unwrap();
    assert!(can_sample(&empty));
}

#[test]
fn random_nearest_avoids_dissimilar_items() {
    // 0 is similar only to 2, 2 only to 1, 1 only to 3
    let mut m = SquareMatrix::zeros(4);
    for &(i, j) in [(0, 2), (2, 1), (1, 3)].iter() {
        m.set(i, j, 5);
        m.set(j, i, 5);
    }
    for seed in 0..20 {
        let p = random_nearest_permutation(&m.view(), 0, &mut StdRng::seed_from_u64(seed));
        assert_eq!(p.as_slice(), &[0, 2, 1, 3]);
    }
    // from 3: on to 1, then 2, then 0
    let q = random_nearest_permutation(&m.view(), 3, &mut StdRng::seed_from_u64(4));
    assert_eq!(q.as_slice(), &[3, 1, 2, 0]);
}

#[test]
fn nearest_strategy_builds_greedy_path() {
    let mut m = SquareMatrix::zeros(3);
    for &(i, j, s) in [(0, 1, 2), (0, 2, 9), (1, 2, 4)].iter() {
        m.set(i, j, s);
        m.set(j, i, s);
    }
    for seed in 0..10 {
        let mut params =
            EpaParameters::new(m.view(), Permutation::natural(3), frac(1, 1), frac(0, 1)).unwrap();
        params.shuffle_permutation(PermutationStrategy::Nearest, &mut StdRng::seed_from_u64(seed));
        let order = params.permutation().as_slice().to_vec();
        let expected = nearest_permutation(&m.view(), order[0]);
        assert_eq!(order.as_slice(), expected.as_slice());
    }
}

#[test]
fn draws_decide_random_walk() {
    let m = SquareMatrix::ones(3);
    let v = m.view();
    // from 0 the pool is [1, 2] with weights [1, 1]: draw 1 takes item 2
    assert_eq!(random_nearest_from_draws(&v, 0, &vec![1, 0]).as_slice(), &[0, 2, 1]);
    assert_eq!(random_nearest_from_draws(&v, 0, &vec![0, 5]).as_slice(), &[0, 1, 2]);
    // draws wrap around the total
    assert_eq!(random_nearest_from_draws(&v, 0, &vec![3, 0]).as_slice(), &[0, 2, 1]);
    assert_eq!(next_by_draw(&v, 0, &vec![1, 2], 3), 1);
    let z = SquareMatrix::zeros(3);
    assert_eq!(random_nearest_from_draws(&z.view(), 2, &vec![9, 9]).as_slice(), &[2, 0, 1]);
    let mut w = SquareMatrix::zeros(3);
    w.set(0, 2, 4);
    assert_eq!(next_by_draw(&w.view(), 0, &vec![1, 2], 0), 1);
}
