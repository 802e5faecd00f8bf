use kmeans::arithmetic::{compute_norms, compute_objective, compute_squared_distance};
use kmeans::assignment::{compute_chunk_assignments_only, nearest_cluster};
use kmeans::batch::compute_chunk_assignments;
use kmeans::centroids::{normalize_centroids, rebuild_centroid_views};
use kmeans::clustering::run_restart;
use kmeans::lloyd::run_lloyd_iterations;
use kmeans::sweep::{assign_full_dataset, assign_points_for_update, AssignmentSummary};
use kmeans::update::{move_centroids, reseed_pool, update_centroids};
use kmeans::{
    check_limits, draw_config, find_obstacle, first_restart, next_restart, prepare_training,
    run_kmeans, run_kmeans_checked, run_kmeans_reported, run_kmeans_with_config, validate_inputs,
    Arithmetic, InputError, KMeansConfig, KMeansError, DEFAULT_DECODE_BLOCK_SIZE,
    DEFAULT_MAX_POINTS_PER_CENTROID,
};
use rand::rngs::StdRng;
use rand::{RngCore, SeedableRng};

struct Single;

impl Arithmetic for Single {
    type Value = f32;
    type Total = f64;
    type Products = Vec<f32>;

    fn zero() -> f32 {
        0.0
    }

    fn two() -> f32 {
        2.0
    }

    fn from_count(count: usize) -> f32 {
        count as f32
    }

    fn plus(a: f32, b: f32) -> f32 {
        a + b
    }

    fn minus(a: f32, b: f32) -> f32 {
        a - b
    }

    fn times(a: f32, b: f32) -> f32 {
        a * b
    }

    fn square_root(a: f32) -> f32 {
        a.sqrt()
    }

    fn reciprocal(a: f32) -> f32 {
        1.0 / a
    }

    fn key(a: f32) -> Option<i64> {
        Self::total_key(f64::from(a))
    }

    fn multiply(rows: usize, inner: usize, columns: usize, left: &[f32], right: &[f32]) -> Vec<f32> {
        let mut products = vec![0.0; rows * columns];
        for r in 0..rows {
            for c in 0..columns {
                for i in 0..inner {
                    products[r * columns + c] += left[r * inner + i] * right[i * columns + c];
                }
            }
        }
        products
    }

    fn entry(products: &Vec<f32>, place: usize) -> f32 {
        products[place]
    }

    fn total_zero() -> f64 {
        0.0
    }

    fn widen(a: f32) -> f64 {
        f64::from(a)
    }

    fn total_plus(a: f64, b: f64) -> f64 {
        a + b
    }

    fn total_times(a: f64, b: f64) -> f64 {
        a * b
    }

    fn total_key(a: f64) -> Option<i64> {
        if a.is_nan() {
            None
        } else if a == f64::INFINITY {
            Some(i64::MAX)
        } else if a < 0.0 {
            Some(-((-a).to_bits() as i64))
        } else {
            Some(a.abs().to_bits() as i64)
        }
    }
}

fn simple_dataset() -> Vec<Vec<f32>> {
    let mut data = Vec::new();
    for _ in 0..16 {
        data.push(vec![0.0, 0.0]);
        data.push(vec![10.0, 9.5]);
    }
    data
}

fn key_of(a: f32) -> i64 {
    Single::key(a).unwrap()
}

#[test]
fn kmeans_converges_on_simple_dataset() {
    let data = simple_dataset();
    let config = KMeansConfig {
        niter: 20,
        nredo: 3,
        seed: 0xBAD5EED,
        spherical: false,
        max_points_per_centroid: DEFAULT_MAX_POINTS_PER_CENTROID,
        decode_block_size: DEFAULT_DECODE_BLOCK_SIZE,
    };
    let result = run_kmeans_with_config::<Single>(&data, 2, config);
    assert_eq!(result.centroids.len(), 2);
    assert_eq!(result.assignments.len(), data.len());
    assert!(result.objective >= 0.0);
    let mut centroids = result.centroids.clone();
    centroids.sort_by(|a, b| a[0].partial_cmp(&b[0]).unwrap());
    let left = &centroids[0];
    let right = &centroids[1];
    assert!(left[0].abs() < 0.5 && left[1].abs() < 0.5);
    assert!((right[0] - 10.0).abs() < 0.5 && (right[1] - 9.5).abs() < 0.5);
}

#[test]
fn runs_are_deterministic_given_seed() {
    let data = simple_dataset();
    let config1 = KMeansConfig {
        niter: 20,
        nredo: 1,
        seed: 0x1234_5678,
        spherical: false,
        max_points_per_centroid: DEFAULT_MAX_POINTS_PER_CENTROID,
        decode_block_size: DEFAULT_DECODE_BLOCK_SIZE,
    };
    let config2 = KMeansConfig {
        niter: 20,
        nredo: 1,
        seed: 0x1234_5678,
        spherical: false,
        max_points_per_centroid: DEFAULT_MAX_POINTS_PER_CENTROID,
        decode_block_size: DEFAULT_DECODE_BLOCK_SIZE,
    };
    let result1 = run_kmeans_with_config::<Single>(&data, 2, config1);
    let result2 = run_kmeans_with_config::<Single>(&data, 2, config2);
    assert_eq!(result1.assignments, result2.assignments);
    assert_eq!(result1.centroids, result2.centroids);
    assert_eq!(result1.objective, result2.objective);
}

#[test]
fn default_configuration() {
    let config = KMeansConfig::default();
    assert_eq!(config.niter, 25);
    assert_eq!(config.nredo, 1);
    assert_eq!(config.seed, 42);
    assert!(!config.spherical);
    assert_eq!(config.max_points_per_centroid, 256);
    assert_eq!(config.decode_block_size, 32768);
}

#[test]
fn inputs_are_looked_over_in_order() {
    let data = vec![vec![1.0f32, 2.0], vec![3.0, 4.0]];
    let mixed = vec![vec![1.0f32, 2.0], vec![3.0]];
    let none: Vec<Vec<f32>> = Vec::new();
    assert_eq!(validate_inputs(&data, 2, 1), Ok(2));
    assert_eq!(validate_inputs(&none, 0, 0), Err(InputError::EmptyData));
    assert_eq!(validate_inputs(&data, 0, 0), Err(InputError::ZeroClusters));
    assert_eq!(validate_inputs(&data, 3, 0), Err(InputError::ZeroIterations));
    assert_eq!(validate_inputs(&mixed, 3, 1), Err(InputError::TooManyClusters));
    assert_eq!(validate_inputs(&mixed, 1, 1), Err(InputError::MixedDimensions));
}

#[test]
fn errors_have_messages() {
    assert_eq!(InputError::EmptyData.message(), "k-means requires non-empty data");
    assert_eq!(InputError::ZeroClusters.message(), "k must be positive");
    assert_eq!(InputError::ZeroIterations.message(), "max_iter must be positive");
    assert_eq!(InputError::TooManyClusters.message(), "k cannot exceed number of samples");
    assert_eq!(
        InputError::MixedDimensions.message(),
        "all vectors must share the same dimension"
    );
}

#[test]
fn limits_are_checked() {
    let config = KMeansConfig::default();
    assert!(check_limits(1000, 16, 8, &config));
    assert!(!check_limits(1000, 0, 8, &config));
    assert!(!check_limits(usize::MAX, 2, 8, &config));
    assert!(!check_limits(1000, 16, usize::MAX, &config));
    let mut none = KMeansConfig::default();
    none.nredo = 0;
    assert!(!check_limits(1000, 16, 8, &none));
    let mut unbatched = KMeansConfig::default();
    unbatched.decode_block_size = 0;
    assert!(!check_limits(1000, 16, 8, &unbatched));
    unbatched.decode_block_size = usize::MAX;
    assert!(!check_limits(1000, 16, 8, &unbatched));
}

#[test]
fn norms_are_sums_of_squares() {
    assert_eq!(compute_norms::<Single>(&[3.0, 4.0, 1.0, 2.0], 2, 2), vec![25.0, 5.0]);
}

#[test]
fn objective_adds_squared_distances() {
    assert_eq!(compute_squared_distance::<Single>(&[1.0, 5.0], 0, &[4.0, 1.0], 0, 2), 25.0);
    let objective = compute_objective::<Single>(
        &[0.0, 0.0, 3.0, 4.0, 10.0, 11.0],
        &[0.0, 0.0, 10.0, 10.0],
        &[0, 0, 1],
        3,
        2,
    );
    assert_eq!(objective, 26.0);
}

#[test]
fn centroids_are_seen_by_columns() {
    let mut columns = vec![9.0];
    let mut norms = vec![9.0; 7];
    rebuild_centroid_views::<Single>(
        &[1.0, 2.0, 3.0, 4.0, 5.0, 6.0],
        2,
        3,
        &mut columns,
        &mut norms,
    );
    assert_eq!(columns, vec![1.0, 4.0, 2.0, 5.0, 3.0, 6.0]);
    assert_eq!(norms, vec![14.0, 77.0]);
}

#[test]
fn centroids_are_scaled_to_unit_length() {
    let mut centroids = vec![0.0, 4.0, 0.0, 0.0, 8.0, 0.0, 7.0];
    normalize_centroids::<Single>(&mut centroids, 3, 2);
    assert_eq!(centroids, vec![0.0, 1.0, 0.0, 0.0, 1.0, 0.0, 7.0]);
}

#[test]
fn nearest_cluster_is_the_first_of_the_least() {
    // The distances are 1 + 1 - 2 * 0.5 = 1, then 0 and 0.
    let products = vec![0.5, 1.0, 1.0];
    let norms = [1.0, 1.0, 1.0];
    assert_eq!(nearest_cluster::<Single>(1.0, &norms, &products, 0), (1, 0));
}

#[test]
fn distance_below_zero_counts_as_zero() {
    // The distances are 0 and then below zero, which is no nearer.
    let products = vec![1.0, 1.5];
    assert_eq!(nearest_cluster::<Single>(1.0, &[1.0, 1.0], &products, 0), (0, 0));
}

#[test]
fn unordered_distance_leaves_the_first_cluster() {
    let products = vec![f32::NAN, f32::NAN];
    let nearest = nearest_cluster::<Single>(1.0, &[1.0, 1.0], &products, 0);
    assert_eq!(nearest, (0, i64::MAX));
    let products = vec![f32::NAN, 0.5];
    let nearest = nearest_cluster::<Single>(1.0, &[1.0, 1.0], &products, 0);
    assert_eq!(nearest, (1, key_of(1.0)));
}

#[test]
fn batch_is_assigned_and_added_up() {
    // Points on a line, centroids at 0 and 10.
    let data = [1.0, 9.0, 2.0, 12.0];
    let norms = [1.0, 81.0, 4.0, 144.0];
    let columns = [0.0, 10.0];
    let centroid_norms = [0.0, 100.0];
    let chunk = compute_chunk_assignments::<Single>(
        100,
        &data,
        &norms,
        4,
        2,
        1,
        &columns,
        &centroid_norms,
    );
    assert_eq!(chunk.start, 100);
    assert_eq!(chunk.len, 4);
    assert_eq!(chunk.assignments, vec![0, 1, 0, 1]);
    assert_eq!(chunk.counts, vec![2, 2]);
    assert_eq!(chunk.sums, vec![3.0, 21.0]);
    assert_eq!(
        chunk.candidates,
        vec![(key_of(4.0), 102), (key_of(4.0), 103), (key_of(1.0), 100), (key_of(1.0), 101)]
    );
    let only = compute_chunk_assignments_only::<Single>(
        &data,
        &norms,
        4,
        2,
        1,
        &columns,
        &centroid_norms,
    );
    assert_eq!(only, chunk.assignments);
}

#[test]
fn batches_are_put_together() {
    let data: Vec<f32> = vec![1.0, 9.0, 2.0, 12.0, 3.0];
    let norms: Vec<f32> = data.iter().map(|x| x * x).collect();
    let columns = [0.0, 10.0];
    let centroid_norms = [0.0, 100.0];
    for block in [1, 2, 3, 5, 100] {
        let mut assignments = vec![7; 6];
        let summary = assign_points_for_update::<Single>(
            &data,
            &norms,
            &mut assignments,
            2,
            1,
            &columns,
            &centroid_norms,
            block,
        );
        assert_eq!(assignments, vec![0, 1, 0, 1, 0, 7]);
        assert_eq!(summary.counts, vec![3, 2]);
        assert_eq!(summary.counts.iter().sum::<usize>(), data.len());
        assert_eq!(summary.sums, vec![6.0, 21.0]);
        let mut rows: Vec<usize> = summary.candidates.iter().map(|c| c.1).collect();
        rows.sort_unstable();
        assert_eq!(rows, vec![0, 1, 2, 3, 4]);
        let full = assign_full_dataset::<Single>(
            &data,
            &norms,
            2,
            1,
            &columns,
            &centroid_norms,
            block,
        );
        assert_eq!(full, vec![0, 1, 0, 1, 0]);
    }
}

#[test]
fn centroids_move_to_the_mean() {
    let mut centroids = vec![0.0, 0.0, 0.0, 5.0];
    move_centroids::<Single>(
        &mut centroids,
        3,
        1,
        &[100.0, 200.0, 300.0],
        &vec![2, 0, 4],
        &vec![3.0, 0.0, 6.0],
        &vec![1],
    );
    assert_eq!(centroids, vec![1.5, 200.0, 1.5, 5.0]);
}

#[test]
fn empty_clusters_are_reseeded_with_the_farthest_points() {
    let mut centroids = vec![0.0, 0.0, 0.0];
    let summary = AssignmentSummary {
        counts: vec![0, 2, 0],
        sums: vec![0.0, 6.0, 0.0],
        candidates: vec![(key_of(1.0), 0), (key_of(9.0), 2), (key_of(4.0), 1)],
    };
    let mut rng = StdRng::seed_from_u64(5);
    update_centroids::<Single>(&mut centroids, 3, 1, &[10.0, 20.0, 30.0], &summary, &mut rng);
    assert_eq!(centroids, vec![30.0, 3.0, 20.0]);
    assert_eq!(rng, StdRng::seed_from_u64(5));
}

#[test]
fn steps_converge_on_a_line() {
    let data = [0.0, 1.0, 10.0, 11.0];
    let norms = compute_norms::<Single>(&data, 4, 1);
    let mut centroids = vec![0.0, 1.0];
    let mut assignments = vec![0; 4];
    let mut rng = StdRng::seed_from_u64(0);
    run_lloyd_iterations::<Single>(
        &mut centroids,
        10,
        2,
        1,
        &data,
        &norms,
        &mut assignments,
        &mut rng,
        false,
        3,
    );
    assert_eq!(centroids, vec![0.5, 10.5]);
    assert_eq!(assignments, vec![0, 0, 1, 1]);
}

#[test]
fn no_steps_leave_everything() {
    let mut centroids = vec![3.0, 4.0];
    let mut assignments = vec![9];
    let mut rng = StdRng::seed_from_u64(0);
    run_lloyd_iterations::<Single>(
        &mut centroids,
        0,
        2,
        1,
        &[1.0],
        &[1.0],
        &mut assignments,
        &mut rng,
        true,
        1,
    );
    assert_eq!(centroids, vec![3.0, 4.0]);
    assert_eq!(assignments, vec![9]);
}

#[test]
fn spherical_centroids_have_unit_length() {
    let data = vec![vec![2.0, 0.0], vec![4.0, 0.0], vec![0.0, 8.0], vec![0.0, 16.0]];
    let mut config = KMeansConfig::default();
    config.spherical = true;
    let result = run_kmeans_with_config::<Single>(&data, 2, config);
    for centroid in &result.centroids {
        let norm: f32 = centroid.iter().map(|x| x * x).sum();
        assert!((norm - 1.0).abs() < 1e-6);
    }
}

#[test]
fn best_restart_is_kept() {
    let data: Vec<Vec<f32>> =
        (0..60).map(|i| vec![((i * 37) % 101) as f32, ((i * 53) % 89) as f32]).collect();
    let mut config = KMeansConfig::default();
    config.niter = 2;
    config.nredo = 6;
    config.max_points_per_centroid = 5;
    config.decode_block_size = 7;
    let report = run_kmeans_reported::<Single>(&data, 4, &config);
    assert_eq!(report.training_rows, 20);
    assert_eq!(report.restarts.len(), 6);
    let least = report.restarts.iter().map(|r| r.objective).fold(f64::INFINITY, f64::min);
    assert_eq!(report.result.objective, least);
    let mut best = report.restarts[0].objective;
    assert!(!report.restarts[0].new_best);
    for restart in &report.restarts[1..] {
        assert_eq!(restart.new_best, restart.objective < best);
        if restart.new_best {
            best = restart.objective;
        }
    }
    assert_eq!(best, least);
    let result = run_kmeans_with_config::<Single>(&data, 4, config);
    assert_eq!(result.assignments, report.result.assignments);
    assert_eq!(result.centroids, report.result.centroids);
    assert!(result.assignments.iter().all(|c| *c < 4));
}

#[test]
fn restarts_have_seeds_of_their_own() {
    let data: Vec<Vec<f32>> = (0..40).map(|i| vec![((i * 29) % 83) as f32]).collect();
    let flattened: Vec<f32> = data.iter().map(|v| v[0]).collect();
    let mut config = KMeansConfig::default();
    config.niter = 1;
    config.nredo = 3;
    config.seed = u64::MAX;
    let report = run_kmeans_reported::<Single>(&data, 3, &config);
    for i in 0..3u64 {
        let seed = config.seed.wrapping_add(i.wrapping_mul(0x9e3779b97f4a7c15));
        let result = run_restart::<Single>(&flattened, 40, &flattened, 40, 3, 1, &config, seed);
        assert_eq!(result.objective, report.restarts[i as usize].objective);
    }
}

#[test]
fn single_run_draws_its_seed() {
    let data = simple_dataset();
    let mut rng = StdRng::seed_from_u64(99);
    let mut same = StdRng::seed_from_u64(99);
    let result = run_kmeans::<Single>(&data, 3, 4, &mut rng);
    let mut config = KMeansConfig::default();
    config.niter = 4;
    config.seed = same.next_u64();
    let expected = run_kmeans_with_config::<Single>(&data, 3, config);
    assert_eq!(result.centroids, expected.centroids);
    assert_eq!(result.assignments, expected.assignments);
    assert_eq!(result.objective, expected.objective);
    assert_eq!(rng, same);
}

#[test]
fn as_many_clusters_as_points() {
    let data = vec![vec![1.0, 2.0], vec![5.0, -3.0], vec![9.0, 0.0], vec![1.0, 7.0]];
    for seed in 0..20u64 {
        let mut config = KMeansConfig::default();
        config.seed = seed;
        config.nredo = 1 + seed as usize % 3;
        config.max_points_per_centroid = seed as usize % 2;
        config.decode_block_size = 1 + seed as usize % 4;
        let result = run_kmeans_with_config::<Single>(&data, 4, config);
        assert_eq!(result.objective, 0.0);
        let mut clusters = result.assignments.clone();
        clusters.sort_unstable();
        assert_eq!(clusters, vec![0, 1, 2, 3]);
        for (point, cluster) in data.iter().zip(&result.assignments) {
            assert_eq!(&result.centroids[*cluster], point);
        }
    }
}

#[test]
fn training_on_one_point_ends_there() {
    let data = vec![vec![0.0], vec![4.0]];
    for seed in 0..10 {
        let mut config = KMeansConfig::default();
        config.niter = 1;
        config.seed = seed;
        config.max_points_per_centroid = 1;
        let report = run_kmeans_reported::<Single>(&data, 1, &config);
        assert_eq!(report.training_rows, 1);
        assert_eq!(report.result.assignments, vec![0, 0]);
        assert_eq!(report.result.objective, 16.0);
        assert!(
            report.result.centroids == vec![vec![0.0]]
                || report.result.centroids == vec![vec![4.0]]
        );
    }
}

#[test]
fn empty_cluster_is_reseeded_with_some_point() {
    let data = [10.0, 11.0, 20.0, 21.0, 30.0, 31.0];
    for seed in 0..10 {
        let mut centroids = vec![0.0, 0.0, 0.0, 0.0];
        let summary = AssignmentSummary {
            counts: vec![2, 0],
            sums: vec![8.0, 6.0, 0.0, 0.0],
            candidates: vec![],
        };
        let mut rng = StdRng::seed_from_u64(seed);
        update_centroids::<Single>(&mut centroids, 2, 2, &data, &summary, &mut rng);
        assert_eq!(centroids[..2], [4.0, 3.0]);
        assert!(data.chunks(2).any(|point| point == &centroids[2..]));
    }
}

#[test]
fn batch_size_leaves_the_means() {
    let data: Vec<f32> =
        vec![0.0, 1.0, 2.0, 0.0, 9.0, 9.0, 8.0, 10.0, 1.0, 1.0, 10.0, 8.0, 20.0, 0.0];
    let norms = compute_norms::<Single>(&data, 7, 2);
    let mut columns = Vec::new();
    let mut centroid_norms = Vec::new();
    rebuild_centroid_views::<Single>(
        &[0.0, 0.0, 9.0, 8.0, 19.0, 1.0],
        3,
        2,
        &mut columns,
        &mut centroid_norms,
    );
    for block in [1, 2, 3, 5, 7, 100] {
        let mut assignments = vec![5; 7];
        let summary = assign_points_for_update::<Single>(
            &data,
            &norms,
            &mut assignments,
            3,
            2,
            &columns,
            &centroid_norms,
            block,
        );
        assert_eq!(assignments, vec![0, 0, 1, 1, 0, 1, 2]);
        assert_eq!(summary.counts, vec![3, 3, 1]);
        assert_eq!(summary.sums, vec![3.0, 2.0, 27.0, 27.0, 20.0, 0.0]);
        let full = assign_full_dataset::<Single>(
            &data,
            &norms,
            3,
            2,
            &columns,
            &centroid_norms,
            block,
        );
        assert_eq!(full, assignments);
        let mut centroids = vec![0.0, 0.0, 9.0, 8.0, 19.0, 1.0];
        run_lloyd_iterations::<Single>(
            &mut centroids,
            1,
            3,
            2,
            &data,
            &norms,
            &mut assignments,
            &mut StdRng::seed_from_u64(1),
            false,
            block,
        );
        let third = 1.0f32 / 3.0;
        assert_eq!(
            centroids,
            vec![3.0 * third, 2.0 * third, 27.0 * third, 27.0 * third, 20.0, 0.0]
        );
    }
}

fn scattered() -> Vec<f32> {
    (0..80).map(|i| ((i * 37) % 101) as f32).collect()
}

fn iterate(centroids: &mut Vec<f32>, steps: usize, assignments: &mut Vec<usize>, rng: &mut StdRng) {
    let data = scattered();
    let norms = compute_norms::<Single>(&data, 40, 2);
    run_lloyd_iterations::<Single>(
        centroids,
        steps,
        4,
        2,
        &data,
        &norms,
        assignments,
        rng,
        false,
        9,
    );
}

#[test]
fn runs_add_up() {
    let start: Vec<f32> = scattered()[..8].to_vec();
    let mut parted = start.clone();
    let mut parted_assignments = vec![0; 40];
    let mut parted_rng = StdRng::seed_from_u64(3);
    iterate(&mut parted, 2, &mut parted_assignments, &mut parted_rng);
    assert_ne!(parted, start);
    iterate(&mut parted, 3, &mut parted_assignments, &mut parted_rng);
    let mut whole = start;
    let mut whole_assignments = vec![0; 40];
    let mut whole_rng = StdRng::seed_from_u64(3);
    iterate(&mut whole, 5, &mut whole_assignments, &mut whole_rng);
    assert_eq!(parted, whole);
    assert_eq!(parted_assignments, whole_assignments);
    assert_eq!(parted_rng, whole_rng);
}

#[test]
fn last_step_assigns_by_the_centroids_before() {
    let data = scattered();
    let norms = compute_norms::<Single>(&data, 40, 2);
    let mut centroids: Vec<f32> = data[..8].to_vec();
    let mut assignments = vec![0; 40];
    let mut rng = StdRng::seed_from_u64(8);
    iterate(&mut centroids, 2, &mut assignments, &mut rng);
    let mut columns = Vec::new();
    let mut centroid_norms = Vec::new();
    rebuild_centroid_views::<Single>(&centroids, 4, 2, &mut columns, &mut centroid_norms);
    let expected =
        assign_full_dataset::<Single>(&data, &norms, 4, 2, &columns, &centroid_norms, 9);
    iterate(&mut centroids, 1, &mut assignments, &mut rng);
    assert_eq!(assignments, expected);
}

#[test]
fn update_ignores_the_centroids_before() {
    let summary = AssignmentSummary {
        counts: vec![2, 0, 1],
        sums: vec![3.0, 0.0, 8.0],
        candidates: vec![(key_of(1.0), 0), (key_of(9.0), 2)],
    };
    let mut first = vec![0.0, 0.0, 0.0];
    let mut second = vec![7.0, -1.0, 1e9];
    let mut first_rng = StdRng::seed_from_u64(5);
    let mut second_rng = StdRng::seed_from_u64(5);
    update_centroids::<Single>(&mut first, 3, 1, &[10.0, 20.0, 30.0], &summary, &mut first_rng);
    update_centroids::<Single>(&mut second, 3, 1, &[10.0, 20.0, 30.0], &summary, &mut second_rng);
    assert_eq!(first, vec![1.5, 30.0, 8.0]);
    assert_eq!(second, first);
    assert_eq!(first_rng, second_rng);
}

#[test]
fn more_restarts_are_never_worse() {
    let data: Vec<Vec<f32>> =
        (0..60).map(|i| vec![((i * 37) % 101) as f32, ((i * 53) % 89) as f32]).collect();
    let mut config = KMeansConfig::default();
    config.niter = 2;
    config.max_points_per_centroid = 5;
    config.nredo = 8;
    let many = run_kmeans_reported::<Single>(&data, 4, &config);
    for nredo in 1..8 {
        config.nredo = nredo;
        let few = run_kmeans_reported::<Single>(&data, 4, &config);
        assert_eq!(few.training_rows, many.training_rows);
        for (a, b) in few.restarts.iter().zip(&many.restarts) {
            assert_eq!(a.objective, b.objective);
            assert_eq!(a.new_best, b.new_best);
        }
        assert!(
            many.result.objective < few.result.objective
                || many.result.assignments == few.result.assignments
                    && many.result.centroids == few.result.centroids
        );
    }
}

#[test]
fn result_is_the_earliest_best_single_run() {
    let data: Vec<Vec<f32>> =
        (0..60).map(|i| vec![((i * 37) % 101) as f32, ((i * 53) % 89) as f32]).collect();
    let mut config = KMeansConfig::default();
    config.niter = 2;
    config.nredo = 5;
    let result = run_kmeans_with_config::<Single>(&data, 4, config.clone());
    let mut best = None;
    for i in 0..5u64 {
        let mut single = config.clone();
        single.nredo = 1;
        single.seed = config.seed.wrapping_add(i.wrapping_mul(0x9e3779b97f4a7c15));
        let outcome = run_kmeans_with_config::<Single>(&data, 4, single);
        best = match best {
            None => Some(outcome),
            Some(earlier) if outcome.objective < earlier.objective => Some(outcome),
            earlier => earlier,
        };
    }
    let best = best.unwrap();
    assert_eq!(result.centroids, best.centroids);
    assert_eq!(result.assignments, best.assignments);
    assert_eq!(result.objective, best.objective);
}

#[test]
fn pool_begins_with_the_farthest_of_all() {
    let data: Vec<f32> = (0..20).map(|i| ((i * 7) % 20) as f32).collect();
    let norms = compute_norms::<Single>(&data, 20, 1);
    let mut by_distance: Vec<usize> = (0..20).collect();
    by_distance.sort_by(|a, b| data[*b].partial_cmp(&data[*a]).unwrap());
    for block in [1, 3, 9, 20, 64] {
        let mut assignments = vec![0; 20];
        let summary = assign_points_for_update::<Single>(
            &data,
            &norms,
            &mut assignments,
            1,
            1,
            &[0.0],
            &[0.0],
            block,
        );
        let pool = reseed_pool(&summary.candidates, 20);
        assert_eq!(pool[..8], by_distance[..8]);
    }
}

#[test]
fn batch_size_leaves_the_reseeds() {
    let data: Vec<f32> = (0..20).map(|i| ((i * 7) % 20) as f32).collect();
    let norms = compute_norms::<Single>(&data, 20, 1);
    for block in [1, 3, 9, 20, 64] {
        let mut centroids = vec![0.0, 1000.0, 2000.0];
        let mut assignments = vec![0; 20];
        let mut rng = StdRng::seed_from_u64(6);
        run_lloyd_iterations::<Single>(
            &mut centroids,
            1,
            3,
            1,
            &data,
            &norms,
            &mut assignments,
            &mut rng,
            false,
            block,
        );
        assert_eq!(assignments, vec![0; 20]);
        assert_eq!(centroids, vec![190.0 * (1.0f32 / 20.0), 19.0, 18.0]);
        assert_eq!(rng, StdRng::seed_from_u64(6));
    }
}

#[test]
fn longer_slices_are_cut() {
    let data = [1.0, 9.0, 2.0, 12.0, 777.0];
    let norms = [1.0, 81.0, 4.0, 144.0, 0.0, 5.0];
    let columns = [0.0, 10.0, -3.0];
    let centroid_norms = [0.0, 100.0, 9.0, 9.0];
    let chunk =
        compute_chunk_assignments::<Single>(0, &data, &norms, 4, 2, 1, &columns, &centroid_norms);
    assert_eq!(chunk.assignments, vec![0, 1, 0, 1]);
    assert_eq!(chunk.sums, vec![3.0, 21.0]);
    let only =
        compute_chunk_assignments_only::<Single>(&data, &norms, 4, 2, 1, &columns, &centroid_norms);
    assert_eq!(only, vec![0, 1, 0, 1]);
    let full = assign_full_dataset::<Single>(
        &data,
        &norms[..4],
        2,
        1,
        &columns,
        &centroid_norms,
        3,
    );
    assert_eq!(full, vec![0, 1, 0, 1]);
    let mut assignments = vec![9; 5];
    let summary = assign_points_for_update::<Single>(
        &data,
        &norms[..4],
        &mut assignments,
        2,
        1,
        &columns,
        &centroid_norms,
        3,
    );
    assert_eq!(assignments, vec![0, 1, 0, 1, 9]);
    assert_eq!(summary.counts, vec![2, 2]);
    assert_eq!(summary.sums, vec![3.0, 21.0]);
}

#[test]
fn empty_batch_needs_no_cluster() {
    let chunk = compute_chunk_assignments::<Single>(3, &[], &[], 0, 0, 2, &[], &[]);
    assert_eq!(chunk.start, 3);
    assert!(chunk.assignments.is_empty() && chunk.counts.is_empty() && chunk.sums.is_empty());
    let mut assignments = vec![4];
    let summary =
        assign_points_for_update::<Single>(&[], &[], &mut assignments, 0, 2, &[], &[], 8);
    assert_eq!(assignments, vec![4]);
    assert!(summary.counts.is_empty() && summary.candidates.is_empty());
}

#[test]
fn checked_run_tells_why_not() {
    let data = simple_dataset();
    let config = KMeansConfig::default();
    let why = |data: &[Vec<f32>], k: usize, config: &KMeansConfig| {
        let found = find_obstacle(data, k, config);
        match run_kmeans_checked::<Single>(data, k, config) {
            Ok(_) => assert_eq!(found, None),
            Err(error) => assert_eq!(found, Some(error)),
        }
        found
    };
    assert_eq!(why(&data, 2, &config), None);
    assert_eq!(why(&[], 2, &config), Some(KMeansError::Input(InputError::EmptyData)));
    assert_eq!(why(&data, 0, &config), Some(KMeansError::Input(InputError::ZeroClusters)));
    assert_eq!(why(&data, 33, &config), Some(KMeansError::Input(InputError::TooManyClusters)));
    assert_eq!(
        why(&[vec![1.0], vec![1.0, 2.0]], 1, &config),
        Some(KMeansError::Input(InputError::MixedDimensions))
    );
    assert_eq!(why(&[vec![], vec![]], 1, &config), Some(KMeansError::Limits));
    let mut changed = config.clone();
    changed.niter = 0;
    assert_eq!(why(&data, 2, &changed), Some(KMeansError::Input(InputError::ZeroIterations)));
    let mut changed = config.clone();
    changed.nredo = 0;
    assert_eq!(why(&data, 2, &changed), Some(KMeansError::Limits));
    let mut changed = config.clone();
    changed.decode_block_size = 0;
    assert_eq!(why(&data, 2, &changed), Some(KMeansError::Limits));
    let report = run_kmeans_checked::<Single>(&data, 2, &config).unwrap();
    let result = run_kmeans_with_config::<Single>(&data, 2, config);
    assert_eq!(report.result.centroids, result.centroids);
    assert_eq!(report.result.assignments, result.assignments);
}

#[test]
fn restarts_can_be_run_one_by_one() {
    let data: Vec<Vec<f32>> =
        (0..60).map(|i| vec![((i * 37) % 101) as f32, ((i * 53) % 89) as f32]).collect();
    let mut config = KMeansConfig::default();
    config.niter = 2;
    config.nredo = 4;
    config.max_points_per_centroid = 5;
    let report = run_kmeans_reported::<Single>(&data, 4, &config);
    let training = prepare_training(&data, 4, &config);
    assert_eq!(training.rows, 60);
    assert_eq!(training.sample_rows, 20);
    assert_eq!(training.sample.len(), 40);
    let mut kept = first_restart::<Single>(&training, &config);
    assert_eq!(kept.restarts.len(), 1);
    for count in 2..5 {
        next_restart::<Single>(&training, &config, &mut kept);
        assert_eq!(kept.restarts.len(), count);
    }
    for (a, b) in kept.restarts.iter().zip(&report.restarts) {
        assert_eq!(a.objective, b.objective);
        assert_eq!(a.new_best, b.new_best);
    }
    assert_eq!(kept.best.centroids, report.result.centroids);
    assert_eq!(kept.best.assignments, report.result.assignments);
}

#[test]
fn single_run_is_configured_by_a_draw() {
    let mut rng = StdRng::seed_from_u64(12);
    let mut same = StdRng::seed_from_u64(12);
    let config = draw_config(7, &mut rng);
    assert_eq!(config.seed, same.next_u64());
    assert_eq!(rng, same);
    assert_eq!(config.niter, 7);
    assert_eq!(config.nredo, 1);
    assert!(!config.spherical);
    assert_eq!(config.max_points_per_centroid, 256);
    assert_eq!(config.decode_block_size, 32768);
}

fn cost(data: &[f32], centroids: &[f32]) -> f32 {
    data.iter()
        .map(|x| centroids.iter().map(|c| (x - c) * (x - c)).fold(f32::INFINITY, f32::min))
        .sum()
}

#[test]
fn steps_never_worsen_the_cost() {
    let data = [0.0, 4.0, 8.0, 12.0];
    let norms = compute_norms::<Single>(&data, 4, 1);
    let after = |start: &[f32], steps: usize| {
        let mut centroids = start.to_vec();
        let mut rng = StdRng::seed_from_u64(0);
        run_lloyd_iterations::<Single>(
            &mut centroids,
            steps,
            2,
            1,
            &data,
            &norms,
            &mut vec![0; 4],
            &mut rng,
            false,
            3,
        );
        cost(&data, &centroids)
    };
    let costs: Vec<f32> = (0..4).map(|steps| after(&[0.0, 4.0], steps)).collect();
    assert_eq!(costs, vec![80.0, 32.0, 16.0, 16.0]);
    // The second cluster is empty, and reseeded with the farthest point.
    assert_eq!(after(&[0.0, 100.0], 0), 224.0);
    assert_eq!(after(&[0.0, 100.0], 1), 44.0);
}

#[test]
fn assigned_clusters_are_at_the_least_distance() {
    let data = scattered();
    let norms = compute_norms::<Single>(&data, 40, 2);
    let centroids: Vec<f32> = data[..10].to_vec();
    let mut columns = Vec::new();
    let mut centroid_norms = Vec::new();
    rebuild_centroid_views::<Single>(&centroids, 5, 2, &mut columns, &mut centroid_norms);
    assert_eq!(centroid_norms, compute_norms::<Single>(&centroids, 5, 2));
    let assigned =
        assign_full_dataset::<Single>(&data, &norms, 5, 2, &columns, &centroid_norms, 7);
    for (point, own) in data.chunks(2).zip(assigned) {
        let distances: Vec<f32> = centroids
            .chunks(2)
            .map(|c| (c[0] - point[0]) * (c[0] - point[0]) + (c[1] - point[1]) * (c[1] - point[1]))
            .collect();
        assert!(distances.iter().all(|distance| *distance >= distances[own]));
        assert!(distances[..own].iter().all(|distance| *distance > distances[own]));
    }
}
