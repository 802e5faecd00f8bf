use kmeans::layout::{count_up, flatten_dataset, gather_rows, overwrite, split_rows};
use kmeans::ranking::{compare_candidates, insert_candidate};
use kmeans::sampling::{
    centroids_in_order, initialize_centroids_random, sample_in_order, select_training_indices,
};
use kmeans::update::{choose_replacements, reseed_pool};
use rand::rngs::StdRng;
use rand::{Rng, SeedableRng};
use std::cmp::Ordering;

#[test]
fn training_indices_are_sampled_and_sorted() {
    let mut rng = StdRng::seed_from_u64(0xDEADBEEF);
    let indices = select_training_indices(10_000, 8, 256, &mut rng);
    assert_eq!(indices.len(), 8 * 256);
    assert!(indices.windows(2).all(|w| w[0] < w[1]));
}

#[test]
fn training_indices_respect_max_points_per_centroid() {
    let mut rng = StdRng::seed_from_u64(0xDEADBEEF);

    // Custom sampling: 64 points per centroid
    let indices = select_training_indices(1_000_000, 4096, 64, &mut rng);
    assert_eq!(indices.len(), 4096 * 64);

    // Custom sampling: 128 points per centroid
    let indices = select_training_indices(1_000_000, 1024, 128, &mut rng);
    assert_eq!(indices.len(), 1024 * 128);

    // Default: 256 points per centroid
    let indices = select_training_indices(1_000_000, 512, 256, &mut rng);
    assert_eq!(indices.len(), 512 * 256);
}

#[test]
fn small_data_is_sampled_whole_without_a_draw() {
    let mut rng = StdRng::seed_from_u64(7);
    let untouched = StdRng::seed_from_u64(7);
    assert_eq!(select_training_indices(5, 2, 256, &mut rng), vec![0, 1, 2, 3, 4]);
    assert_eq!(rng, untouched);
}

#[test]
fn at_least_one_point_per_cluster_is_sampled() {
    let mut rng = StdRng::seed_from_u64(7);
    assert_eq!(select_training_indices(100, 4, 0, &mut rng).len(), 4);
    assert_eq!(select_training_indices(3, 5, 1, &mut rng), vec![0, 1, 2]);
}

#[test]
fn samples_depend_on_the_seed() {
    let mut first = StdRng::seed_from_u64(1);
    let mut again = StdRng::seed_from_u64(1);
    let mut other = StdRng::seed_from_u64(2);
    let a = select_training_indices(10_000, 4, 16, &mut first);
    assert_eq!(a, select_training_indices(10_000, 4, 16, &mut again));
    assert_ne!(a, select_training_indices(10_000, 4, 16, &mut other));
    assert_ne!(a, count_up(64));
    assert_eq!(first, again);
}

#[test]
fn sample_is_cut_and_sorted() {
    assert_eq!(sample_in_order(vec![4, 9, 1, 7], 3), vec![1, 4, 9]);
    assert_eq!(sample_in_order(vec![4, 9, 1], 8), vec![1, 4, 9]);
    assert_eq!(sample_in_order(vec![4, 9, 1], 0), Vec::<usize>::new());
}

#[test]
fn first_centroids_are_different_points() {
    let data: Vec<u32> = (0..200).collect();
    let mut rng = StdRng::seed_from_u64(3);
    let centroids = initialize_centroids_random(&data, 100, 2, 10, &mut rng);
    assert_eq!(centroids.len(), 20);
    let mut firsts: Vec<u32> = centroids.iter().step_by(2).copied().collect();
    assert!(centroids.chunks(2).all(|c| c[0] % 2 == 0 && c[1] == c[0] + 1));
    assert_ne!(firsts, (0..10).map(|i| 2 * i).collect::<Vec<u32>>());
    firsts.sort_unstable();
    firsts.dedup();
    assert_eq!(firsts.len(), 10);
}

#[test]
fn centroids_are_taken_in_order() {
    let data = [10, 11, 20, 21, 30, 31];
    assert_eq!(centroids_in_order(&data, vec![2, 0, 1], 2, 2), vec![30, 31, 10, 11]);
    assert_eq!(centroids_in_order(&data, vec![1], 2, 4), vec![20, 21]);
}

#[test]
fn rows_survive_the_layout() {
    let data = vec![vec![1, 2], vec![3, 4], vec![5, 6]];
    let flattened = flatten_dataset(&data, 6);
    assert_eq!(flattened, vec![1, 2, 3, 4, 5, 6]);
    assert_eq!(split_rows(&flattened, 3, 2), data);
    assert_eq!(gather_rows(&flattened, &[2, 0], 2), vec![5, 6, 1, 2]);
}

#[test]
fn whole_sample_gathers_the_data() {
    let flattened = vec![1, 2, 3, 4, 5, 6];
    let mut rng = StdRng::seed_from_u64(0);
    let indices = select_training_indices(3, 1, 4, &mut rng);
    assert_eq!(gather_rows(&flattened, &indices, 2), flattened);
}

#[test]
fn gathering_twice_is_gathering_once() {
    let data = vec![1, 2, 3, 4, 5, 6, 7, 8];
    let first = [3, 1, 0];
    let second = [2, 2, 0];
    let gathered = gather_rows(&gather_rows(&data, &first, 2), &second, 2);
    assert_eq!(gathered, vec![1, 2, 1, 2, 7, 8]);
    assert_eq!(gathered, gather_rows(&data, &[0, 0, 3], 2));
    assert_eq!(gather_rows(&data, &count_up(4), 2), data);
}

#[test]
fn overwriting_keeps_the_rest() {
    let mut list = vec![1, 2, 3, 4, 5];
    overwrite(&mut list, 1, &[8, 9]);
    assert_eq!(list, vec![1, 8, 9, 4, 5]);
}

#[test]
fn candidates_are_compared_by_distance_and_row() {
    assert_eq!(compare_candidates(&(5, 9), &(4, 1)), Ordering::Less);
    assert_eq!(compare_candidates(&(4, 1), &(5, 9)), Ordering::Greater);
    assert_eq!(compare_candidates(&(4, 1), &(4, 2)), Ordering::Less);
    assert_eq!(compare_candidates(&(4, 2), &(4, 2)), Ordering::Equal);
}

#[test]
fn short_list_keeps_the_farthest() {
    let mut list = Vec::new();
    for (row, key) in [3, 1, 4, 1, 5, 9, 2, 6, 5, 3, 5].iter().enumerate() {
        insert_candidate(&mut list, (*key, row));
    }
    assert_eq!(
        list,
        vec![(9, 5), (6, 7), (5, 4), (5, 8), (5, 10), (4, 2), (3, 0), (3, 9)]
    );
    insert_candidate(&mut list, (3, 11));
    assert_eq!(list.last(), Some(&(3, 9)));
    insert_candidate(&mut list, (100, 12));
    assert_eq!(list.first(), Some(&(100, 12)));
    assert_eq!(list.len(), 8);
    assert_eq!(list.last(), Some(&(3, 0)));
}

#[test]
fn pool_names_each_row_once() {
    let pool = reseed_pool(&vec![(1, 4), (7, 2), (7, 0), (3, 2), (9, 4)], 5);
    assert_eq!(pool, vec![4, 0, 2]);
}

#[test]
fn empty_clusters_take_the_pool_first() {
    let mut rng = StdRng::seed_from_u64(11);
    let untouched = StdRng::seed_from_u64(11);
    let chosen = choose_replacements(&vec![0, 3, 0, 1], 4, &vec![6, 2, 5], 10, &mut rng);
    assert_eq!(chosen, vec![6, 2]);
    assert_eq!(rng, untouched);
}

#[test]
fn replacements_are_drawn_when_the_pool_is_used_up() {
    let mut rng = StdRng::seed_from_u64(11);
    let mut same = StdRng::seed_from_u64(11);
    let chosen = choose_replacements(&vec![0, 0, 2, 0], 4, &vec![6], 1000, &mut rng);
    let expected: Vec<usize> = vec![6, same.gen_range(0..1000usize), same.gen_range(0..1000usize)];
    assert_eq!(chosen, expected);
    assert_eq!(rng, same);
}
