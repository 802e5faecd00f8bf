//! Clustering of a data set from configuration to result.
use crate::arithmetic::{are_norms, compute_norms, compute_objective, is_objective, Arithmetic};
use crate::centroids::rebuild_centroid_views;
use crate::layout::{
    contents, flatten_dataset, gather_rows, joined, lemma_joined_len, lemma_product_monotone,
    lemma_row_fits, numbers, repeated, rows_at, rows_of, split_rows,
};
use crate::lloyd::{is_lloyd_run, is_viewed, run_lloyd_iterations, Progress};
use crate::random::{
    generator_state, next_word, seed_generator, seeded_state, shuffle_outcome, word_outcome,
};
use crate::sampling::{
    initial_centroids, initialize_centroids_random, is_choice_of_rows, is_training_sample,
    select_training_indices, shuffled_rows,
};
use crate::sweep::{assign_full_dataset, is_assigned, largest_chunk};
use rand::rngs::StdRng;
use vstd::prelude::*;

verus! {

pub const DEFAULT_MAX_POINTS_PER_CENTROID: usize = 256;

pub const DEFAULT_DECODE_BLOCK_SIZE: usize = 32768;

/// The distance of the seeds of two restarts that follow each other.
pub const SEED_STRIDE: u64 = 0x9e3779b97f4a7c15;

/// How to cluster.
#[derive(Debug, Clone)]
pub struct KMeansConfig {
    /// Steps of each restart.
    pub niter: usize,
    /// Restarts, of which the best is kept.
    pub nredo: usize,
    /// What all random choices follow from.
    pub seed: u64,
    /// Whether centroids are scaled to unit length after each step.
    pub spherical: bool,
    /// Maximum points sampled per centroid during training.
    pub max_points_per_centroid: usize,
    /// Batch size for assignment computation. Larger means better throughput and
    /// higher memory.
    pub decode_block_size: usize,
}

impl Default for KMeansConfig {
    fn default() -> (config: Self)
        ensures
            config.niter == 25,
            config.nredo == 1,
            config.seed == 42,
            !config.spherical,
            config.max_points_per_centroid == DEFAULT_MAX_POINTS_PER_CENTROID,
            config.decode_block_size == DEFAULT_DECODE_BLOCK_SIZE,
            config.max_points_per_centroid == 256,
            config.decode_block_size == 32768,
    {
        KMeansConfig {
            niter: 25,
            nredo: 1,
            seed: 42,
            spherical: false,
            max_points_per_centroid: DEFAULT_MAX_POINTS_PER_CENTROID,
            decode_block_size: DEFAULT_DECODE_BLOCK_SIZE,
        }
    }
}

/// What clustering yields.
#[derive(Debug, Clone)]
pub struct KMeansResult<V, T> {
    pub centroids: Vec<Vec<V>>,
    /// The cluster of each point.
    pub assignments: Vec<usize>,
    /// The sum over all points of the squared distance to their centroids.
    pub objective: T,
}

/// What is worth telling of one restart.
#[derive(Debug)]
pub struct Restart<T> {
    pub objective: T,
    /// Whether the objective is below the best of all earlier restarts.
    pub new_best: bool,
}

/// The result of clustering and how it came about.
#[derive(Debug)]
pub struct KMeansReport<V, T> {
    pub result: KMeansResult<V, T>,
    /// The number of points trained on.
    pub training_rows: usize,
    pub restarts: Vec<Restart<T>>,
}

/// What the restarts work on.
#[derive(Debug)]
pub struct Training<V> {
    /// All points, row after row.
    pub points: Vec<V>,
    /// The number of points.
    pub rows: usize,
    /// The points to train on, row after row.
    pub sample: Vec<V>,
    /// The number of points to train on.
    pub sample_rows: usize,
    /// The number of clusters.
    pub k: usize,
    /// The number of coordinates of a point.
    pub dim: usize,
}

/// What has come of the restarts so far.
#[derive(Debug)]
pub struct Kept<V, T> {
    /// The result of the best of them.
    pub best: KMeansResult<V, T>,
    pub restarts: Vec<Restart<T>>,
}

/// Why a data set cannot be clustered.
#[derive(Debug, Clone, Copy, PartialEq, Eq, Structural)]
pub enum InputError {
    /// There are no points.
    EmptyData,
    /// No cluster is asked for.
    ZeroClusters,
    /// No step is asked for.
    ZeroIterations,
    /// There are fewer points than clusters.
    TooManyClusters,
    /// The points do not all have the same number of coordinates.
    MixedDimensions,
}

impl InputError {
    /// A sentence for the user.
    pub fn message(&self) -> (text: &'static str)
        ensures
            text@ == match *self {
                InputError::EmptyData => "k-means requires non-empty data"@,
                InputError::ZeroClusters => "k must be positive"@,
                InputError::ZeroIterations => "max_iter must be positive"@,
                InputError::TooManyClusters => "k cannot exceed number of samples"@,
                InputError::MixedDimensions => "all vectors must share the same dimension"@,
            },
    {
        match *self {
            InputError::EmptyData => "k-means requires non-empty data",
            InputError::ZeroClusters => "k must be positive",
            InputError::ZeroIterations => "max_iter must be positive",
            InputError::TooManyClusters => "k cannot exceed number of samples",
            InputError::MixedDimensions => "all vectors must share the same dimension",
        }
    }
}

/// All points have as many coordinates as the first.
pub open spec fn is_uniform<V>(data: Seq<Vec<V>>) -> bool {
    forall|i: int| 0 <= i < data.len() ==> (#[trigger] data[i])@.len() == data[0]@.len()
}

/// The outcome of looking over the inputs: the number of coordinates, or the first
/// reason why there can be no clustering.
pub open spec fn validation<V>(data: Seq<Vec<V>>, k: usize, max_iter: usize) -> Result<
    usize,
    InputError,
> {
    if data.len() == 0 {
        Err(InputError::EmptyData)
    } else if k == 0 {
        Err(InputError::ZeroClusters)
    } else if max_iter == 0 {
        Err(InputError::ZeroIterations)
    } else if k > data.len() {
        Err(InputError::TooManyClusters)
    } else if !is_uniform(data) {
        Err(InputError::MixedDimensions)
    } else {
        Ok(data[0]@.len() as usize)
    }
}

/// Why a data set cannot be clustered as it is configured.
#[derive(Debug, Clone, Copy, PartialEq, Eq, Structural)]
pub enum KMeansError {
    /// The points and the number of clusters do not fit together.
    Input(InputError),
    /// The points have no coordinates, there is no restart or no room in a batch, or a
    /// product of sizes leaves the range of the machine.
    Limits,
}

/// Looks over the inputs.
pub fn validate_inputs<V>(data: &[Vec<V>], k: usize, max_iter: usize) -> (dim: Result<
    usize,
    InputError,
>)
    ensures
        dim == validation(data@, k, max_iter),
        dim matches Ok(count) ==> count == data@[0]@.len(),
{
    if data.len() == 0 {
        return Err(InputError::EmptyData);
    }
    if k == 0 {
        return Err(InputError::ZeroClusters);
    }
    if max_iter == 0 {
        return Err(InputError::ZeroIterations);
    }
    if k > data.len() {
        return Err(InputError::TooManyClusters);
    }
    let dim: usize = data[0].len();
    let mut i: usize = 0;
    while i < data.len()
        invariant
            i <= data@.len(),
            data@.len() > 0,
            k > 0,
            max_iter > 0,
            k <= data@.len(),
            dim == data@[0]@.len(),
            forall|j: int| 0 <= j < i ==> (#[trigger] data@[j])@.len() == dim,
        decreases data@.len() - i,
    {
        if data[i].len() != dim {
            assert(data@[i as int]@.len() != data@[0]@.len());
            return Err(InputError::MixedDimensions);
        }
        i = i + 1;
    }
    Ok(dim)
}

/// The points have coordinates, batches and restarts are not empty, and no product
/// of sizes leaves the range of the machine.
pub open spec fn is_within_limits(
    rows: int,
    dim: int,
    k: int,
    nredo: int,
    max_points_per_centroid: int,
    block: int,
) -> bool {
    &&& dim > 0
    &&& nredo > 0
    &&& block > 0
    &&& rows * dim <= usize::MAX
    &&& k * max_points_per_centroid <= usize::MAX
    &&& rows + block <= usize::MAX
    &&& largest_chunk(rows, block) * k <= usize::MAX
}

/// Tells whether clustering stays within the limits of the machine.
pub fn check_limits(rows: usize, dim: usize, k: usize, config: &KMeansConfig) -> (fits: bool)
    ensures
        fits == is_within_limits(
            rows as int,
            dim as int,
            k as int,
            config.nredo as int,
            config.max_points_per_centroid as int,
            config.decode_block_size as int,
        ),
{
    let block: usize = config.decode_block_size;
    if dim == 0 || config.nredo == 0 || block == 0 {
        return false;
    }
    let batch: usize = if block < rows {
        block
    } else {
        rows
    };
    rows.checked_mul(dim).is_some() && k.checked_mul(config.max_points_per_centroid).is_some()
        && rows.checked_add(block).is_some() && batch.checked_mul(k).is_some()
}

/// A data set that can be clustered.
pub open spec fn can_cluster<V>(
    data: Seq<Vec<V>>,
    k: usize,
    niter: usize,
    nredo: usize,
    max_points_per_centroid: usize,
    block: usize,
) -> bool {
    &&& validation(data, k, niter) is Ok
    &&& is_within_limits(
        data.len() as int,
        data[0]@.len() as int,
        k as int,
        nredo as int,
        max_points_per_centroid as int,
        block as int,
    )
}

/// The seed of a restart.
pub open spec fn restart_seed(seed: u64, index: int) -> u64 {
    ((seed + index * SEED_STRIDE) % 0x1_0000_0000_0000_0000) as u64
}

/// `centroids` come of training on `rows` points with the given seed.
pub open spec fn is_trained<A: Arithmetic>(
    training: Seq<A::Value>,
    rows: usize,
    k: int,
    dim: usize,
    config: KMeansConfig,
    seed: u64,
    centroids: Seq<A::Value>,
) -> bool {
    let start = Progress {
        centroids: initial_centroids(training, rows, dim as int, k, seeded_state(seed)),
        assigned: Seq::new(rows as nat, |i: int| 0usize),
        generator: shuffle_outcome(seeded_state(seed), numbers(rows)).1,
    };
    &&& is_choice_of_rows(shuffled_rows(seeded_state(seed), rows, k), rows as int, k)
    &&& shuffle_outcome(seeded_state(seed), numbers(rows)).0.to_multiset()
        == numbers(rows).to_multiset()
    &&& start.centroids.len() == k * dim
    &&& exists|norms: Seq<A::Value>, end: Progress<A::Value>| #[trigger]
        are_norms::<A>(training, rows as int, dim as int, norms) && #[trigger] is_lloyd_run::<A>(
            training,
            norms,
            k,
            dim,
            config.spherical,
            config.decode_block_size,
            config.niter as nat,
            start,
            end,
        ) && centroids == end.centroids
}

/// `assigned` is the cluster of each of all points by the given centroids, and
/// `objective` the sum of their squared distances.
pub open spec fn is_evaluated<A: Arithmetic>(
    data: Seq<A::Value>,
    rows: int,
    k: int,
    dim: usize,
    block: usize,
    centroids: Seq<A::Value>,
    assigned: Seq<usize>,
    objective: A::Total,
) -> bool {
    &&& exists|norms: Seq<A::Value>, columns: Seq<A::Value>, centroid_norms: Seq<A::Value>|
        #[trigger]
        are_norms::<A>(data, rows, dim as int, norms) && #[trigger] is_viewed::<A>(
            centroids,
            k,
            dim as int,
            columns,
            centroid_norms,
        ) && is_assigned::<A>(data, norms, dim, columns, centroid_norms, block, assigned)
    &&& is_objective::<A>(data, centroids, assigned, rows, dim as int, objective)
}

/// `result` is the outcome of one restart.
pub open spec fn is_restart<A: Arithmetic>(
    data: Seq<A::Value>,
    rows: int,
    training: Seq<A::Value>,
    training_rows: usize,
    k: int,
    dim: usize,
    config: KMeansConfig,
    seed: u64,
    result: KMeansResult<A::Value, A::Total>,
) -> bool {
    exists|centroids: Seq<A::Value>| #[trigger]
        is_trained::<A>(training, training_rows, k, dim, config, seed, centroids)
            && is_evaluated::<A>(
            data,
            rows,
            k,
            dim,
            config.decode_block_size,
            centroids,
            result.assignments@,
            result.objective,
        ) && contents(result.centroids@) == rows_of(centroids, k, dim as int)
}

/// `below` tells whether `a` is less than `b`. A total that is not ordered is not
/// less than another, nor another than it.
pub open spec fn is_comparison<A: Arithmetic>(a: A::Total, b: A::Total, below: bool) -> bool {
    exists|a_key: Option<i64>, b_key: Option<i64>| #[trigger]
        call_ensures(A::total_key, (a,), a_key) && #[trigger] call_ensures(
            A::total_key,
            (b,),
            b_key,
        ) && below == (a_key is Some && b_key is Some && a_key.unwrap() < b_key.unwrap())
}

/// `chosen` is the restart that is kept: the first one, unless a later one is below
/// it, unless a yet later one is below that.
pub open spec fn is_selection<A: Arithmetic>(restarts: Seq<Restart<A::Total>>, chosen: int) -> bool
    decreases restarts.len(),
{
    if restarts.len() == 0 {
        false
    } else if restarts.len() == 1 {
        chosen == 0 && !restarts[0].new_best
    } else {
        let last = restarts.last();
        exists|earlier: int|
            0 <= earlier < restarts.len() - 1 && is_selection::<A>(restarts.drop_last(), earlier)
                && #[trigger] is_comparison::<A>(
                last.objective,
                restarts[earlier].objective,
                last.new_best,
            ) && chosen == if last.new_best {
                restarts.len() - 1
            } else {
                earlier
            }
    }
}

/// `results` are the outcomes of the restarts.
pub open spec fn are_restarts<A: Arithmetic>(
    data: Seq<A::Value>,
    rows: int,
    training: Seq<A::Value>,
    training_rows: usize,
    k: int,
    dim: usize,
    config: KMeansConfig,
    results: Seq<KMeansResult<A::Value, A::Total>>,
) -> bool {
    forall|i: int|
        0 <= i < results.len() ==> is_restart::<A>(
            data,
            rows,
            training,
            training_rows,
            k,
            dim,
            config,
            restart_seed(config.seed, i),
            #[trigger] results[i],
        )
}

/// `restarts` tells of the outcomes.
pub open spec fn are_told<V, T>(
    results: Seq<KMeansResult<V, T>>,
    restarts: Seq<Restart<T>>,
) -> bool {
    &&& restarts.len() == results.len()
    &&& forall|i: int|
        0 <= i < results.len() ==> (#[trigger] restarts[i]).objective == results[i].objective
}

/// `result` is what is kept of the restarts that `restarts` tells of.
pub open spec fn is_best_of<A: Arithmetic>(
    data: Seq<A::Value>,
    rows: int,
    training: Seq<A::Value>,
    training_rows: usize,
    k: int,
    dim: usize,
    config: KMeansConfig,
    restarts: Seq<Restart<A::Total>>,
    result: KMeansResult<A::Value, A::Total>,
) -> bool {
    exists|results: Seq<KMeansResult<A::Value, A::Total>>, chosen: int| #[trigger]
        are_restarts::<A>(data, rows, training, training_rows, k, dim, config, results)
            && are_told(results, restarts) && #[trigger] is_selection::<A>(restarts, chosen)
            && 0 <= chosen < results.len() && result == results[chosen]
}

/// `result` is what is kept of all restarts, and `restarts` tells of them.
pub open spec fn is_best_restart<A: Arithmetic>(
    data: Seq<A::Value>,
    rows: int,
    training: Seq<A::Value>,
    training_rows: usize,
    k: int,
    dim: usize,
    config: KMeansConfig,
    restarts: Seq<Restart<A::Total>>,
    result: KMeansResult<A::Value, A::Total>,
) -> bool {
    &&& restarts.len() == config.nredo
    &&& is_best_of::<A>(
        data,
        rows,
        training,
        training_rows,
        k,
        dim,
        config,
        restarts,
        result,
    )
}

/// `result` is the outcome of clustering `data` by training on that many of the
/// points, and `restarts` tells of the restarts.
pub open spec fn is_outcome<A: Arithmetic>(
    data: Seq<Vec<A::Value>>,
    k: usize,
    config: KMeansConfig,
    training_rows: usize,
    restarts: Seq<Restart<A::Total>>,
    result: KMeansResult<A::Value, A::Total>,
) -> bool {
    let flattened = joined(contents(data));
    let dim = data[0]@.len() as usize;
    exists|indices: Seq<usize>, left: Seq<u64>| #[trigger]
        is_training_sample(
            data.len() as usize,
            k as int,
            config.max_points_per_centroid as int,
            seeded_state(config.seed),
            indices,
            left,
        ) && training_rows == indices.len() && is_best_restart::<A>(
            flattened,
            data.len() as int,
            joined(rows_at(flattened, indices, dim as int)),
            training_rows,
            k as int,
            dim,
            config,
            restarts,
            result,
        )
}

/// `report` is the outcome of clustering `data`.
pub open spec fn is_report<A: Arithmetic>(
    data: Seq<Vec<A::Value>>,
    k: usize,
    config: KMeansConfig,
    report: KMeansReport<A::Value, A::Total>,
) -> bool {
    is_outcome::<A>(
        data,
        k,
        config,
        report.training_rows,
        report.restarts@,
        report.result,
    )
}

/// `result` is the outcome of clustering `data`.
pub open spec fn is_clustering<A: Arithmetic>(
    data: Seq<Vec<A::Value>>,
    k: usize,
    config: KMeansConfig,
    result: KMeansResult<A::Value, A::Total>,
) -> bool {
    exists|training_rows: usize, restarts: Seq<Restart<A::Total>>| #[trigger]
        is_outcome::<A>(data, k, config, training_rows, restarts, result)
}

/// There are `k` centroids of `dim` coordinates, and each of the points is assigned
/// to one of them.
pub open spec fn is_well_formed<V, T>(
    result: KMeansResult<V, T>,
    rows: int,
    k: int,
    dim: int,
) -> bool {
    &&& result.centroids@.len() == k
    &&& forall|c: int| 0 <= c < k ==> (#[trigger] result.centroids@[c])@.len() == dim
    &&& result.assignments@.len() == rows
    &&& forall|r: int| 0 <= r < rows ==> #[trigger] result.assignments@[r] < k
}

/// Computes the seed of a restart.
fn compute_restart_seed(seed: u64, index: usize) -> (redo_seed: u64)
    ensures
        redo_seed == restart_seed(seed, index as int),
{
    let offset: u64 = (index as u64).wrapping_mul(SEED_STRIDE);
    proof {
        let modulus: int = 0x1_0000_0000_0000_0000;
        vstd::arithmetic::div_mod::lemma_mod_bound(index * SEED_STRIDE, modulus);
        vstd::arithmetic::div_mod::lemma_mod_bound(seed + index * SEED_STRIDE, modulus);
        vstd::arithmetic::div_mod::lemma_add_mod_noop_right(
            seed as int,
            index * SEED_STRIDE,
            modulus,
        );
        assert(0 <= index * SEED_STRIDE) by (nonlinear_arith);
        assert(offset == (index * SEED_STRIDE) % modulus);
    }
    seed.wrapping_add(offset)
}

/// Tells whether the total `a` is less than `b`.
fn is_below<A: Arithmetic>(a: A::Total, b: A::Total) -> (below: bool)
    ensures
        is_comparison::<A>(a, b, below),
{
    let a_key = A::total_key(a);
    let b_key = A::total_key(b);
    match (a_key, b_key) {
        (Some(x), Some(y)) => x < y,
        _ => false,
    }
}

/// Trains on `training_data` with the given seed, assigns all points and adds up the
/// objective.
pub fn run_restart<A: Arithmetic>(
    data: &[A::Value],
    rows: usize,
    training_data: &[A::Value],
    training_rows: usize,
    k: usize,
    dim: usize,
    config: &KMeansConfig,
    seed: u64,
) -> (result: KMeansResult<A::Value, A::Total>)
    requires
        0 < k <= training_rows <= rows,
        data@.len() == rows * dim,
        training_data@.len() == training_rows * dim,
        is_within_limits(
            rows as int,
            dim as int,
            k as int,
            config.nredo as int,
            config.max_points_per_centroid as int,
            config.decode_block_size as int,
        ),
    ensures
        is_restart::<A>(
            data@,
            rows as int,
            training_data@,
            training_rows,
            k as int,
            dim,
            *config,
            seed,
            result,
        ),
        is_well_formed(result, rows as int, k as int, dim as int),
{
    let block: usize = config.decode_block_size;
    let mut rng: StdRng = seed_generator(seed);
    proof {
        lemma_product_monotone(k as int, training_rows as int, dim as int);
        lemma_product_monotone(
            largest_chunk(training_rows as int, block as int),
            largest_chunk(rows as int, block as int),
            k as int,
        );
        lemma_product_monotone(training_rows as int, rows as int, dim as int);
        lemma_product_monotone(1, training_rows as int, dim as int);
        assert(dim * k == k * dim) by (nonlinear_arith);
    }
    let mut centroids: Vec<A::Value> = initialize_centroids_random(
        training_data,
        training_rows,
        dim,
        k,
        &mut rng,
    );
    let mut training_assignments: Vec<usize> = repeated(0usize, training_rows);
    let norms: Vec<A::Value> = compute_norms::<A>(training_data, training_rows, dim);
    let ghost start = Progress {
        centroids: centroids@,
        assigned: training_assignments@,
        generator: generator_state(rng),
    };
    run_lloyd_iterations::<A>(
        &mut centroids,
        config.niter,
        k,
        dim,
        training_data,
        norms.as_slice(),
        &mut training_assignments,
        &mut rng,
        config.spherical,
        block,
    );
    proof {
        let end = Progress {
            centroids: centroids@,
            assigned: training_assignments@,
            generator: generator_state(rng),
        };
        assert(start.assigned =~= Seq::new(training_rows as nat, |i: int| 0usize));
        assert(is_lloyd_run::<A>(
            training_data@,
            norms@,
            k as int,
            dim,
            config.spherical,
            block,
            config.niter as nat,
            start,
            end,
        ));
        assert(end.centroids == centroids@);
        assert(is_trained::<A>(
            training_data@,
            training_rows,
            k as int,
            dim,
            *config,
            seed,
            centroids@,
        ));
    }
    let full_norms: Vec<A::Value> = compute_norms::<A>(data, rows, dim);
    let mut centroid_col: Vec<A::Value> = Vec::new();
    let mut centroid_norms: Vec<A::Value> = Vec::new();
    rebuild_centroid_views::<A>(
        centroids.as_slice(),
        k,
        dim,
        &mut centroid_col,
        &mut centroid_norms,
    );
    assert(is_viewed::<A>(centroids@, k as int, dim as int, centroid_col@, centroid_norms@));
    assert(centroid_col@.take(dim * k) =~= centroid_col@);
    assert(centroid_norms@.take(k as int) =~= centroid_norms@);
    let assignments: Vec<usize> = assign_full_dataset::<A>(
        data,
        full_norms.as_slice(),
        k,
        dim,
        centroid_col.as_slice(),
        centroid_norms.as_slice(),
        block,
    );
    assert forall|i: int| 0 <= i < rows implies (#[trigger] assignments@[i]) * dim + dim
        <= centroids@.len() by {
        lemma_row_fits(assignments@[i] as int, k as int, dim as int);
    }
    let objective = compute_objective::<A>(
        data,
        centroids.as_slice(),
        assignments.as_slice(),
        rows,
        dim,
    );
    let centroid_rows: Vec<Vec<A::Value>> = split_rows(centroids.as_slice(), k, dim);
    proof {
        assert(is_evaluated::<A>(
            data@,
            rows as int,
            k as int,
            dim,
            block,
            centroids@,
            assignments@,
            objective,
        ));
        assert(centroid_rows@.len() == contents(centroid_rows@).len());
        assert forall|c: int| 0 <= c < k implies (#[trigger] centroid_rows@[c])@.len() == dim by {
            lemma_row_fits(c, k as int, dim as int);
            assert(contents(centroid_rows@)[c] == rows_of(centroids@, k as int, dim as int)[c]);
        }
    }
    KMeansResult { centroids: centroid_rows, assignments, objective }
}

/// A data set laid out row after row has all its coordinates.
proof fn lemma_flattened_len<V>(data: Seq<Vec<V>>, dim: int)
    requires
        data.len() > 0,
        is_uniform(data),
        dim == data[0]@.len(),
    ensures
        joined(contents(data)).len() == data.len() * dim,
{
    let parts = contents(data);
    assert forall|i: int| 0 <= i < parts.len() implies (#[trigger] parts[i]).len() == dim by {
        assert(data[i]@.len() == data[0]@.len());
    }
    lemma_joined_len(parts, dim);
}

/// One more restart has been compared with the best of the earlier ones.
proof fn lemma_selection_grows<A: Arithmetic>(
    told: Seq<Restart<A::Total>>,
    chosen: int,
    next: Restart<A::Total>,
)
    requires
        0 <= chosen < told.len(),
        is_selection::<A>(told, chosen),
        is_comparison::<A>(next.objective, told[chosen].objective, next.new_best),
    ensures
        is_selection::<A>(
            told.push(next),
            if next.new_best {
                told.len() as int
            } else {
                chosen
            },
        ),
{
    let grown = told.push(next);
    assert(grown.drop_last() =~= told);
    assert(grown.last() == next);
    assert(grown[chosen] == told[chosen]);
    assert(is_selection::<A>(grown.drop_last(), chosen));
}

/// `training` is what the restarts work on to cluster `data`.
pub open spec fn is_prepared<V>(
    data: Seq<Vec<V>>,
    k: usize,
    config: KMeansConfig,
    training: Training<V>,
) -> bool {
    &&& training.points@ == joined(contents(data))
    &&& training.rows == data.len()
    &&& training.k == k
    &&& training.dim == data[0]@.len()
    &&& exists|indices: Seq<usize>, left: Seq<u64>| #[trigger]
        is_training_sample(
            data.len() as usize,
            k as int,
            config.max_points_per_centroid as int,
            seeded_state(config.seed),
            indices,
            left,
        ) && training.sample_rows == indices.len() && training.sample@ == joined(
            rows_at(training.points@, indices, training.dim as int),
        )
}

/// The sizes fit together, and no product of them leaves the range of the machine.
pub open spec fn can_restart<V>(training: Training<V>, config: KMeansConfig) -> bool {
    &&& 0 < training.k <= training.sample_rows <= training.rows
    &&& training.points@.len() == training.rows * training.dim
    &&& training.sample@.len() == training.sample_rows * training.dim
    &&& is_within_limits(
        training.rows as int,
        training.dim as int,
        training.k as int,
        config.nredo as int,
        config.max_points_per_centroid as int,
        config.decode_block_size as int,
    )
}

/// `kept` is what has come of one or more restarts.
pub open spec fn is_kept<A: Arithmetic>(
    training: Training<A::Value>,
    config: KMeansConfig,
    kept: Kept<A::Value, A::Total>,
) -> bool {
    &&& is_best_of::<A>(
        training.points@,
        training.rows as int,
        training.sample@,
        training.sample_rows,
        training.k as int,
        training.dim,
        config,
        kept.restarts@,
        kept.best,
    )
    &&& is_well_formed(
        kept.best,
        training.rows as int,
        training.k as int,
        training.dim as int,
    )
}

/// What is kept after the last restart is the outcome of clustering.
pub proof fn law_last_restart_completes<A: Arithmetic>(
    data: Seq<Vec<A::Value>>,
    k: usize,
    config: KMeansConfig,
    training: Training<A::Value>,
    kept: Kept<A::Value, A::Total>,
)
    requires
        is_prepared(data, k, config, training),
        is_kept::<A>(training, config, kept),
        kept.restarts@.len() == config.nredo,
    ensures
        is_outcome::<A>(
            data,
            k,
            config,
            training.sample_rows,
            kept.restarts@,
            kept.best,
        ),
{
}

/// Lays the points out and chooses those to train on.
pub fn prepare_training<V: Copy>(
    data: &[Vec<V>],
    k: usize,
    config: &KMeansConfig,
) -> (training: Training<V>)
    requires
        can_cluster(
            data@,
            k,
            config.niter,
            config.nredo,
            config.max_points_per_centroid,
            config.decode_block_size,
        ),
    ensures
        is_prepared(data@, k, *config, training),
        can_restart(training, *config),
{
    let dim: usize = data[0].len();
    let total_points: usize = data.len();
    let flattened: Vec<V> = flatten_dataset(data, total_points * dim);
    proof {
        lemma_flattened_len(data@, dim as int);
    }
    let mut sampling_rng: StdRng = seed_generator(config.seed);
    let training_indices: Vec<usize> = select_training_indices(
        total_points,
        k,
        config.max_points_per_centroid,
        &mut sampling_rng,
    );
    let ghost indices = training_indices@;
    proof {
        lemma_product_monotone(indices.len() as int, total_points as int, dim as int);
        assert forall|i: int| 0 <= i < indices.len() implies (#[trigger] indices[i]) * dim + dim
            <= flattened@.len() by {
            lemma_row_fits(indices[i] as int, total_points as int, dim as int);
        }
    }
    let training_data: Vec<V> = gather_rows(
        flattened.as_slice(),
        training_indices.as_slice(),
        dim,
    );
    let training_rows: usize = training_indices.len();
    let training = Training {
        points: flattened,
        rows: total_points,
        sample: training_data,
        sample_rows: training_rows,
        k,
        dim,
    };
    proof {
        assert(is_training_sample(
            data@.len() as usize,
            k as int,
            config.max_points_per_centroid as int,
            seeded_state(config.seed),
            indices,
            generator_state(sampling_rng),
        ));
        assert(training.sample_rows == indices.len());
    }
    training
}

/// Runs the first restart.
pub fn first_restart<A: Arithmetic>(
    training: &Training<A::Value>,
    config: &KMeansConfig,
) -> (kept: Kept<A::Value, A::Total>)
    requires
        can_restart(*training, *config),
    ensures
        is_kept::<A>(*training, *config, kept),
        kept.restarts@.len() == 1,
{
    let best: KMeansResult<A::Value, A::Total> = run_restart::<A>(
        training.points.as_slice(),
        training.rows,
        training.sample.as_slice(),
        training.sample_rows,
        training.k,
        training.dim,
        config,
        compute_restart_seed(config.seed, 0),
    );
    let mut restarts: Vec<Restart<A::Total>> = Vec::new();
    restarts.push(Restart { objective: best.objective, new_best: false });
    proof {
        let results = seq![best];
        assert(are_restarts::<A>(
            training.points@,
            training.rows as int,
            training.sample@,
            training.sample_rows,
            training.k as int,
            training.dim,
            *config,
            results,
        ));
        assert(is_selection::<A>(restarts@, 0));
        assert(best == results[0]);
    }
    Kept { best, restarts }
}

/// Runs the next restart, and keeps its result if it is better than all before.
pub fn next_restart<A: Arithmetic>(
    training: &Training<A::Value>,
    config: &KMeansConfig,
    kept: &mut Kept<A::Value, A::Total>,
)
    requires
        can_restart(*training, *config),
        is_kept::<A>(*training, *config, *old(kept)),
    ensures
        is_kept::<A>(*training, *config, *final(kept)),
        final(kept).restarts@.len() == old(kept).restarts@.len() + 1,
        final(kept).restarts@.drop_last() == old(kept).restarts@,
{
    let ghost told = kept.restarts@;
    let ghost (results, chosen) = choose|
        results: Seq<KMeansResult<A::Value, A::Total>>,
        chosen: int,
    | #[trigger]
        are_restarts::<A>(
            training.points@,
            training.rows as int,
            training.sample@,
            training.sample_rows,
            training.k as int,
            training.dim,
            *config,
            results,
        ) && are_told(results, told) && #[trigger] is_selection::<A>(told, chosen) && 0 <= chosen
            < results.len() && kept.best == results[chosen];
    let result: KMeansResult<A::Value, A::Total> = run_restart::<A>(
        training.points.as_slice(),
        training.rows,
        training.sample.as_slice(),
        training.sample_rows,
        training.k,
        training.dim,
        config,
        compute_restart_seed(config.seed, kept.restarts.len()),
    );
    let is_better: bool = is_below::<A>(result.objective, kept.best.objective);
    let next = Restart { objective: result.objective, new_best: is_better };
    proof {
        assert(told[chosen].objective == kept.best.objective);
        lemma_selection_grows::<A>(told, chosen, next);
        assert(told.push(next).drop_last() =~= told);
        let grown = results.push(result);
        assert(are_restarts::<A>(
            training.points@,
            training.rows as int,
            training.sample@,
            training.sample_rows,
            training.k as int,
            training.dim,
            *config,
            grown,
        ));
        assert(are_told(grown, told.push(next)));
        assert(grown[chosen] == results[chosen]);
        assert(grown[told.len() as int] == result);
    }
    kept.restarts.push(next);
    if is_better {
        kept.best = result;
    }
}

/// Clusters a data set and tells how it went.
pub fn run_kmeans_reported<A: Arithmetic>(
    data: &[Vec<A::Value>],
    k: usize,
    config: &KMeansConfig,
) -> (report: KMeansReport<A::Value, A::Total>)
    requires
        can_cluster(
            data@,
            k,
            config.niter,
            config.nredo,
            config.max_points_per_centroid,
            config.decode_block_size,
        ),
    ensures
        is_report::<A>(data@, k, *config, report),
        is_well_formed(
            report.result,
            data@.len() as int,
            k as int,
            data@[0]@.len() as int,
        ),
{
    let training: Training<A::Value> = prepare_training(data, k, config);
    let mut kept: Kept<A::Value, A::Total> = first_restart::<A>(&training, config);
    while kept.restarts.len() < config.nredo
        invariant
            can_restart(training, *config),
            is_kept::<A>(training, *config, kept),
            kept.restarts@.len() <= config.nredo,
        decreases config.nredo - kept.restarts@.len(),
    {
        next_restart::<A>(&training, config, &mut kept);
    }
    proof {
        law_last_restart_completes::<A>(data@, k, *config, training, kept);
    }
    KMeansReport {
        result: kept.best,
        training_rows: training.sample_rows,
        restarts: kept.restarts,
    }
}

/// What looking over the inputs and the sizes comes to.
pub open spec fn obstacle<V>(data: Seq<Vec<V>>, k: usize, config: KMeansConfig) -> Option<
    KMeansError,
> {
    match validation(data, k, config.niter) {
        Err(error) => Some(KMeansError::Input(error)),
        Ok(_) => if is_within_limits(
            data.len() as int,
            data[0]@.len() as int,
            k as int,
            config.nredo as int,
            config.max_points_per_centroid as int,
            config.decode_block_size as int,
        ) {
            None
        } else {
            Some(KMeansError::Limits)
        },
    }
}

/// Looks over the inputs and the sizes.
pub fn find_obstacle<V>(data: &[Vec<V>], k: usize, config: &KMeansConfig) -> (found: Option<
    KMeansError,
>)
    ensures
        found == obstacle(data@, k, *config),
        found is None <==> can_cluster(
            data@,
            k,
            config.niter,
            config.nredo,
            config.max_points_per_centroid,
            config.decode_block_size,
        ),
{
    match validate_inputs(data, k, config.niter) {
        Err(error) => Some(KMeansError::Input(error)),
        Ok(dim) => if check_limits(data.len(), dim, k, config) {
            None
        } else {
            Some(KMeansError::Limits)
        },
    }
}

/// Clusters a data set and tells how it went, or tells why it cannot be clustered.
pub fn run_kmeans_checked<A: Arithmetic>(
    data: &[Vec<A::Value>],
    k: usize,
    config: &KMeansConfig,
) -> (outcome: Result<KMeansReport<A::Value, A::Total>, KMeansError>)
    ensures
        outcome is Ok <==> can_cluster(
            data@,
            k,
            config.niter,
            config.nredo,
            config.max_points_per_centroid,
            config.decode_block_size,
        ),
        outcome matches Ok(report) ==> is_report::<A>(data@, k, *config, report)
            && is_well_formed(
            report.result,
            data@.len() as int,
            k as int,
            data@[0]@.len() as int,
        ),
        outcome matches Err(error) ==> obstacle(data@, k, *config) == Some(error),
{
    match find_obstacle(data, k, config) {
        Some(error) => Err(error),
        None => Ok(run_kmeans_reported::<A>(data, k, config)),
    }
}

/// Clusters a data set.
pub fn run_kmeans_with_config<A: Arithmetic>(
    data: &[Vec<A::Value>],
    k: usize,
    config: KMeansConfig,
) -> (result: KMeansResult<A::Value, A::Total>)
    requires
        can_cluster(
            data@,
            k,
            config.niter,
            config.nredo,
            config.max_points_per_centroid,
            config.decode_block_size,
        ),
    ensures
        is_clustering::<A>(data@, k, config, result),
        is_well_formed(result, data@.len() as int, k as int, data@[0]@.len() as int),
{
    let report = run_kmeans_reported::<A>(data, k, &config);
    report.result
}

/// The configuration of a single run of `max_iter` steps.
pub open spec fn single_run(max_iter: usize, seed: u64) -> KMeansConfig {
    KMeansConfig {
        niter: max_iter,
        nredo: 1,
        seed,
        spherical: false,
        max_points_per_centroid: DEFAULT_MAX_POINTS_PER_CENTROID,
        decode_block_size: DEFAULT_DECODE_BLOCK_SIZE,
    }
}

/// Configures a single run of `max_iter` steps, with a seed drawn from the given
/// generator.
pub fn draw_config(max_iter: usize, rng: &mut StdRng) -> (config: KMeansConfig)
    ensures
        config == single_run(max_iter, word_outcome(generator_state(*old(rng))).0),
        config.niter == max_iter,
        config.nredo == 1,
        config.seed == word_outcome(generator_state(*old(rng))).0,
        !config.spherical,
        config.max_points_per_centroid == 256,
        config.decode_block_size == 32768,
        generator_state(*final(rng)) == word_outcome(generator_state(*old(rng))).1,
{
    KMeansConfig {
        niter: max_iter,
        nredo: 1,
        seed: next_word(rng),
        spherical: false,
        max_points_per_centroid: DEFAULT_MAX_POINTS_PER_CENTROID,
        decode_block_size: DEFAULT_DECODE_BLOCK_SIZE,
    }
}

/// Clusters a data set in a single run of `max_iter` steps, with a seed drawn from
/// the given generator.
pub fn run_kmeans<A: Arithmetic>(
    data: &[Vec<A::Value>],
    k: usize,
    max_iter: usize,
    rng: &mut StdRng,
) -> (result: KMeansResult<A::Value, A::Total>)
    requires
        can_cluster(
            data@,
            k,
            max_iter,
            1,
            DEFAULT_MAX_POINTS_PER_CENTROID,
            DEFAULT_DECODE_BLOCK_SIZE,
        ),
    ensures
        is_clustering::<A>(
            data@,
            k,
            single_run(max_iter, word_outcome(generator_state(*old(rng))).0),
            result,
        ),
        generator_state(*final(rng)) == word_outcome(generator_state(*old(rng))).1,
        is_well_formed(result, data@.len() as int, k as int, data@[0]@.len() as int),
{
    let config = draw_config(max_iter, rng);
    run_kmeans_with_config::<A>(data, k, config)
}

} // verus!
