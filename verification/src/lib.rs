//! K-means clustering with restarts, batched assignment and reseeding of empty
//! clusters.
//!
//! The library is generic over the [`Arithmetic`] it computes in. Its contracts say
//! which operations were applied to which operands and what was decided on their
//! outcomes; the random choices follow from a seeded generator.
pub mod arithmetic;
pub mod assignment;
pub mod batch;
pub mod batch_laws;
pub mod centroids;
pub mod choice_laws;
pub mod clustering;
pub mod descent;
pub mod determinism;
pub mod exact_laws;
pub mod laws;
pub mod layout;
pub mod layout_laws;
pub mod lloyd;
pub mod mean_laws;
pub mod nearest_laws;
pub mod operation_laws;
pub mod order_laws;
mod parallel;
pub mod random;
pub mod ranking;
pub mod reproducibility;
pub mod reseed_laws;
pub mod restart_laws;
pub mod sampling;
pub mod scaling_laws;
pub mod stability;
pub mod step_laws;
pub mod sweep;
pub mod training_laws;
pub mod update;

pub use arithmetic::Arithmetic;
pub use clustering::{
    check_limits, draw_config, find_obstacle, first_restart, next_restart, prepare_training,
    run_kmeans, run_kmeans_checked, run_kmeans_reported, run_kmeans_with_config, validate_inputs,
    InputError, KMeansConfig, KMeansError, KMeansReport, KMeansResult, Kept, Restart, Training,
    DEFAULT_DECODE_BLOCK_SIZE, DEFAULT_MAX_POINTS_PER_CENTROID,
};
