//! The alternation of assigning the points and moving the centroids.
use crate::arithmetic::{are_norms, Arithmetic};
use crate::centroids::{are_normalized, is_transposed, normalize_centroids, rebuild_centroid_views};
use crate::random::generator_state;
use crate::sweep::{
    assign_points_for_update, can_sweep, is_summarized, lemma_summarized, AssignmentSummary,
};
use crate::update::{is_updated, update_centroids};
use rand::rngs::StdRng;
use vstd::prelude::*;

verus! {

/// How far the training has come: the centroids, the cluster of each point, and what
/// the generator holds.
#[verifier::ext_equal]
pub struct Progress<V> {
    pub centroids: Seq<V>,
    pub assigned: Seq<usize>,
    pub generator: Seq<u64>,
}

/// The two forms in which an assignment reads the centroids.
pub open spec fn is_viewed<A: Arithmetic>(
    centroids: Seq<A::Value>,
    k: int,
    dim: int,
    columns: Seq<A::Value>,
    centroid_norms: Seq<A::Value>,
) -> bool {
    &&& is_transposed(centroids, k, dim, columns)
    &&& are_norms::<A>(centroids, k, dim, centroid_norms)
}

/// `finished` are the moved centroids, scaled to unit length where that is wanted.
pub open spec fn is_finished<A: Arithmetic>(
    moved: Seq<A::Value>,
    k: int,
    dim: int,
    spherical: bool,
    finished: Seq<A::Value>,
) -> bool {
    if spherical {
        are_normalized::<A>(moved, k, dim, finished)
    } else {
        finished == moved
    }
}

/// One step from `before` to `after`: every point goes to its nearest centroid, and
/// every centroid to the middle of its points.
pub open spec fn is_lloyd_step<A: Arithmetic>(
    data: Seq<A::Value>,
    norms: Seq<A::Value>,
    k: int,
    dim: usize,
    spherical: bool,
    block: usize,
    before: Progress<A::Value>,
    after: Progress<A::Value>,
) -> bool {
    let rows = norms.len() as int;
    &&& after.assigned.len() == before.assigned.len()
    &&& after.assigned.skip(rows) == before.assigned.skip(rows)
    &&& exists|
        columns: Seq<A::Value>,
        centroid_norms: Seq<A::Value>,
        summary: AssignmentSummary<A::Value>,
        moved: Seq<A::Value>,
    | #[trigger]
        is_viewed::<A>(before.centroids, k, dim as int, columns, centroid_norms)
            && #[trigger] is_summarized::<A>(
            data,
            norms,
            dim,
            columns,
            centroid_norms,
            block,
            after.assigned.take(rows),
            summary,
        ) && #[trigger] is_updated::<A>(
            data,
            dim as int,
            summary,
            k,
            before.centroids,
            before.generator,
            moved,
            after.generator,
        ) && is_finished::<A>(moved, k, dim as int, spherical, after.centroids)
}

/// `after` comes of `before` by that many steps.
pub open spec fn is_lloyd_run<A: Arithmetic>(
    data: Seq<A::Value>,
    norms: Seq<A::Value>,
    k: int,
    dim: usize,
    spherical: bool,
    block: usize,
    steps: nat,
    before: Progress<A::Value>,
    after: Progress<A::Value>,
) -> bool
    decreases steps,
{
    if steps == 0 {
        after == before
    } else {
        exists|between: Progress<A::Value>|
            is_lloyd_run::<A>(
                data,
                norms,
                k,
                dim,
                spherical,
                block,
                (steps - 1) as nat,
                before,
                between,
            ) && #[trigger] is_lloyd_step::<A>(
                data,
                norms,
                k,
                dim,
                spherical,
                block,
                between,
                after,
            )
    }
}

/// One more step after a run.
proof fn lemma_run_grows<A: Arithmetic>(
    data: Seq<A::Value>,
    norms: Seq<A::Value>,
    k: int,
    dim: usize,
    spherical: bool,
    block: usize,
    steps: nat,
    before: Progress<A::Value>,
    between: Progress<A::Value>,
    after: Progress<A::Value>,
)
    requires
        is_lloyd_run::<A>(data, norms, k, dim, spherical, block, steps, before, between),
        is_lloyd_step::<A>(data, norms, k, dim, spherical, block, between, after),
    ensures
        is_lloyd_run::<A>(data, norms, k, dim, spherical, block, steps + 1, before, after),
{
    assert((steps + 1 - 1) as nat == steps);
}

/// What the steps ask of their inputs.
pub open spec fn can_iterate(
    data_len: int,
    rows: int,
    k: int,
    dim: int,
    centroids_len: int,
    assignments_len: int,
    block: int,
) -> bool {
    &&& can_sweep(data_len, rows, k, dim, dim * k, k, block)
    &&& dim > 0
    &&& rows > 0 ==> k > 0
    &&& k > 0 ==> dim <= data_len
    &&& k * dim <= centroids_len
    &&& rows <= assignments_len
}

/// Takes one step.
fn run_lloyd_step<A: Arithmetic>(
    centroids: &mut Vec<A::Value>,
    k: usize,
    dim: usize,
    data: &[A::Value],
    norms: &[A::Value],
    assignments: &mut Vec<usize>,
    rng: &mut StdRng,
    spherical: bool,
    decode_block_size: usize,
    centroid_col: &mut Vec<A::Value>,
    centroid_norms: &mut Vec<A::Value>,
)
    requires
        can_iterate(
            data@.len() as int,
            norms@.len() as int,
            k as int,
            dim as int,
            old(centroids)@.len() as int,
            old(assignments)@.len() as int,
            decode_block_size as int,
        ),
    ensures
        is_lloyd_step::<A>(
            data@,
            norms@,
            k as int,
            dim,
            spherical,
            decode_block_size,
            (Progress {
                centroids: old(centroids)@,
                assigned: old(assignments)@,
                generator: generator_state(*old(rng)),
            }),
            (Progress {
                centroids: final(centroids)@,
                assigned: final(assignments)@,
                generator: generator_state(*final(rng)),
            }),
        ),
        final(centroids)@.len() == old(centroids)@.len(),
        final(assignments)@.len() == old(assignments)@.len(),
{
    let size: usize = data.len();
    let rows: usize = norms.len();
    let ghost before = centroids@;
    let ghost assigned_before = assignments@;
    let ghost state = generator_state(*rng);
    rebuild_centroid_views::<A>(centroids.as_slice(), k, dim, centroid_col, centroid_norms);
    assert(is_viewed::<A>(before, k as int, dim as int, centroid_col@, centroid_norms@));
    assert(centroid_col@.take(dim * k) =~= centroid_col@);
    assert(centroid_norms@.take(k as int) =~= centroid_norms@);
    let summary = assign_points_for_update::<A>(
        data,
        norms,
        assignments,
        k,
        dim,
        centroid_col.as_slice(),
        centroid_norms.as_slice(),
        decode_block_size,
    );
    proof {
        lemma_summarized::<A>(
            data@,
            norms@,
            dim,
            centroid_col@,
            centroid_norms@,
            decode_block_size,
            assignments@.take(rows as int),
            summary,
        );
        assert(rows <= size as int / dim as int) by {
            vstd::arithmetic::div_mod::lemma_div_multiples_vanish(rows as int, dim as int);
            vstd::arithmetic::div_mod::lemma_div_is_ordered(rows * dim, size as int, dim as int);
            assert(rows * dim == dim * rows) by (nonlinear_arith);
        }
    }
    update_centroids::<A>(centroids, k, dim, data, &summary, rng);
    let ghost moved = centroids@;
    if spherical {
        normalize_centroids::<A>(centroids, k, dim);
    }
    proof {
        let start = Progress {
            centroids: before,
            assigned: assigned_before,
            generator: state,
        };
        let end = Progress {
            centroids: centroids@,
            assigned: assignments@,
            generator: generator_state(*rng),
        };
        assert(is_viewed::<A>(
            start.centroids,
            k as int,
            dim as int,
            centroid_col@,
            centroid_norms@,
        ));
        assert(is_summarized::<A>(
            data@,
            norms@,
            dim,
            centroid_col@,
            centroid_norms@,
            decode_block_size,
            end.assigned.take(norms@.len() as int),
            summary,
        ));
        assert(is_updated::<A>(
            data@,
            dim as int,
            summary,
            k as int,
            start.centroids,
            start.generator,
            moved,
            end.generator,
        ));
        assert(is_finished::<A>(moved, k as int, dim as int, spherical, end.centroids));
        assert(is_lloyd_step::<A>(
            data@,
            norms@,
            k as int,
            dim,
            spherical,
            decode_block_size,
            start,
            end,
        ));
    }
}

/// Runs `iterations` steps.
pub fn run_lloyd_iterations<A: Arithmetic>(
    centroids: &mut Vec<A::Value>,
    iterations: usize,
    k: usize,
    dim: usize,
    data: &[A::Value],
    norms: &[A::Value],
    assignments: &mut Vec<usize>,
    rng: &mut StdRng,
    spherical: bool,
    decode_block_size: usize,
)
    requires
        iterations > 0 ==> can_iterate(
            data@.len() as int,
            norms@.len() as int,
            k as int,
            dim as int,
            old(centroids)@.len() as int,
            old(assignments)@.len() as int,
            decode_block_size as int,
        ),
    ensures
        is_lloyd_run::<A>(
            data@,
            norms@,
            k as int,
            dim,
            spherical,
            decode_block_size,
            iterations as nat,
            (Progress {
                centroids: old(centroids)@,
                assigned: old(assignments)@,
                generator: generator_state(*old(rng)),
            }),
            (Progress {
                centroids: final(centroids)@,
                assigned: final(assignments)@,
                generator: generator_state(*final(rng)),
            }),
        ),
        final(centroids)@.len() == old(centroids)@.len(),
        final(assignments)@.len() == old(assignments)@.len(),
{
    let mut centroid_col: Vec<A::Value> = Vec::new();
    let mut centroid_norms: Vec<A::Value> = Vec::new();
    let ghost centroids_len = centroids@.len();
    let ghost assignments_len = assignments@.len();
    let ghost first = Progress {
        centroids: centroids@,
        assigned: assignments@,
        generator: generator_state(*rng),
    };
    let mut step: usize = 0;
    while step < iterations
        invariant
            step <= iterations,
            centroids@.len() == centroids_len,
            assignments@.len() == assignments_len,
            iterations > 0 ==> can_iterate(
                data@.len() as int,
                norms@.len() as int,
                k as int,
                dim as int,
                centroids_len as int,
                assignments_len as int,
                decode_block_size as int,
            ),
            is_lloyd_run::<A>(
                data@,
                norms@,
                k as int,
                dim,
                spherical,
                decode_block_size,
                step as nat,
                first,
                (Progress {
                    centroids: centroids@,
                    assigned: assignments@,
                    generator: generator_state(*rng),
                }),
            ),
        decreases iterations - step,
    {
        let ghost between = Progress {
            centroids: centroids@,
            assigned: assignments@,
            generator: generator_state(*rng),
        };
        run_lloyd_step::<A>(
            centroids,
            k,
            dim,
            data,
            norms,
            assignments,
            rng,
            spherical,
            decode_block_size,
            &mut centroid_col,
            &mut centroid_norms,
        );
        proof {
            let after = Progress {
                centroids: centroids@,
                assigned: assignments@,
                generator: generator_state(*rng),
            };
            lemma_run_grows::<A>(
                data@,
                norms@,
                k as int,
                dim,
                spherical,
                decode_block_size,
                step as nat,
                first,
                between,
                after,
            );
        }
        step = step + 1;
    }
}

} // verus!
