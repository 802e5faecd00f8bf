//! What holds of the steps of a training.
use crate::arithmetic::Arithmetic;
use crate::determinism::is_deterministic;
use crate::layout::row;
use crate::lloyd::{is_finished, is_lloyd_run, is_lloyd_step, is_viewed, Progress};
use crate::reproducibility::{
    law_runs_are_reproducible, lemma_same_assigned, lemma_same_pools, lemma_same_update,
    lemma_same_views,
};
use crate::sweep::{
    is_assigned, is_summarized, lemma_summarized, lemma_summarized_is_assigned, AssignmentSummary,
};
use crate::update::is_updated;
use vstd::prelude::*;

verus! {

/// A run of some steps followed by a run of some more is a run of all of them.
pub proof fn law_runs_add_up<A: Arithmetic>(
    data: Seq<A::Value>,
    norms: Seq<A::Value>,
    k: int,
    dim: usize,
    spherical: bool,
    block: usize,
    first: nat,
    second: nat,
    before: Progress<A::Value>,
    between: Progress<A::Value>,
    after: Progress<A::Value>,
)
    requires
        is_lloyd_run::<A>(data, norms, k, dim, spherical, block, first, before, between),
        is_lloyd_run::<A>(data, norms, k, dim, spherical, block, second, between, after),
    ensures
        is_lloyd_run::<A>(data, norms, k, dim, spherical, block, first + second, before, after),
    decreases second,
{
    if second > 0 {
        let fewer = (second - 1) as nat;
        let last = choose|last: Progress<A::Value>|
            is_lloyd_run::<A>(data, norms, k, dim, spherical, block, fewer, between, last)
                && #[trigger] is_lloyd_step::<A>(
                data,
                norms,
                k,
                dim,
                spherical,
                block,
                last,
                after,
            );
        law_runs_add_up::<A>(
            data,
            norms,
            k,
            dim,
            spherical,
            block,
            first,
            fewer,
            before,
            between,
            last,
        );
        assert((first + second - 1) as nat == first + fewer);
    }
}

/// A run of several steps can be parted after any of them.
pub proof fn law_runs_can_be_parted<A: Arithmetic>(
    data: Seq<A::Value>,
    norms: Seq<A::Value>,
    k: int,
    dim: usize,
    spherical: bool,
    block: usize,
    first: nat,
    second: nat,
    before: Progress<A::Value>,
    after: Progress<A::Value>,
)
    requires
        is_lloyd_run::<A>(data, norms, k, dim, spherical, block, first + second, before, after),
    ensures
        exists|between: Progress<A::Value>| #[trigger]
            is_lloyd_run::<A>(data, norms, k, dim, spherical, block, first, before, between)
                && is_lloyd_run::<A>(
                data,
                norms,
                k,
                dim,
                spherical,
                block,
                second,
                between,
                after,
            ),
    decreases second,
{
    if second == 0 {
        assert(is_lloyd_run::<A>(data, norms, k, dim, spherical, block, first, before, after));
    } else {
        let fewer = (second - 1) as nat;
        assert((first + second - 1) as nat == first + fewer);
        let last = choose|last: Progress<A::Value>|
            is_lloyd_run::<A>(data, norms, k, dim, spherical, block, first + fewer, before, last)
                && #[trigger] is_lloyd_step::<A>(
                data,
                norms,
                k,
                dim,
                spherical,
                block,
                last,
                after,
            );
        law_runs_can_be_parted::<A>(
            data,
            norms,
            k,
            dim,
            spherical,
            block,
            first,
            fewer,
            before,
            last,
        );
        let between = choose|between: Progress<A::Value>| #[trigger]
            is_lloyd_run::<A>(data, norms, k, dim, spherical, block, first, before, between)
                && is_lloyd_run::<A>(
                data,
                norms,
                k,
                dim,
                spherical,
                block,
                fewer,
                between,
                last,
            );
        assert(is_lloyd_run::<A>(data, norms, k, dim, spherical, block, second, between, after));
    }
}

/// `assigned` is the cluster of each point in a full pass by the given centroids.
pub open spec fn is_full_pass<A: Arithmetic>(
    data: Seq<A::Value>,
    norms: Seq<A::Value>,
    k: int,
    dim: usize,
    block: usize,
    centroids: Seq<A::Value>,
    assigned: Seq<usize>,
) -> bool {
    exists|columns: Seq<A::Value>, centroid_norms: Seq<A::Value>| #[trigger]
        is_viewed::<A>(centroids, k, dim as int, columns, centroid_norms) && is_assigned::<A>(
            data,
            norms,
            dim,
            columns,
            centroid_norms,
            block,
            assigned,
        )
}

/// The assignments that a step leaves are those of a full pass by the centroids that
/// it began with.
pub proof fn law_step_assigns_by_the_centroids_before<A: Arithmetic>(
    data: Seq<A::Value>,
    norms: Seq<A::Value>,
    k: int,
    dim: usize,
    spherical: bool,
    block: usize,
    before: Progress<A::Value>,
    after: Progress<A::Value>,
)
    requires
        k > 0,
        block > 0,
        norms.len() <= usize::MAX,
        is_lloyd_step::<A>(data, norms, k, dim, spherical, block, before, after),
    ensures
        is_full_pass::<A>(
            data,
            norms,
            k,
            dim,
            block,
            before.centroids,
            after.assigned.take(norms.len() as int),
        ),
        forall|r: int| 0 <= r < norms.len() ==> #[trigger] after.assigned.take(
            norms.len() as int,
        )[r] < k,
{
    let rows = norms.len() as int;
    let (columns, centroid_norms, summary, moved) = choose|
        columns: Seq<A::Value>,
        centroid_norms: Seq<A::Value>,
        summary: AssignmentSummary<A::Value>,
        moved: Seq<A::Value>,
    | #[trigger]
        is_viewed::<A>(before.centroids, k, dim as int, columns, centroid_norms)
            && #[trigger] is_summarized::<A>(
            data,
            norms,
            dim,
            columns,
            centroid_norms,
            block,
            after.assigned.take(rows),
            summary,
        ) && #[trigger] is_updated::<A>(
            data,
            dim as int,
            summary,
            k,
            before.centroids,
            before.generator,
            moved,
            after.generator,
        ) && is_finished::<A>(moved, k, dim as int, spherical, after.centroids);
    lemma_summarized::<A>(
        data,
        norms,
        dim,
        columns,
        centroid_norms,
        block,
        after.assigned.take(rows),
        summary,
    );
    lemma_summarized_is_assigned::<A>(
        data,
        norms,
        dim,
        columns,
        centroid_norms,
        block,
        after.assigned.take(rows),
        summary,
    );
}

/// The assignments that a run leaves are those of a full pass by the centroids before
/// its last step.
pub proof fn law_run_assigns_by_the_centroids_before<A: Arithmetic>(
    data: Seq<A::Value>,
    norms: Seq<A::Value>,
    k: int,
    dim: usize,
    spherical: bool,
    block: usize,
    steps: nat,
    before: Progress<A::Value>,
    after: Progress<A::Value>,
)
    requires
        k > 0,
        block > 0,
        steps > 0,
        norms.len() <= usize::MAX,
        is_lloyd_run::<A>(data, norms, k, dim, spherical, block, steps, before, after),
    ensures
        exists|last: Progress<A::Value>|
            is_lloyd_run::<A>(
                data,
                norms,
                k,
                dim,
                spherical,
                block,
                (steps - 1) as nat,
                before,
                last,
            ) && #[trigger] is_full_pass::<A>(
                data,
                norms,
                k,
                dim,
                block,
                last.centroids,
                after.assigned.take(norms.len() as int),
            ),
        forall|r: int| 0 <= r < norms.len() ==> #[trigger] after.assigned.take(
            norms.len() as int,
        )[r] < k,
{
    let last = choose|last: Progress<A::Value>|
        is_lloyd_run::<A>(
            data,
            norms,
            k,
            dim,
            spherical,
            block,
            (steps - 1) as nat,
            before,
            last,
        ) && #[trigger] is_lloyd_step::<A>(data, norms, k, dim, spherical, block, last, after);
    law_step_assigns_by_the_centroids_before::<A>(
        data,
        norms,
        k,
        dim,
        spherical,
        block,
        last,
        after,
    );
}

/// A run and one step more from the same state leaves the assignments that a full pass
/// gives by the centroids of the first.
pub proof fn law_next_step_assigns_as_a_full_pass_does<A: Arithmetic>(
    data: Seq<A::Value>,
    norms: Seq<A::Value>,
    k: int,
    dim: usize,
    spherical: bool,
    block: usize,
    steps: nat,
    before: Progress<A::Value>,
    between: Progress<A::Value>,
    after: Progress<A::Value>,
    columns: Seq<A::Value>,
    centroid_norms: Seq<A::Value>,
    assigned: Seq<usize>,
)
    requires
        is_deterministic::<A>(),
        k > 0,
        dim > 0,
        block > 0,
        norms.len() <= usize::MAX,
        k * dim <= before.centroids.len(),
        norms.len() <= before.assigned.len(),
        is_lloyd_run::<A>(data, norms, k, dim, spherical, block, steps, before, between),
        is_lloyd_run::<A>(data, norms, k, dim, spherical, block, steps + 1, before, after),
        is_viewed::<A>(between.centroids, k, dim as int, columns, centroid_norms),
        is_assigned::<A>(data, norms, dim, columns, centroid_norms, block, assigned),
    ensures
        after.assigned.take(norms.len() as int) == assigned,
{
    law_run_assigns_by_the_centroids_before::<A>(
        data,
        norms,
        k,
        dim,
        spherical,
        block,
        steps + 1,
        before,
        after,
    );
    let last_assigned = after.assigned.take(norms.len() as int);
    let last = choose|last: Progress<A::Value>|
        is_lloyd_run::<A>(data, norms, k, dim, spherical, block, steps, before, last)
            && #[trigger] is_full_pass::<A>(
            data,
            norms,
            k,
            dim,
            block,
            last.centroids,
            last_assigned,
        );
    law_runs_are_reproducible::<A>(
        data,
        norms,
        k,
        dim,
        spherical,
        block,
        steps,
        before,
        last,
        between,
    );
    let (x, x_norms) = choose|x: Seq<A::Value>, x_norms: Seq<A::Value>| #[trigger]
        is_viewed::<A>(last.centroids, k, dim as int, x, x_norms) && is_assigned::<A>(
            data,
            norms,
            dim,
            x,
            x_norms,
            block,
            last_assigned,
        );
    lemma_same_views::<A>(last.centroids, k, dim as int, x, x_norms, columns, centroid_norms);
    lemma_same_assigned::<A>(
        data,
        norms,
        dim,
        columns,
        centroid_norms,
        block,
        last_assigned,
        assigned,
    );
}

/// Some steps and then some more leave the centroids, the assignments and the generator
/// as all of the steps at once do.
pub proof fn law_parted_run_is_the_whole_run<A: Arithmetic>(
    data: Seq<A::Value>,
    norms: Seq<A::Value>,
    k: int,
    dim: usize,
    spherical: bool,
    block: usize,
    first: nat,
    second: nat,
    before: Progress<A::Value>,
    between: Progress<A::Value>,
    after: Progress<A::Value>,
    whole: Progress<A::Value>,
)
    requires
        is_deterministic::<A>(),
        k > 0,
        dim > 0,
        k * dim <= before.centroids.len(),
        norms.len() <= before.assigned.len(),
        is_lloyd_run::<A>(data, norms, k, dim, spherical, block, first, before, between),
        is_lloyd_run::<A>(data, norms, k, dim, spherical, block, second, between, after),
        is_lloyd_run::<A>(data, norms, k, dim, spherical, block, first + second, before, whole),
    ensures
        after == whole,
        first == 0 ==> between == before,
{
    law_runs_add_up::<A>(
        data,
        norms,
        k,
        dim,
        spherical,
        block,
        first,
        second,
        before,
        between,
        after,
    );
    law_runs_are_reproducible::<A>(
        data,
        norms,
        k,
        dim,
        spherical,
        block,
        first + second,
        before,
        after,
        whole,
    );
}

/// An update does not read the centroids that it moves: what it makes of the first
/// `k` of them, and what it leaves in the generator, is the same whatever they were.
pub proof fn law_update_ignores_the_centroids_before<A: Arithmetic>(
    data: Seq<A::Value>,
    dim: int,
    summary: AssignmentSummary<A::Value>,
    k: int,
    a_before: Seq<A::Value>,
    b_before: Seq<A::Value>,
    state: Seq<u64>,
    a: Seq<A::Value>,
    a_left: Seq<u64>,
    b: Seq<A::Value>,
    b_left: Seq<u64>,
)
    requires
        is_deterministic::<A>(),
        is_updated::<A>(data, dim, summary, k, a_before, state, a, a_left),
        is_updated::<A>(data, dim, summary, k, b_before, state, b, b_left),
    ensures
        forall|c: int| 0 <= c < k ==> #[trigger] row(a, c, dim) == row(b, c, dim),
        a_left == b_left,
{
    lemma_same_pools(summary.candidates@);
    lemma_same_update::<A>(
        data,
        dim,
        summary,
        summary,
        k,
        a_before,
        b_before,
        state,
        a,
        a_left,
        b,
        b_left,
    );
}

} // verus!
