# kmeans

K-means clustering with restarts, batched assignment by matrix products, a capped
training sample and reseeding of empty clusters, verified with Verus.

The library in `src/` is generic over the arithmetic it computes in (the trait
`Arithmetic`). Its contracts say which operations were applied to which operands, in
which order, and what was decided on their outcomes: the training sample, the nearest
centroid of each point, the sums and counts of the clusters, the farthest points, the
move of the centroids, the steps, the restarts and the choice of the best of them.
What follows for clustering as a whole stands in `laws`, and by subject in
`batch_laws` (the size of the batches), `order_laws` (the least distance and the least
objective), `step_laws` (the steps of a training), `descent` (steps never worsen the cost),
`reseed_laws` (the points that empty clusters are reseeded with), `restart_laws` (the
restarts and the one that is kept), `stability` (as many clusters as
points) and `reproducibility` (the same points and seed give the same result).

Trusted are the seeded generator of `rand`, the thread pool of `rayon` and the sorts of
the standard library, each behind a small wrapper (`random`, `parallel`, `ranking`).

`app/` instantiates the library with single precision floating point, takes the matrix
product from `matrixmultiply`, and prints the progress from restart to restart.
