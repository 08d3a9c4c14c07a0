# spline_spectral

Verified integer core of a spline / spectral-graph smoothing toolkit.

`src/` (Verus) holds the parts of the toolkit that work on exact values:

- `fibonacci` — the Cox-de Boor evaluation count (and its Fibonacci closed form),
  basis-function counts, and the Fibonacci-spaced clamped knot vector.
- `path_graph` — adjacency and Laplacian of the path graph, with L = D - A and
  f^T L f = sum of squared differences along the edges.
- `graph_nodes` — the split of a graph's nodes into free and constrained ones,
  and which constraint fixes each constrained node.
- `smoothing` — the uniform clamped cubic knot layout, the denoising knot count,
  the observed-node list for filling missing values, and the stable top-k
  curvature selection used for adaptive knot placement.

`app/` is the floating-point layer (B-spline evaluation, linear solves, Jacobi
eigenvalues, power iteration, correlations) that calls into the verified core.
