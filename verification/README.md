# sheaf_spectral

Spectral sheaf theory on graphs, in two layers.

`src/` is the verified library (Verus). It holds everything that is decided
over integers:

- `graph`: undirected graphs (adjacency sets + normalized edge list), complete,
  path and cycle graphs, connectivity by search, the oriented incidence matrix
  and the graph Laplacian L = B Bᵀ = D − A.
- `walk`: walks along an edge list and the connectivity relation they induce.
- `laplacian`: identities of the graph Laplacian (symmetry, zero row sums,
  trace = 2·edges, quadratic form = Σ over edges of squared differences).
- `sheaf`: stalk dimensions of a cellular sheaf, offsets of the vertex stalks
  and the block layout of the coboundary operator.
- `persistent`: persistent H⁰ over an edge filtration (union-find, with the
  number of surviving bars tied to the number of connected components) and the
  bar deaths induced by a sequence of kernel dimensions.
- `spectrum`: counting, first-index and splitting over a classified spectrum.
- `connection`: block layout of the connection Laplacian.
- `neural`: the xorshift generator used for weight initialization and the layer
  shapes of a multi-layer network.

`app/` is ordinary Rust on top of it: everything that is floating point
(restriction maps, Laplacian matrices and their eigen-decompositions via
nalgebra, Hodge projections, diffusion, neural layers, synchronization,
barcodes with real filtration values) and the serde derives.
