# ihara_zeta

The combinatorial side of the Ihara zeta function of a finite graph, with
machine-checked contracts and proofs.

- `src/graph.rs` — the `Graph` type (vertices `0..n`, an edge list without
  loops), degrees, regularity, cycle rank; the handshake lemma and the edge
  count of regular graphs.
- `src/bipartite.rs` — two-colourability by breadth-first search, proved
  equal to the existence of a proper two-colouring.
- `src/matrices.rs` — the adjacency matrix, the directed arcs and the
  Hashimoto (non-backtracking) matrix; symmetry of the adjacency matrix, no
  arc following itself or its reverse, and, for edge lists without repeated
  edges, adjacency rows summing to degrees and rows of the Hashimoto matrix
  holding `deg(y) - 1` ones (with a repeated edge, as in the two-vertex
  cycle, both fail).
- `src/families.rs` — cycles, complete graphs, the Petersen graph,
  hypercubes and a small irregular graph, every edge `(u, v)` with `u < v`,
  with their regularity and bipartiteness.
- `app/main.rs` — the floating-point part: complex arithmetic, determinants,
  Bass's vertex form against the Hashimoto edge form, Jacobi eigenvalues and
  the Ramanujan-bound check.
