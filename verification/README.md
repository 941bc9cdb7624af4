# kairos

The terrain logic of a voxel game, verified with Verus.

The game samples a noise density over an integer lattice, meshes it with dual
contouring, and streams the meshes in as square chunks around the player. This
crate holds the parts of that which are integer and boolean logic, with their
contracts and proofs:

- `grid`: lattice points, cells, and `SolidField`, the sign of the density at
  each point of a cube of lattice points.
- `cell`: the edges of one cell on which the sign changes, in the order in
  which a vertex is placed from them.
- `dual_contouring`: `DualContouring::generate`, which lists the cells that
  carry a vertex (in scan order) and emits the index buffer: one quad per
  sign-changing lattice edge, over the four cells around it.
- `mesh_properties`: proofs about that output: the vertex list is exactly the
  cells with a sign change, each cell's index leads back to it, the buffer is
  made of whole quads over existing, distinct vertices, and swapping solid and
  empty reverses every quad.
- `terrain`: which chunks are loaded and which ones a viewer still needs.
- `window`, `textures`: small per-frame decisions (cursor capture, texture
  readiness).

`app/` is the game itself (Bevy systems, noise sampling, vertex placement and
normals in floating point, physics); it calls the library for every decision
above.
