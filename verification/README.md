# voxel_raymarcher

A voxel world rendered by ray marching through a sparse octree. The octree
is a flat array of leaves, each holding a voxel and the indices of its eight
children, so that a compute shader can walk it.

`src/` is the verified library:

- `octree` — the leaf-array octree: construction, insertion at a level of
  detail, lookup, the octant geometry, and the laws that tie insertion to
  lookup.
- `world` — stored voxels, chunks, the world of chunks, the material table,
  the window of chunks around the camera and the insertion of a chunk into
  an octree.
- `scene` — flattening a MagicaVoxel scene graph into placed shapes.
- `vox` — reading the bytes of a MagicaVoxel `.vox` file into its scene
  graph, models and palette.
- `light` — the lattice points a light reaches.
- `controls` — cursor grabbing and movement keys.
- `render` — the decisions of the ray-tracing render node.

Inside a descent the octree holds centres and widths in sub-voxel units
(`SUB` per voxel), so the quarter-width steps are exact for every width.

`app/` is the bevy program around it: windowing, input, GPU buffers, file
reading, threads and the floating-point parts (rotations, distances, colour
scaling).
