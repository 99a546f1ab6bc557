# clustermesh

Splitting triangle meshes into clusters for level-of-detail rendering, and reading
cluster tree files back, with the mesh logic verified by Verus.

## Layout

- `src/` — the verified library:
  - `topology` — edges and triangles in canonical (ascending) form;
  - `fold` — the hash sets and maps (foldhash) that the algorithms work on, with
    their contracts;
  - `adjacency` — triangles linked to their neighbours, border edge sets, cluster seeds;
  - `mesh` — connectivity tables of an index list, and renumbering of mesh pieces;
  - `cluster` — growing clusters over a mesh; a finished split partitions the
    mesh's triangles;
  - `simplify` — the table updates of edge-collapse simplification, and the
    ordering of collapse candidates by length;
  - `reader` — decoding a cluster tree file held in memory.
- `app/` — the program around it: OBJ loading (tobj), floating-point geometry
  (distances, centres, the flip test of simplification), the GPU pass (wrgpgpu),
  file output.
- `tests/` — tests of the library.

Floating-point values do not enter the library: distances and squared edge lengths
reach it as the bit patterns of non-negative `f32`s, which order as the values do (a
NaN orders with nothing: splitting stops there, and the program stops before sorting
such lengths), and positions read from a file stay bit patterns.
