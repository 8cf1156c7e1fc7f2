# convex_hull

The combinatorial core of a convex polyhedron, written in Verus and verified.

A hull is given by points and an index buffer of triangles. This crate builds
the triangle/edge incidence structure from the index buffer, merges triangles
that are coplanar into polygonal faces by following face contours, lays out
the faces and edges around every vertex, and accepts the result only when
Euler's formula V - E + F = 2 holds. Everything that needs floating point
(edge directions, triangle normals, the coplanarity test, support-point
queries) stays outside the verified library and enters it as plain values.

Layout:

- `src/pair.rs`: sorted index pairs and their integer codes.
- `src/mesh.rs`: triangles and edges built from an index buffer, and the
  index buffer of a list of triangle triples.
- `src/faces.rs`: contour following and face extraction, with its model.
- `src/fuel.rs`: why the contour step bound loses nothing.
- `src/closed.rs`: on closed, consistently oriented meshes every contour closes.
- `src/adjacency.rs`: the per-vertex face and edge tables.
- `src/hull.rs`: the hull itself, its construction and its queries.
- `src/feature.rs`: feature identifiers (vertex, edge, face).
- `app/lib.rs`: the floating-point side, built on nalgebra.
- `tests/`: tests of the library on concrete meshes.
