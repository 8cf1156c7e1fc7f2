//! Combinatorial core of a convex polyhedron: the triangle/edge incidence
//! structure built from an index buffer, the merging of coplanar triangles
//! into polygonal faces by contour following, the vertex-to-face adjacency
//! tables, and the Euler-characteristic test that accepts or rejects a hull.
//!
//! Geometry (points, normals, edge directions) is not handled here: every
//! decision that depends on it enters as a plain value computed by the caller.

pub mod feature;
pub mod pair;
pub mod mesh;
pub mod faces;
pub mod fuel;
pub mod closed;
pub mod adjacency;
pub mod hull;
pub mod euler;
