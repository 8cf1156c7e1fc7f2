use convex_hull::feature::FeatureId;
use convex_hull::closed::is_closed_surface;
use convex_hull::hull::{ConvexHull, OpenContour};
use convex_hull::mesh::{flatten_indices, Edge, Triangle, TriangleMesh};
use convex_hull::pair::SortedPair;

fn cube_indices() -> Vec<usize> {
    let quads = [[0, 3, 2, 1], [4, 5, 6, 7], [0, 1, 5, 4], [1, 2, 6, 5], [2, 3, 7, 6], [3, 0, 4, 7]];
    let mut ind = Vec::new();
    for q in quads.iter() {
        ind.extend_from_slice(&[q[0], q[1], q[2], q[0], q[2], q[3]]);
    }
    ind
}

/// Edges lying on the diagonal of a square side of the cube.
fn cube_flat(mesh: &TriangleMesh) -> Vec<bool> {
    mesh.edges
        .iter()
        .map(|e| {
            let a = e.vertices[0];
            let b = e.vertices[1];
            let p = |v: u32| [(v == 1 || v == 2 || v == 5 || v == 6) as i32, (v == 2 || v == 3 || v == 6 || v == 7) as i32, (v >= 4) as i32];
            let (pa, pb) = (p(a), p(b));
            let diff = (0..3).filter(|&i| pa[i] != pb[i]).count();
            diff == 2
        })
        .collect()
}

fn tetra_indices() -> Vec<usize> {
    vec![0, 2, 1, 0, 1, 3, 1, 2, 3, 0, 3, 2]
}

#[test]
fn sorted_pair_orders_its_elements() {
    let p = SortedPair::new(7, 3);
    assert_eq!((p.first(), p.second()), (3, 7));
    let q = SortedPair::new(3, 7);
    assert_eq!(p, q);
    assert_eq!(p.code(), (3u128 << 64) + 7);
    assert_ne!(SortedPair::new(1, 2).code(), SortedPair::new(2, 3).code());
}

#[test]
fn other_triangle_picks_the_other_face() {
    let e = Edge { vertices: [0, 1], faces: [4, 9], deleted: false };
    assert_eq!(e.other_triangle(4), 9);
    assert_eq!(e.other_triangle(9), 4);
    assert_eq!(e.other_triangle(2), 4);
}

#[test]
fn next_edge_id_follows_the_edge() {
    let t = Triangle { vertices: [5, 6, 7], edges: [10, 11, 12] };
    assert_eq!(t.next_edge_id(10), 1);
    assert_eq!(t.next_edge_id(11), 2);
    assert_eq!(t.next_edge_id(12), 0);
    assert!(t.has_edge(11));
    assert!(!t.has_edge(13));
}

#[test]
fn feature_id_unwraps() {
    assert_eq!(FeatureId::Vertex(3).unwrap_vertex(), 3);
    assert_eq!(FeatureId::Edge(4).unwrap_edge(), 4);
    assert_eq!(FeatureId::Face(5).unwrap_face(), 5);
}

#[test]
fn tetrahedron_mesh_edges() {
    let mesh = TriangleMesh::from_indices(&tetra_indices());
    assert_eq!(mesh.triangles.len(), 4);
    assert_eq!(mesh.edges.len(), 6);
    let expected: [([u32; 2], [u32; 2]); 6] = [
        ([0, 2], [0, 3]),
        ([2, 1], [0, 2]),
        ([1, 0], [0, 1]),
        ([1, 3], [1, 2]),
        ([3, 0], [1, 3]),
        ([2, 3], [2, 3]),
    ];
    for (e, (v, f)) in mesh.edges.iter().zip(expected.iter()) {
        assert_eq!(e.vertices, *v);
        assert_eq!(e.faces, *f);
        assert!(!e.deleted);
    }
    let tri_edges: Vec<[usize; 3]> = mesh.triangles.iter().map(|t| t.edges).collect();
    assert_eq!(tri_edges, vec![[0, 1, 2], [2, 3, 4], [1, 5, 3], [4, 5, 0]]);
    assert_eq!(mesh.triangles[2].vertices, [1, 2, 3]);
    assert!(mesh.has_side(3, 1));
    assert!(mesh.has_side(0, 2));
    assert!(!mesh.has_side(0, 4));
}

#[test]
fn lone_edge_keeps_default_second_face() {
    let mesh = TriangleMesh::from_indices(&[0, 1, 2]);
    assert_eq!(mesh.edges.len(), 3);
    for e in mesh.edges.iter() {
        assert_eq!(e.faces, [0, 0]);
    }
}

#[test]
fn empty_index_buffer() {
    let mesh = TriangleMesh::from_indices(&[]);
    assert!(mesh.triangles.is_empty());
    assert!(mesh.edges.is_empty());
    assert!(ConvexHull::contours_close(&mesh, &vec![]));
    assert!(ConvexHull::try_new(4, mesh, vec![]).is_none());
}

#[test]
fn tetrahedron_hull() {
    let mesh = TriangleMesh::from_indices(&tetra_indices());
    let flat = vec![false; mesh.edges.len()];
    assert!(ConvexHull::contours_close(&mesh, &flat));
    let hull = ConvexHull::try_new(4, mesh, flat).expect("a tetrahedron satisfies Euler's formula");
    let faces: Vec<(usize, usize, usize)> =
        hull.faces.iter().map(|f| (f.first_vertex_or_edge, f.num_vertices_or_edges, f.triangle)).collect();
    assert_eq!(faces, vec![(0, 3, 0), (3, 3, 1), (6, 3, 2), (9, 3, 3)]);
    assert_eq!(hull.edges_adj_to_face, vec![0, 1, 2, 2, 3, 4, 1, 5, 3, 4, 5, 0]);
    assert_eq!(hull.vertices_adj_to_face, vec![0, 2, 1, 0, 1, 3, 1, 2, 3, 0, 3, 2]);
    let verts: Vec<(usize, usize)> =
        hull.vertices.iter().map(|v| (v.first_adj_face_or_edge, v.num_adj_faces_or_edge)).collect();
    assert_eq!(verts, vec![(0, 3), (3, 3), (6, 3), (9, 3)]);
    assert_eq!(hull.faces_adj_to_vertex, vec![0, 1, 3, 0, 1, 2, 0, 2, 3, 1, 2, 3]);
    assert_eq!(hull.edges_adj_to_vertex, vec![0, 2, 4, 2, 3, 1, 1, 5, 0, 4, 3, 5]);
    let edge_faces: Vec<[u32; 2]> = hull.edges.iter().map(|e| e.faces).collect();
    assert_eq!(edge_faces, vec![[0, 3], [0, 2], [0, 1], [1, 2], [1, 3], [2, 3]]);
}

#[test]
fn cube_hull_merges_coplanar_triangles() {
    let mesh = TriangleMesh::from_indices(&cube_indices());
    assert_eq!(mesh.edges.len(), 18);
    let flat = cube_flat(&mesh);
    assert_eq!(flat.iter().filter(|f| **f).count(), 6);
    assert_eq!(
        flat,
        vec![
            false, false, true, false, false, false, false, true, false, false, false, true, false, false, true,
            false, true, true
        ]
    );
    let hull = ConvexHull::try_new(8, mesh, flat).expect("a cube satisfies Euler's formula");
    let faces: Vec<(usize, usize, usize)> =
        hull.faces.iter().map(|f| (f.first_vertex_or_edge, f.num_vertices_or_edges, f.triangle)).collect();
    assert_eq!(faces, vec![(0, 4, 0), (4, 4, 2), (8, 4, 4), (12, 4, 6), (16, 4, 8), (20, 4, 10)]);
    assert_eq!(
        hull.edges_adj_to_face,
        vec![0, 1, 3, 4, 5, 6, 8, 9, 4, 10, 5, 12, 3, 13, 6, 10, 1, 15, 8, 13, 0, 12, 9, 15]
    );
    assert_eq!(
        hull.vertices_adj_to_face,
        vec![0, 3, 2, 1, 4, 5, 6, 7, 0, 1, 5, 4, 1, 2, 6, 5, 2, 3, 7, 6, 3, 0, 4, 7]
    );
    let verts: Vec<(usize, usize)> =
        hull.vertices.iter().map(|v| (v.first_adj_face_or_edge, v.num_adj_faces_or_edge)).collect();
    assert_eq!(verts, vec![(0, 3), (3, 3), (6, 3), (9, 3), (12, 3), (15, 3), (18, 3), (21, 3)]);
    assert_eq!(
        hull.faces_adj_to_vertex,
        vec![0, 2, 5, 0, 2, 3, 0, 3, 4, 0, 4, 5, 1, 2, 5, 1, 2, 3, 1, 3, 4, 1, 4, 5]
    );
    assert_eq!(
        hull.edges_adj_to_vertex,
        vec![0, 4, 12, 4, 10, 3, 3, 13, 1, 1, 15, 0, 5, 12, 9, 6, 5, 10, 8, 6, 13, 9, 8, 15]
    );
    let edge_faces: Vec<[u32; 2]> = hull.edges.iter().map(|e| e.faces).collect();
    assert_eq!(
        edge_faces,
        vec![
            [0, 5], [0, 4], [0, 0], [0, 3], [0, 2], [1, 2], [1, 3], [1, 1], [1, 4], [1, 5], [2, 3], [2, 2], [2, 5],
            [3, 4], [3, 3], [4, 5], [4, 4], [5, 5]
        ]
    );
    let deleted: Vec<usize> = (0..hull.edges.len()).filter(|&e| hull.edges[e].deleted).collect();
    assert_eq!(deleted, vec![2, 7, 11, 14, 16, 17]);
}

#[test]
fn cube_face_boundaries_are_closed_loops() {
    let mesh = TriangleMesh::from_indices(&cube_indices());
    let flat = cube_flat(&mesh);
    let tris = mesh.triangles.clone();
    let hull = ConvexHull::try_new(8, mesh, flat).unwrap();
    for f in hull.faces.iter() {
        let n = f.num_vertices_or_edges;
        for r in 0..n {
            let e = hull.edges_adj_to_face[f.first_vertex_or_edge + r];
            let a = hull.vertices_adj_to_face[f.first_vertex_or_edge + r];
            let b = hull.vertices_adj_to_face[f.first_vertex_or_edge + (r + 1) % n];
            let on_side = tris.iter().any(|t| (0..3).any(|k| t.edges[k] == e && t.vertices[k] == a && t.vertices[(k + 1) % 3] == b));
            assert!(on_side);
        }
    }
}

#[test]
fn vertex_runs_name_faces_through_the_vertex() {
    let mesh = TriangleMesh::from_indices(&cube_indices());
    let flat = cube_flat(&mesh);
    let hull = ConvexHull::try_new(8, mesh, flat).unwrap();
    for (v, vx) in hull.vertices.iter().enumerate() {
        for i in 0..vx.num_adj_faces_or_edge {
            let f = &hull.faces[hull.faces_adj_to_vertex[vx.first_adj_face_or_edge + i]];
            let e = hull.edges_adj_to_vertex[vx.first_adj_face_or_edge + i];
            let found = (0..f.num_vertices_or_edges).any(|r| {
                hull.vertices_adj_to_face[f.first_vertex_or_edge + r] == v
                    && hull.edges_adj_to_face[f.first_vertex_or_edge + r] == e
            });
            assert!(found);
        }
    }
    assert_eq!(hull.faces_around_vertex(6), vec![1, 3, 4]);
}

#[test]
fn single_triangle_fails_euler() {
    let mesh = TriangleMesh::from_indices(&[0, 1, 2]);
    let flat = vec![false; 3];
    assert!(ConvexHull::contours_close(&mesh, &flat));
    assert!(ConvexHull::try_new(3, mesh, flat).is_none());
}

#[test]
fn unused_points_do_not_count() {
    let mesh = TriangleMesh::from_indices(&tetra_indices());
    let flat = vec![false; mesh.edges.len()];
    // Vertices that lie on no face do not count.
    let hull = ConvexHull::try_new(6, mesh, flat).unwrap();
    assert_eq!(hull.vertices.len(), 6);
    assert_eq!(hull.vertices[5].num_adj_faces_or_edge, 0);
}

#[test]
fn all_flat_edges_give_no_face() {
    let mesh = TriangleMesh::from_indices(&tetra_indices());
    let flat = vec![true; mesh.edges.len()];
    assert!(ConvexHull::contours_close(&mesh, &flat));
    assert!(ConvexHull::try_new(4, mesh, flat).is_none());
}

#[test]
fn open_contour_is_detected() {
    let mesh = TriangleMesh::from_indices(&[0, 1, 2]);
    let flat = vec![true, false, false];
    assert!(!ConvexHull::contours_close(&mesh, &flat));
}

#[test]
fn merged_tetrahedron_faces() {
    // Deleting one edge of a tetrahedron merges its two triangles into a quad:
    // 4 vertices, 5 edges and 3 faces still satisfy Euler's formula.
    let mesh = TriangleMesh::from_indices(&tetra_indices());
    let mut flat = vec![false; mesh.edges.len()];
    flat[5] = true;
    let hull = ConvexHull::try_new(4, mesh, flat).unwrap();
    let nums: Vec<usize> = hull.faces.iter().map(|f| f.num_vertices_or_edges).collect();
    assert_eq!(nums, vec![3, 3, 4]);
}

#[test]
fn edge_and_face_features() {
    let mesh = TriangleMesh::from_indices(&cube_indices());
    let flat = cube_flat(&mesh);
    let hull = ConvexHull::try_new(8, mesh, flat).unwrap();
    assert_eq!(hull.edge(FeatureId::Edge(3)), (FeatureId::Vertex(2), FeatureId::Vertex(1)));
    let (vs, es) = hull.face(FeatureId::Face(1));
    assert_eq!(vs, vec![FeatureId::Vertex(4), FeatureId::Vertex(5), FeatureId::Vertex(6), FeatureId::Vertex(7)]);
    assert_eq!(es, vec![FeatureId::Edge(5), FeatureId::Edge(6), FeatureId::Edge(8), FeatureId::Edge(9)]);
}

#[test]
fn support_feature_prefers_faces_then_edges() {
    let mesh = TriangleMesh::from_indices(&cube_indices());
    let flat = cube_flat(&mesh);
    let hull = ConvexHull::try_new(8, mesh, flat).unwrap();
    // The run of vertex 6 lists faces 1, 3, 4 with edges 8, 6, 13.
    assert_eq!(hull.select_support_feature(6, &vec![false, true, true], &vec![true, true, true]), FeatureId::Face(3));
    assert_eq!(hull.select_support_feature(6, &vec![false, false, false], &vec![false, false, true]), FeatureId::Edge(13));
    assert_eq!(hull.select_support_feature(6, &vec![false, false, false], &vec![false, false, false]), FeatureId::Vertex(6));
}

#[test]
fn face_boundaries_avoid_flat_edges() {
    let mesh = TriangleMesh::from_indices(&cube_indices());
    let flat = cube_flat(&mesh);
    let hull = ConvexHull::try_new(8, mesh, flat.clone()).unwrap();
    for f in hull.faces.iter() {
        for r in 0..f.num_vertices_or_edges {
            let e = hull.edges_adj_to_face[f.first_vertex_or_edge + r];
            assert!(!flat[e]);
            assert!(!hull.edges[e].deleted);
        }
    }
}

#[test]
fn vertex_count_is_euler_consistent_for_octahedron() {
    // Octahedron: 6 vertices, 12 edges, 8 triangular faces.
    let ind = vec![
        0, 2, 4, 2, 1, 4, 1, 3, 4, 3, 0, 4, 2, 0, 5, 1, 2, 5, 3, 1, 5, 0, 3, 5,
    ];
    let mesh = TriangleMesh::from_indices(&ind);
    assert_eq!(mesh.edges.len(), 12);
    let flat = vec![false; 12];
    assert!(ConvexHull::contours_close(&mesh, &flat));
    let hull = ConvexHull::try_new(6, mesh, flat).unwrap();
    assert_eq!(hull.faces.len(), 8);
    assert!(hull.vertices.iter().all(|v| v.num_adj_faces_or_edge == 4));
}

#[test]
fn closed_meshes_are_recognised() {
    let tet = TriangleMesh::from_indices(&tetra_indices());
    assert!(is_closed_surface(&tet));
    let cube = TriangleMesh::from_indices(&cube_indices());
    assert!(is_closed_surface(&cube));
    // Every choice of flat edges lets the contours of a closed mesh close.
    for mask in 0..64u32 {
        let flat: Vec<bool> = (0..6).map(|e| mask & (1 << e) != 0).collect();
        assert!(ConvexHull::contours_close(&tet, &flat));
    }
    let open = TriangleMesh::from_indices(&[0, 1, 2]);
    assert!(!is_closed_surface(&open));
    let flipped = TriangleMesh::from_indices(&[0, 2, 1, 0, 1, 3, 1, 2, 3, 0, 2, 3]);
    assert!(!is_closed_surface(&flipped));
}

#[test]
fn try_build_reports_open_contours() {
    let mesh = TriangleMesh::from_indices(&[0, 1, 2]);
    assert_eq!(ConvexHull::try_build(3, mesh, vec![true, false, false]), Err(OpenContour));
    let mesh = TriangleMesh::from_indices(&[0, 1, 2]);
    assert_eq!(ConvexHull::try_build(3, mesh, vec![false; 3]), Ok(None));
    let mesh = TriangleMesh::from_indices(&tetra_indices());
    let built = ConvexHull::try_build(4, mesh, vec![false; 6]).unwrap().unwrap();
    let again = ConvexHull::try_new(4, TriangleMesh::from_indices(&tetra_indices()), vec![false; 6]).unwrap();
    assert_eq!(built, again.clone());
}

#[test]
fn face_edges_join_consecutive_vertices() {
    let mesh = TriangleMesh::from_indices(&cube_indices());
    let flat = cube_flat(&mesh);
    let hull = ConvexHull::try_new(8, mesh, flat).unwrap();
    for f in hull.faces.iter() {
        let n = f.num_vertices_or_edges;
        assert!(n >= 3);
        for r in 0..n {
            let e = &hull.edges[hull.edges_adj_to_face[f.first_vertex_or_edge + r]];
            let a = hull.vertices_adj_to_face[f.first_vertex_or_edge + r] as u32;
            let b = hull.vertices_adj_to_face[f.first_vertex_or_edge + (r + 1) % n] as u32;
            assert!(e.vertices == [a, b] || e.vertices == [b, a]);
        }
    }
}

#[test]
fn more_hits_never_lower_the_feature() {
    let mesh = TriangleMesh::from_indices(&cube_indices());
    let flat = cube_flat(&mesh);
    let hull = ConvexHull::try_new(8, mesh, flat).unwrap();
    let none = vec![false, false, false];
    let edge_only = vec![false, true, false];
    assert_eq!(hull.select_support_feature(6, &none, &none), FeatureId::Vertex(6));
    assert_eq!(hull.select_support_feature(6, &none, &edge_only), FeatureId::Edge(6));
    assert_eq!(hull.select_support_feature(6, &edge_only, &edge_only), FeatureId::Face(3));
}

#[test]
fn triangles_inside_a_face_may_stay_unassigned() {
    // A tetrahedron whose face (0, 2, 1) is split into a ring of six
    // triangles around an inner triangle (4, 5, 6); all the split edges are flat.
    let ind = vec![0, 2, 5, 0, 5, 4, 2, 1, 6, 2, 6, 5, 1, 0, 4, 1, 4, 6, 4, 5, 6, 0, 1, 3, 1, 2, 3, 0, 3, 2];
    let mesh = TriangleMesh::from_indices(&ind);
    assert!(is_closed_surface(&mesh));
    let inside = [0usize, 1, 2, 4, 5, 6];
    let flat: Vec<bool> = mesh
        .edges
        .iter()
        .map(|e| {
            let (a, b) = (e.vertices[0] as usize, e.vertices[1] as usize);
            let outer = (a.min(b), a.max(b));
            inside.contains(&a) && inside.contains(&b) && outer != (0, 2) && outer != (1, 2) && outer != (0, 1)
        })
        .collect();
    let hull = ConvexHull::try_new(7, mesh, flat).unwrap();
    assert_eq!(hull.faces.len(), 4);
    // The contour around the split face never steps from triangles 1 and 6,
    // so the edge between them still names those triangles, not a face.
    let e = hull.edges.iter().find(|e| e.vertices == [5, 4] || e.vertices == [4, 5]).unwrap();
    assert_eq!(e.faces, [1, 6]);
}

#[test]
fn triangle_triples_flatten_in_order() {
    let triples: Vec<[u32; 3]> = vec![[0, 2, 1], [0, 1, 3], [1, 2, 3], [0, 3, 2]];
    assert_eq!(flatten_indices(&triples), tetra_indices());
    assert_eq!(flatten_indices(&vec![[4000000000, 7, 9]]), vec![4000000000usize, 7, 9]);
    assert!(flatten_indices(&Vec::new()).is_empty());
}

#[test]
fn hull_edges_have_distinct_endpoints() {
    let mesh = TriangleMesh::from_indices(&cube_indices());
    let flat = cube_flat(&mesh);
    let hull = ConvexHull::try_new(8, mesh, flat).expect("a cube satisfies Euler's formula");
    for e in 0..hull.edges.len() {
        let ed = hull.edges[e];
        assert_ne!(ed.vertices[0], ed.vertices[1]);
        let (a, b) = hull.edge(FeatureId::Edge(e as u32));
        assert_eq!(a, FeatureId::Vertex(ed.vertices[0]));
        assert_eq!(b, FeatureId::Vertex(ed.vertices[1]));
        assert_ne!(a, b);
    }
}
