use vstd::prelude::*;
use crate::mesh::{Edge, TriangleMesh, next3, side_key, side_tail, side_head};
use crate::pair::sorted;
use crate::feature::FeatureId;
use crate::faces::{
    Face, Extraction, FaceExtraction, extraction, extract_faces, corners_below, extraction_ok,
    lemma_extract_ok, side_joins, boundary_closed, lemma_face_boundaries_closed, tri_edge, tri_vertex,
};
use crate::adjacency::{
    Vertex, adj_list, adj_offset, incidences, face_incidences, adjacency_matches, ranges_ok,
    vertex_adjacency, lemma_adj_offset_mono, lemma_adj_offset_bounds, lemma_incidence_vertex,
    lemma_incidence_bounds, lemma_adj_list_bounds, lemma_adj_offset_locate, lemma_adj_list_member,
    lemma_incidence_entry, face_entry,
};

verus! {

/// The combinatorial structure of a convex polyhedron without degenerate
/// faces: its vertices, polygonal faces and edges, the faces and edges around
/// each vertex, and the edges and vertices around each face.
#[derive(Clone, PartialEq, Debug)]
pub struct ConvexHull {
    pub vertices: Vec<Vertex>,
    pub faces: Vec<Face>,
    pub edges: Vec<Edge>,
    /// Faces adjacent to a vertex.
    pub faces_adj_to_vertex: Vec<usize>,
    /// Edges adjacent to a vertex.
    pub edges_adj_to_vertex: Vec<usize>,
    /// Edges adjacent to a face.
    pub edges_adj_to_face: Vec<usize>,
    /// Vertices adjacent to a face.
    pub vertices_adj_to_face: Vec<usize>,
}

/// The number of edges among the first `n` that are not flat.
pub open spec fn count_open(flat: Seq<bool>, n: nat) -> nat
    decreases n,
{
    if n == 0 {
        0
    } else {
        count_open(flat, (n - 1) as nat) + if !flat[n - 1] {
            1nat
        } else {
            0nat
        }
    }
}

/// The number of vertices among the first `n` that lie on some face.
pub open spec fn count_used(inc: Seq<(usize, usize, usize)>, n: nat) -> nat
    decreases n,
{
    if n == 0 {
        0
    } else {
        count_used(inc, (n - 1) as nat) + if adj_list(inc, (n - 1) as usize).len() > 0 {
            1nat
        } else {
            0nat
        }
    }
}

/// Euler's formula V - E + F = 2 for the vertices on faces, the edges that
/// are not flat and the faces kept by an extraction.
pub open spec fn euler_ok(np: nat, flat: Seq<bool>, x: Extraction) -> bool {
    count_used(incidences(x.faces, x.edges_adj, x.verts_adj), np) + x.faces.len() == count_open(flat, flat.len())
        + 2
}

/// The face that a triangle id stored in an edge becomes: the face assigned
/// to that triangle (32 bits, truncating), or the id itself when none was.
pub open spec fn face_of(parent: Seq<Option<usize>>, id: u32) -> u32 {
    match parent[id as int] {
        Some(fid) => fid as u32,
        None => id,
    }
}

impl ConvexHull {
    /// Indices stored in the hull point inside its tables.
    pub open spec fn well_formed(self) -> bool {
        let nv = self.vertices@.len();
        let nf = self.faces@.len();
        let ne = self.edges@.len();
        let total = self.faces_adj_to_vertex@.len();
        &&& self.edges_adj_to_face@.len() == self.vertices_adj_to_face@.len()
        &&& ranges_ok(self.faces@, self.vertices_adj_to_face@.len() as int)
        &&& forall|p: int|
            0 <= p < self.vertices_adj_to_face@.len() ==> #[trigger] self.vertices_adj_to_face@[p] < nv
                && self.edges_adj_to_face@[p] < ne
        &&& self.edges_adj_to_vertex@.len() == total
        &&& forall|v: int|
            0 <= v < nv ==> (#[trigger] self.vertices@[v]).first_adj_face_or_edge
                + self.vertices@[v].num_adj_faces_or_edge <= total
        &&& forall|q: int|
            0 <= q < total ==> #[trigger] self.faces_adj_to_vertex@[q] < nf && self.edges_adj_to_vertex@[q] < ne
    }

    /// The hull is the one built from `m` with flat edges `flat` for `np`
    /// points, through extraction `x`: the faces and per-face lists are those
    /// of `x`; the edges are those of `m`, marked deleted when flat, with their
    /// triangle ids replaced by the faces of those triangles; and the
    /// per-vertex tables list the faces around each vertex.
    pub open spec fn describes(self, np: nat, m: TriangleMesh, flat: Seq<bool>, x: Extraction) -> bool {
        &&& self.faces@ == x.faces
        &&& self.edges_adj_to_face@ == x.edges_adj
        &&& self.vertices_adj_to_face@ == x.verts_adj
        &&& adjacency_matches(
            incidences(x.faces, x.edges_adj, x.verts_adj),
            np,
            self.vertices@,
            self.faces_adj_to_vertex@,
            self.edges_adj_to_vertex@,
        )
        &&& self.edges@.len() == m.edges@.len()
        &&& forall|e: int|
            0 <= e < m.edges@.len() ==> {
                let ed = #[trigger] self.edges@[e];
                let me = m.edges@[e];
                &&& ed.vertices == me.vertices
                &&& ed.faces[0] == face_of(x.parent, me.faces[0])
                &&& ed.faces[1] == face_of(x.parent, me.faces[1])
                &&& ed.deleted == flat[e]
            }
    }
}

/// A hull built through a successful extraction is well formed.
pub(crate) proof fn lemma_hull_well_formed(h: ConvexHull, np: nat, m: TriangleMesh, flat: Seq<bool>, x: Extraction)
    requires
        h.describes(np, m, flat, x),
        extraction_ok(m, np, x),
        x.faces.len() <= usize::MAX,
        np <= usize::MAX,
    ensures
        h.well_formed(),
{
    let inc = incidences(x.faces, x.edges_adj, x.verts_adj);
    let nf = x.faces.len();
    let ne = m.edges@.len();
    assert(ranges_ok(x.faces, x.verts_adj.len() as int));
    assert forall|i: int| 0 <= i < inc.len() implies (#[trigger] inc[i]).0 < np by {
        lemma_incidence_vertex(x.faces, x.edges_adj, x.verts_adj, nf, i, np);
    }
    lemma_adj_offset_bounds(inc, np);
    assert forall|j: int| 0 <= j < inc.len() implies (#[trigger] inc[j]).1 < nf && inc[j].2 < ne by {
        lemma_incidence_bounds(x.faces, x.edges_adj, x.verts_adj, nf, j, ne);
    }
    assert forall|v: int| 0 <= v < np implies (#[trigger] h.vertices@[v]).first_adj_face_or_edge
        + h.vertices@[v].num_adj_faces_or_edge <= h.faces_adj_to_vertex@.len() by {
        lemma_adj_offset_mono(inc, (v + 1) as nat, np);
    }
    assert forall|q: int| 0 <= q < h.faces_adj_to_vertex@.len() implies #[trigger] h.faces_adj_to_vertex@[q] < nf
        && h.edges_adj_to_vertex@[q] < ne by {
        lemma_adj_offset_locate(inc, np, q);
        let v = choose|v: int| 0 <= v < np && adj_offset(inc, v as nat) <= q < #[trigger] adj_offset(inc, (v + 1) as nat);
        let i = q - adj_offset(inc, v as nat);
        assert(h.vertices@[v].first_adj_face_or_edge == adj_offset(inc, v as nat));
        lemma_adj_list_bounds(inc, v as usize, nf, ne);
        assert(i < adj_list(inc, v as usize).len());
        assert(h.faces_adj_to_vertex@[h.vertices@[v].first_adj_face_or_edge + i] == adj_list(inc, v as usize)[i].0);
    }
}

/// Copies the edges of `mesh`, marking the flat ones as deleted; gives the
/// number of edges that are not flat.
fn mark_flat_edges(mesh: &TriangleMesh, flat: &Vec<bool>) -> (res: (Vec<Edge>, usize))
    requires
        flat@.len() == mesh.edges@.len(),
    ensures
        res.0@.len() == mesh.edges@.len(),
        res.1 == count_open(flat@, flat@.len()),
        forall|e: int|
            0 <= e < mesh.edges@.len() ==> {
                let ed = #[trigger] res.0@[e];
                &&& ed.vertices == mesh.edges@[e].vertices
                &&& ed.faces == mesh.edges@[e].faces
                &&& ed.deleted == flat@[e]
            },
{
    let ne = mesh.edges.len();
    let mut edges: Vec<Edge> = Vec::new();
    let mut num_valid_edges: usize = 0;
    let mut e: usize = 0;
    while e < ne
        invariant
            ne == mesh.edges@.len(),
            flat@.len() == ne,
            e <= ne,
            edges@.len() == e,
            num_valid_edges == count_open(flat@, e as nat),
            num_valid_edges <= e,
            forall|e2: int|
                0 <= e2 < e ==> {
                    let ed = #[trigger] edges@[e2];
                    &&& ed.vertices == mesh.edges@[e2].vertices
                    &&& ed.faces == mesh.edges@[e2].faces
                    &&& ed.deleted == flat@[e2]
                },
        decreases ne - e,
    {
        let mut ed = mesh.edges[e];
        ed.deleted = flat[e];
        if !flat[e] {
            num_valid_edges = num_valid_edges + 1;
        }
        edges.push(ed);
        e = e + 1;
    }
    (edges, num_valid_edges)
}

/// Replaces the triangle ids stored in the edges by the faces that
/// `parent` assigns to those triangles.
fn edges_to_faces(edges: &mut Vec<Edge>, parent: &Vec<Option<usize>>)
    requires
        forall|e: int|
            0 <= e < old(edges)@.len() ==> (#[trigger] old(edges)@[e]).faces[0] < parent@.len()
                && old(edges)@[e].faces[1] < parent@.len(),
    ensures
        final(edges)@.len() == old(edges)@.len(),
        forall|e: int|
            0 <= e < old(edges)@.len() ==> {
                let ed = #[trigger] final(edges)@[e];
                let od = old(edges)@[e];
                &&& ed.vertices == od.vertices
                &&& ed.faces[0] == face_of(parent@, od.faces[0])
                &&& ed.faces[1] == face_of(parent@, od.faces[1])
                &&& ed.deleted == od.deleted
            },
{
    let ne = edges.len();
    let ghost old_edges = edges@;
    let mut e: usize = 0;
    while e < ne
        invariant
            ne == edges@.len(),
            old_edges.len() == ne,
            e <= ne,
            forall|e2: int|
                0 <= e2 < ne ==> (#[trigger] old_edges[e2]).faces[0] < parent@.len() && old_edges[e2].faces[1]
                    < parent@.len(),
            forall|e2: int|
                0 <= e2 < ne ==> {
                    let ed = #[trigger] edges@[e2];
                    let od = old_edges[e2];
                    &&& ed.vertices == od.vertices
                    &&& ed.faces[0] == if e2 < e {
                        face_of(parent@, od.faces[0])
                    } else {
                        od.faces[0]
                    }
                    &&& ed.faces[1] == if e2 < e {
                        face_of(parent@, od.faces[1])
                    } else {
                        od.faces[1]
                    }
                    &&& ed.deleted == od.deleted
                },
        decreases ne - e,
    {
        let mut ed = edges[e];
        let ghost od = old_edges[e as int];
        assert(ed.faces[0] == od.faces[0] && ed.faces[1] == od.faces[1]);
        let f0 = ed.faces[0] as usize;
        let f1 = ed.faces[1] as usize;
        if let Some(fid) = parent[f0] {
            ed.faces[0] = #[verifier::truncate] (fid as u32);
        }
        if let Some(fid) = parent[f1] {
            ed.faces[1] = #[verifier::truncate] (fid as u32);
        }
        edges.set(e, ed);
        e = e + 1;
    }
}

/// The number of vertices with a non-empty run.
fn count_valid_vertices(vertices: &Vec<Vertex>, Ghost(inc): Ghost<Seq<(usize, usize, usize)>>) -> (res: usize)
    requires
        forall|u: int|
            0 <= u < vertices@.len() ==> (#[trigger] vertices@[u]).num_adj_faces_or_edge == adj_list(
                inc,
                u as usize,
            ).len(),
    ensures
        res == count_used(inc, vertices@.len()),
{
    let n = vertices.len();
    let mut num_valid_vertices: usize = 0;
    let mut v: usize = 0;
    while v < n
        invariant
            v <= n,
            n == vertices@.len(),
            forall|u: int|
                0 <= u < n ==> (#[trigger] vertices@[u]).num_adj_faces_or_edge == adj_list(inc, u as usize).len(),
            num_valid_vertices == count_used(inc, v as nat),
            num_valid_vertices <= v,
        decreases n - v,
    {
        if vertices[v].num_adj_faces_or_edge != 0 {
            num_valid_vertices = num_valid_vertices + 1;
        }
        v = v + 1;
    }
    num_valid_vertices
}

/// Puts the parts of a hull together.
fn assemble(
    vertices: Vec<Vertex>,
    faces: Vec<Face>,
    edges: Vec<Edge>,
    faces_adj_to_vertex: Vec<usize>,
    edges_adj_to_vertex: Vec<usize>,
    edges_adj_to_face: Vec<usize>,
    vertices_adj_to_face: Vec<usize>,
    Ghost(np): Ghost<nat>,
    Ghost(m): Ghost<TriangleMesh>,
    Ghost(flat): Ghost<Seq<bool>>,
    Ghost(x): Ghost<Extraction>,
) -> (h: ConvexHull)
    requires
        faces@ == x.faces,
        edges_adj_to_face@ == x.edges_adj,
        vertices_adj_to_face@ == x.verts_adj,
        adjacency_matches(incidences(x.faces, x.edges_adj, x.verts_adj), np, vertices@, faces_adj_to_vertex@, edges_adj_to_vertex@),
        edges@.len() == m.edges@.len(),
        forall|e: int|
            0 <= e < m.edges@.len() ==> {
                let ed = #[trigger] edges@[e];
                let me = m.edges@[e];
                &&& ed.vertices == me.vertices
                &&& ed.faces[0] == face_of(x.parent, me.faces[0])
                &&& ed.faces[1] == face_of(x.parent, me.faces[1])
                &&& ed.deleted == flat[e]
            },
        extraction_ok(m, np, x),
        x.faces.len() <= usize::MAX,
        np <= usize::MAX,
    ensures
        h.describes(np, m, flat, x),
        h.well_formed(),
{
    let h = ConvexHull {
        vertices,
        faces,
        edges,
        faces_adj_to_vertex,
        edges_adj_to_vertex,
        edges_adj_to_face,
        vertices_adj_to_face,
    };
    proof {
        lemma_hull_well_formed(h, np, m, flat, x);
    }
    h
}

impl ConvexHull {
    /// Whether every contour that face extraction follows on `mesh`, with
    /// `flat[e]` telling whether edge `e` lies between coplanar triangles,
    /// closes.
    pub fn contours_close(mesh: &TriangleMesh, flat: &Vec<bool>) -> (res: bool)
        requires
            mesh.well_formed(),
            flat@.len() == mesh.edges@.len(),
        ensures
            res == extraction(*mesh, flat@) is Some,
    {
        extract_faces(mesh, flat).is_some()
    }

    /// Builds the hull of a triangle mesh over `num_points` points, given for
    /// each edge whether it lies between two coplanar triangles (such edges
    /// are deleted and their triangles merged into one face). Returns `None`
    /// when the vertices on faces, the remaining edges and the faces do not
    /// satisfy Euler's formula V - E + F = 2.
    pub fn try_new(num_points: usize, mesh: TriangleMesh, flat: Vec<bool>) -> (res: Option<ConvexHull>)
        requires
            mesh.well_formed(),
            corners_below(mesh, num_points as nat),
            flat@.len() == mesh.edges@.len(),
            extraction(mesh, flat@) is Some,
        ensures
            ({
                let x = extraction(mesh, flat@)->0;
                match res {
                    Some(h) => {
                        &&& euler_ok(num_points as nat, flat@, x)
                        &&& h.describes(num_points as nat, mesh, flat@, x)
                        &&& h.well_formed()
                    },
                    None => !euler_ok(num_points as nat, flat@, x),
                }
            }),
    {
        // Merge coplanar triangles into faces.
        let fx = extract_faces(&mesh, &flat).unwrap();
        finish(num_points, mesh, flat, fx)
    }

    /// Builds the hull as `try_new` does, following each contour once, and
    /// tells apart the two ways it can fail: `Err(OpenContour)` when a
    /// contour that face extraction follows does not close, `Ok(None)` when
    /// Euler's formula does not hold.
    pub fn try_build(num_points: usize, mesh: TriangleMesh, flat: Vec<bool>) -> (res: Result<
        Option<ConvexHull>,
        OpenContour,
    >)
        requires
            mesh.well_formed(),
            corners_below(mesh, num_points as nat),
            flat@.len() == mesh.edges@.len(),
        ensures
            match extraction(mesh, flat@) {
                None => res is Err,
                Some(x) => match res {
                    Err(_) => false,
                    Ok(Some(h)) => {
                        &&& euler_ok(num_points as nat, flat@, x)
                        &&& h.describes(num_points as nat, mesh, flat@, x)
                        &&& h.well_formed()
                    },
                    Ok(None) => !euler_ok(num_points as nat, flat@, x),
                },
            },
    {
        match extract_faces(&mesh, &flat) {
            None => Err(OpenContour),
            Some(fx) => Ok(finish(num_points, mesh, flat, fx)),
        }
    }
}

/// A contour that face extraction follows does not close.
#[derive(PartialEq, Eq, Structural, Clone, Copy, Debug)]
pub struct OpenContour;

/// Builds the hull from a face extraction of `mesh`.
#[verifier::spinoff_prover]
#[verifier::rlimit(30)]
fn finish(num_points: usize, mesh: TriangleMesh, flat: Vec<bool>, fx: FaceExtraction) -> (res: Option<ConvexHull>)
    requires
        mesh.well_formed(),
        corners_below(mesh, num_points as nat),
        flat@.len() == mesh.edges@.len(),
        extraction(mesh, flat@) == Some(fx@),
    ensures
        ({
            let x = fx@;
            match res {
                Some(h) => {
                    &&& euler_ok(num_points as nat, flat@, x)
                    &&& h.describes(num_points as nat, mesh, flat@, x)
                    &&& h.well_formed()
                },
                None => !euler_ok(num_points as nat, flat@, x),
            }
        }),
{
    let nt = mesh.triangles.len();
    // Mark the flat edges as deleted and count the others.
    let (mut edges, num_valid_edges) = mark_flat_edges(&mesh, &flat);
    let ghost x = fx@;
    let n_entries = fx.edges_adj.len();
    proof {
        lemma_extract_ok(mesh, flat@, num_points as nat, nt as nat);
        assert(fx.faces@ == x.faces);
        assert(ranges_ok(fx.faces@, fx.verts_adj@.len() as int));
    }
    // Make the edges name faces instead of triangles.
    edges_to_faces(&mut edges, &fx.parent);
    // The faces and edges around each vertex.
    let (vertices, faces_adj_to_vertex, edges_adj_to_vertex) = vertex_adjacency(
        num_points,
        &fx.faces,
        &fx.edges_adj,
        &fx.verts_adj,
    );
    let ghost inc = incidences(x.faces, x.edges_adj, x.verts_adj);
    // Count the vertices that lie on some face.
    let num_valid_vertices = count_valid_vertices(&vertices, Ghost(inc));
    let num_faces = fx.faces.len();
    // The Euler characteristic must be respected.
    if (num_valid_vertices as u128) + (num_faces as u128) != (num_valid_edges as u128) + 2 {
        None
    } else {
        Some(
            assemble(
                vertices,
                fx.faces,
                edges,
                faces_adj_to_vertex,
                edges_adj_to_vertex,
                fx.edges_adj,
                fx.verts_adj,
                Ghost(num_points as nat),
                Ghost(mesh),
                Ghost(flat@),
                Ghost(x),
            ),
        )
    }
}

impl ConvexHull {
    /// The `i`-th face in the run of vertex `v`.
    pub open spec fn run_face(self, v: int, i: int) -> int {
        self.faces_adj_to_vertex@[self.vertices@[v].first_adj_face_or_edge + i] as int
    }

    /// The `i`-th edge in the run of vertex `v`.
    pub open spec fn run_edge(self, v: int, i: int) -> usize {
        self.edges_adj_to_vertex@[self.vertices@[v].first_adj_face_or_edge + i]
    }

    /// The vertex at position `r` of the boundary of face `f`.
    pub open spec fn boundary_vertex(self, f: int, r: int) -> usize {
        self.vertices_adj_to_face@[self.faces@[f].first_vertex_or_edge + r]
    }

    /// The `i`-th face in the run of vertex `v` has `v` at some position of
    /// its boundary, with the `i`-th edge of the run at that position.
    pub open spec fn run_entry_on_boundary(self, v: usize, i: int) -> bool {
        let f = self.run_face(v as int, i);
        exists|r: int|
            0 <= r < self.faces@[f].num_vertices_or_edges && #[trigger] self.boundary_vertex(f, r) == v
                && self.boundary_edge(f, r) == self.run_edge(v as int, i)
    }

    /// The edge at position `r` of the boundary of face `f`.
    pub open spec fn boundary_edge(self, f: int, r: int) -> usize {
        self.edges_adj_to_face@[self.faces@[f].first_vertex_or_edge + r]
    }
}

/// Around every vertex, the tables list faces that have the vertex on their
/// boundary: the `i`-th face in the run of vertex `v` has `v` at some
/// position of its boundary, and the `i`-th edge in that run is the face's
/// edge at that position, the one that leaves `v`.
pub proof fn lemma_vertex_runs_on_faces(h: ConvexHull)
    requires
        h.well_formed(),
        h.faces@.len() <= usize::MAX,
        adjacency_matches(
            incidences(h.faces@, h.edges_adj_to_face@, h.vertices_adj_to_face@),
            h.vertices@.len(),
            h.vertices@,
            h.faces_adj_to_vertex@,
            h.edges_adj_to_vertex@,
        ),
    ensures
        forall|v: usize, i: int|
            v < h.vertices@.len() && 0 <= i < h.vertices@[v as int].num_adj_faces_or_edge
                ==> #[trigger] h.run_entry_on_boundary(v, i),
{
    let fs = h.faces@;
    let ea = h.edges_adj_to_face@;
    let va = h.vertices_adj_to_face@;
    let inc = incidences(fs, ea, va);
    assert forall|v: usize, i: int|
        v < h.vertices@.len() && 0 <= i < h.vertices@[v as int].num_adj_faces_or_edge implies #[trigger] h.run_entry_on_boundary(
        v,
        i,
    ) by {
        let q = h.vertices@[v as int].first_adj_face_or_edge + i;
        lemma_adj_list_member(inc, v as usize, i);
        let j = choose|j: int|
            0 <= j < inc.len() && (#[trigger] inc[j]).0 == v as usize && inc[j].1 == adj_list(inc, v as usize)[i].0
                && inc[j].2 == adj_list(inc, v as usize)[i].1;
        lemma_incidence_entry(fs, ea, va, fs.len(), j);
        let (f, r) = choose|f: int, r: int|
            0 <= f < fs.len() && 0 <= r < fs[f].num_vertices_or_edges && face_incidences(fs, ea, va, fs.len())[j]
                == #[trigger] face_entry(fs, ea, va, f, r);
        let a = adj_list(inc, v as usize);
        assert(i < a.len());
        assert(h.faces_adj_to_vertex@[h.vertices@[v as int].first_adj_face_or_edge + i] == a[i].0);
        assert(h.edges_adj_to_vertex@[h.vertices@[v as int].first_adj_face_or_edge + i] == a[i].1);
        assert(inc[j] == face_entry(fs, ea, va, f, r));
        assert(inc[j].1 == f as usize);
        assert(h.run_face(v as int, i) == f);
        assert(h.boundary_vertex(f, r) == inc[j].0);
        assert(h.boundary_edge(f, r) == inc[j].2);
        assert(0 <= r < fs[f].num_vertices_or_edges && h.boundary_vertex(f, r) == v && h.boundary_edge(f, r)
            == h.run_edge(v as int, i));
        assert(0 <= r < h.faces@[h.run_face(v as int, i)].num_vertices_or_edges && h.boundary_vertex(
            h.run_face(v as int, i),
            r,
        ) == v && h.boundary_edge(h.run_face(v as int, i), r) == h.run_edge(v as int, i));
    }
}

/// The index of the first `true` in `s`, if any.
pub open spec fn first_hit(s: Seq<bool>) -> Option<int> {
    if exists|i: int| 0 <= i < s.len() && #[trigger] s[i] {
        Some(choose|i: int| 0 <= i < s.len() && #[trigger] s[i] && forall|j: int| 0 <= j < i ==> !s[j])
    } else {
        None
    }
}

/// A `true` with no `true` before it is the first one.
proof fn lemma_first_hit(s: Seq<bool>, i: int)
    requires
        0 <= i < s.len(),
        s[i],
        forall|j: int| 0 <= j < i ==> !s[j],
    ensures
        first_hit(s) == Some(i),
{
    assert(exists|i: int| 0 <= i < s.len() && #[trigger] s[i]);
    let k = choose|k: int| 0 <= k < s.len() && #[trigger] s[k] && forall|j: int| 0 <= j < k ==> !s[j];
    assert(0 <= i < s.len() && s[i] && forall|j: int| 0 <= j < i ==> !s[j]);
    if k < i {
        assert(!s[k]);
    } else if k > i {
        assert(!s[i]);
    }
}

/// How many dimensions a feature has: 0 for a vertex, 1 for an edge, 2 for a face.
pub open spec fn feature_dim(f: FeatureId) -> int {
    match f {
        FeatureId::Vertex(_) => 0,
        FeatureId::Edge(_) => 1,
        FeatureId::Face(_) => 2,
        FeatureId::Unknown => -1,
    }
}

impl ConvexHull {
    /// The support feature seen from `vertex` for the given hit tests of
    /// the faces and edges in its run.
    pub open spec fn support_choice(self, vertex: usize, face_hits: Seq<bool>, edge_hits: Seq<bool>) -> FeatureId {
        let first = self.vertices@[vertex as int].first_adj_face_or_edge;
        match first_hit(face_hits) {
            Some(i) => FeatureId::Face(self.faces_adj_to_vertex@[first + i] as u32),
            None => match first_hit(edge_hits) {
                Some(i) => FeatureId::Edge(self.edges_adj_to_vertex@[first + i] as u32),
                None => FeatureId::Vertex(vertex as u32),
            },
        }
    }
}

/// More hits never give a feature of lower dimension: when every face and
/// edge hit by the first tests is also hit by the second, the second choice
/// has at least the dimension of the first; a face stays a face, and when the
/// second choice is the vertex itself, so was the first.
pub proof fn lemma_support_choice_monotone(
    h: ConvexHull,
    vertex: usize,
    fh1: Seq<bool>,
    eh1: Seq<bool>,
    fh2: Seq<bool>,
    eh2: Seq<bool>,
)
    requires
        fh1.len() == fh2.len(),
        eh1.len() == eh2.len(),
        forall|i: int| 0 <= i < fh1.len() && #[trigger] fh1[i] ==> fh2[i],
        forall|i: int| 0 <= i < eh1.len() && #[trigger] eh1[i] ==> eh2[i],
    ensures
        feature_dim(h.support_choice(vertex, fh2, eh2)) >= feature_dim(h.support_choice(vertex, fh1, eh1)),
        h.support_choice(vertex, fh1, eh1) is Face ==> h.support_choice(vertex, fh2, eh2) is Face,
        h.support_choice(vertex, fh2, eh2) is Vertex ==> h.support_choice(vertex, fh1, eh1) == h.support_choice(
            vertex,
            fh2,
            eh2,
        ),
{
    if exists|i: int| 0 <= i < fh1.len() && #[trigger] fh1[i] {
        let i = choose|i: int| 0 <= i < fh1.len() && #[trigger] fh1[i];
        assert(fh2[i]);
    }
    if exists|i: int| 0 <= i < eh1.len() && #[trigger] eh1[i] {
        let i = choose|i: int| 0 <= i < eh1.len() && #[trigger] eh1[i];
        assert(eh2[i]);
    }
}

impl ConvexHull {
    /// The two endpoints of edge `id`, as vertex features.
    pub fn edge(&self, id: FeatureId) -> (res: (FeatureId, FeatureId))
        requires
            id is Edge,
            (id->Edge_0 as int) < self.edges@.len(),
        ensures
            res.0 == FeatureId::Vertex(self.edges@[id->Edge_0 as int].vertices[0]),
            res.1 == FeatureId::Vertex(self.edges@[id->Edge_0 as int].vertices[1]),
    {
        let edge = &self.edges[id.unwrap_edge() as usize];
        let v1 = edge.vertices[0];
        let v2 = edge.vertices[1];
        (FeatureId::Vertex(v1), FeatureId::Vertex(v2))
    }

    /// The vertices and edges around face `id`, in boundary order, as features
    /// (indices truncated to 32 bits).
    pub fn face(&self, id: FeatureId) -> (res: (Vec<FeatureId>, Vec<FeatureId>))
        requires
            self.well_formed(),
            id is Face,
            (id->Face_0 as int) < self.faces@.len(),
        ensures
            ({
                let fc = self.faces@[id->Face_0 as int];
                &&& res.0@.len() == fc.num_vertices_or_edges
                &&& res.1@.len() == fc.num_vertices_or_edges
                &&& forall|r: int|
                    0 <= r < fc.num_vertices_or_edges ==> #[trigger] res.0@[r] == FeatureId::Vertex(
                        self.vertices_adj_to_face@[fc.first_vertex_or_edge + r] as u32,
                    ) && res.1@[r] == FeatureId::Edge(self.edges_adj_to_face@[fc.first_vertex_or_edge + r] as u32)
            }),
    {
        let n_entries = self.vertices_adj_to_face.len();
        let face = &self.faces[id.unwrap_face() as usize];
        assert(face.first_vertex_or_edge + face.num_vertices_or_edges <= n_entries);
        let first_vertex = face.first_vertex_or_edge;
        let last_vertex = face.first_vertex_or_edge + face.num_vertices_or_edges;
        let mut vertex_ids: Vec<FeatureId> = Vec::new();
        let mut edge_ids: Vec<FeatureId> = Vec::new();
        let mut i = first_vertex;
        while i < last_vertex
            invariant
                self.well_formed(),
                *face == self.faces@[id->Face_0 as int],
                first_vertex == face.first_vertex_or_edge,
                last_vertex == first_vertex + face.num_vertices_or_edges,
                last_vertex <= self.vertices_adj_to_face@.len(),
                first_vertex <= i <= last_vertex,
                vertex_ids@.len() == i - first_vertex,
                edge_ids@.len() == i - first_vertex,
                forall|r: int|
                    0 <= r < i - first_vertex ==> #[trigger] vertex_ids@[r] == FeatureId::Vertex(
                        self.vertices_adj_to_face@[first_vertex + r] as u32,
                    ) && edge_ids@[r] == FeatureId::Edge(self.edges_adj_to_face@[first_vertex + r] as u32),
            decreases last_vertex - i,
        {
            let vid = self.vertices_adj_to_face[i];
            let eid = self.edges_adj_to_face[i];
            vertex_ids.push(FeatureId::Vertex(#[verifier::truncate] (vid as u32)));
            edge_ids.push(FeatureId::Edge(#[verifier::truncate] (eid as u32)));
            i = i + 1;
        }
        (vertex_ids, edge_ids)
    }

    /// The faces around vertex `id`, in the order of its run.
    pub fn faces_around_vertex(&self, id: usize) -> (res: Vec<usize>)
        requires
            self.well_formed(),
            id < self.vertices@.len(),
        ensures
            res@ == self.faces_adj_to_vertex@.subrange(
                self.vertices@[id as int].first_adj_face_or_edge as int,
                self.vertices@[id as int].first_adj_face_or_edge + self.vertices@[id as int].num_adj_faces_or_edge,
            ),
    {
        let total = self.faces_adj_to_vertex.len();
        let vertex = &self.vertices[id];
        assert(vertex.first_adj_face_or_edge + vertex.num_adj_faces_or_edge <= total);
        let first = vertex.first_adj_face_or_edge;
        let last = vertex.first_adj_face_or_edge + vertex.num_adj_faces_or_edge;
        let mut res: Vec<usize> = Vec::new();
        let mut q = first;
        while q < last
            invariant
                first <= q <= last,
                last <= self.faces_adj_to_vertex@.len(),
                res@ == self.faces_adj_to_vertex@.subrange(first as int, q as int),
            decreases last - q,
        {
            res.push(self.faces_adj_to_vertex[q]);
            q = q + 1;
            assert(res@ =~= self.faces_adj_to_vertex@.subrange(first as int, q as int));
        }
        res
    }

    /// The support feature seen from vertex `vertex`: the first face in its run
    /// for which `face_hits` holds, else the first edge in its run for which
    /// `edge_hits` holds, else the vertex itself (indices truncated to 32 bits).
    pub fn select_support_feature(&self, vertex: usize, face_hits: &Vec<bool>, edge_hits: &Vec<bool>) -> (res:
        FeatureId)
        requires
            self.well_formed(),
            vertex < self.vertices@.len(),
            face_hits@.len() == self.vertices@[vertex as int].num_adj_faces_or_edge,
            edge_hits@.len() == self.vertices@[vertex as int].num_adj_faces_or_edge,
        ensures
            res == self.support_choice(vertex, face_hits@, edge_hits@),
    {
        let total = self.faces_adj_to_vertex.len();
        let v = &self.vertices[vertex];
        assert(v.first_adj_face_or_edge + v.num_adj_faces_or_edge <= total);
        let n = v.num_adj_faces_or_edge;
        let first = v.first_adj_face_or_edge;
        // Faces first.
        let mut i: usize = 0;
        while i < n
            invariant
                self.well_formed(),
                *v == self.vertices@[vertex as int],
                vertex < self.vertices@.len(),
                n == v.num_adj_faces_or_edge,
                first == v.first_adj_face_or_edge,
                first + n <= total,
                total == self.faces_adj_to_vertex@.len(),
                face_hits@.len() == n,
                i <= n,
                forall|j: int| 0 <= j < i ==> !face_hits@[j],
            decreases n - i,
        {
            if face_hits[i] {
                let face_id = self.faces_adj_to_vertex[first + i];
                proof {
                    lemma_first_hit(face_hits@, i as int);
                }
                return FeatureId::Face(#[verifier::truncate] (face_id as u32));
            }
            i = i + 1;
        }
        // Then edges.
        let mut i: usize = 0;
        while i < n
            invariant
                self.well_formed(),
                *v == self.vertices@[vertex as int],
                vertex < self.vertices@.len(),
                n == v.num_adj_faces_or_edge,
                first == v.first_adj_face_or_edge,
                first + n <= total,
                total == self.faces_adj_to_vertex@.len(),
                face_hits@.len() == n,
                edge_hits@.len() == n,
                forall|j: int| 0 <= j < n ==> !face_hits@[j],
                i <= n,
                forall|j: int| 0 <= j < i ==> !edge_hits@[j],
            decreases n - i,
        {
            if edge_hits[i] {
                let edge_id = self.edges_adj_to_vertex[first + i];
                proof {
                    lemma_first_hit(edge_hits@, i as int);
                }
                return FeatureId::Edge(#[verifier::truncate] (edge_id as u32));
            }
            i = i + 1;
        }
        // The vertex is the support feature.
        FeatureId::Vertex(#[verifier::truncate] (vertex as u32))
    }
}

impl ConvexHull {
    /// The edge at position `r` of the boundary of face `f` has as endpoints
    /// (as stored, 32 bits) the boundary vertices at positions `r` and `r + 1`,
    /// the last position wrapping around to the first.
    pub open spec fn edge_joins(self, f: int, r: int) -> bool {
        let fc = self.faces@[f];
        let r2 = if r + 1 < fc.num_vertices_or_edges {
            r + 1
        } else {
            0
        };
        let a = self.boundary_vertex(f, r) as u32;
        let b = self.boundary_vertex(f, r2) as u32;
        let ed = self.edges@[self.boundary_edge(f, r) as int];
        (ed.vertices[0] == a && ed.vertices[1] == b) || (ed.vertices[0] == b && ed.vertices[1] == a)
    }
}

/// One side of a built mesh: its edge joins its corners.
proof fn lemma_side_edge_endpoints(ind: Seq<usize>, m: TriangleMesh, t: usize, k: int, a: usize, b: usize)
    requires
        m.built_from(ind),
        t < m.triangles@.len(),
        0 <= k < 3,
        tri_vertex(m, t, k) == a,
        tri_vertex(m, t, next3(k)) == b,
    ensures
        ({
            let ed = m.edges@[tri_edge(m, t, k) as int];
            (ed.vertices[0] == a as u32 && ed.vertices[1] == b as u32) || (ed.vertices[0] == b as u32
                && ed.vertices[1] == a as u32)
        }),
{
    let p = 3 * t + k;
    assert(p / 3 == t && p % 3 == k);
    let e = m.side_edge(p);
    assert(e == tri_edge(m, t, k));
    let o = m.origins@[e as int];
    assert(side_key(ind, o) == side_key(ind, p));
    assert(m.triangles@[t as int].vertices[k] == ind[3 * t + k]);
    assert(m.triangles@[t as int].vertices[next3(k)] == ind[3 * t + next3(k)]);
    assert(p - p % 3 + next3(p % 3) == 3 * t + next3(k));
    assert(side_key(ind, p) == sorted(a, b));
    let ed = m.edges@[e as int];
    assert(ed.vertices[0] == side_tail(ind, o) as u32);
    assert(ed.vertices[1] == side_head(ind, o) as u32);
}

/// Every face of a hull built from an index buffer has at least three sides,
/// and the edge listed at each position of its boundary joins the vertex at
/// that position to the next one, the last joining back to the first.
pub proof fn lemma_hull_face_edges_join(ind: Seq<usize>, m: TriangleMesh, np: nat, flat: Seq<bool>, h: ConvexHull)
    requires
        m.built_from(ind),
        ind.len() <= usize::MAX,
        corners_below(m, np),
        flat.len() == m.edges@.len(),
        extraction(m, flat) is Some,
        h.describes(np, m, flat, extraction(m, flat)->0),
        h.edges_adj_to_face@.len() <= usize::MAX,
    ensures
        forall|f: int| 0 <= f < h.faces@.len() ==> (#[trigger] h.faces@[f]).num_vertices_or_edges >= 3,
        forall|f: int, r: int|
            0 <= f < h.faces@.len() && 0 <= r < h.faces@[f].num_vertices_or_edges ==> #[trigger] h.edge_joins(f, r),
{
    let x = extraction(m, flat)->0;
    m.lemma_built_well_formed(ind);
    lemma_extract_ok(m, flat, np, m.triangles@.len());
    lemma_face_boundaries_closed(m, flat);
    assert forall|f: int, r: int| 0 <= f < h.faces@.len() && 0 <= r < h.faces@[f].num_vertices_or_edges implies #[trigger] h.edge_joins(
        f,
        r,
    ) by {
        let fc = x.faces[f];
        assert(h.faces@[f] == fc);
        assert(boundary_closed(m, x.edges_adj, x.verts_adj, fc));
        let r2 = if r + 1 < fc.num_vertices_or_edges {
            r + 1
        } else {
            0
        };
        let e = x.edges_adj[fc.first_vertex_or_edge + r];
        let a = x.verts_adj[fc.first_vertex_or_edge + r];
        let b = x.verts_adj[fc.first_vertex_or_edge + r2];
        assert(side_joins(m, e, a, b));
        let (t, k) = choose|t: usize, k: int|
            t < m.triangles@.len() && 0 <= k < 3 && #[trigger] tri_edge(m, t, k) == e && tri_vertex(m, t, k) == a
                && tri_vertex(m, t, next3(k)) == b;
        lemma_side_edge_endpoints(ind, m, t, k, a, b);
        assert(h.boundary_edge(f, r) == e);
        assert(h.boundary_vertex(f, r) == a);
        assert(h.boundary_vertex(f, r2) == b);
        assert(h.edges@[e as int].vertices == m.edges@[e as int].vertices);
    }
}


/// Whether every triangle of index buffer `ind` has three distinct corners,
/// each of which fits the 32-bit vertex ids that edges store.
pub open spec fn triangles_nondegenerate(ind: Seq<usize>) -> bool {
    &&& forall|p: int| 0 <= p < ind.len() ==> #[trigger] ind[p] <= u32::MAX
    &&& forall|t: int|
        0 <= t < ind.len() / 3 ==> #[trigger] ind[3 * t] != ind[3 * t + 1] && ind[3 * t + 1] != ind[3 * t + 2]
            && ind[3 * t + 2] != ind[3 * t]
}

/// When every triangle of the index buffer has three distinct corners, every
/// edge of a hull built from it has two distinct endpoints.
pub proof fn lemma_hull_edges_distinct_endpoints(
    ind: Seq<usize>,
    m: TriangleMesh,
    np: nat,
    flat: Seq<bool>,
    x: Extraction,
    h: ConvexHull,
)
    requires
        m.built_from(ind),
        triangles_nondegenerate(ind),
        h.describes(np, m, flat, x),
    ensures
        forall|e: int| 0 <= e < h.edges@.len() ==> (#[trigger] h.edges@[e]).vertices[0] != h.edges@[e].vertices[1],
{
    assert forall|e: int| 0 <= e < h.edges@.len() implies (#[trigger] h.edges@[e]).vertices[0]
        != h.edges@[e].vertices[1] by {
        let o = m.origins@[e];
        let t = o / 3;
        let k = o % 3;
        assert(0 <= o < 3 * (ind.len() / 3));
        assert(o == 3 * t + k && 0 <= t < ind.len() / 3 && 0 <= k < 3);
        assert(ind[3 * t] != ind[3 * t + 1]);
        let a = side_tail(ind, o);
        let b = side_head(ind, o);
        assert(a == ind[3 * t + k]);
        assert(b == ind[3 * t + next3(k)]);
        assert(a != b);
        assert(a <= u32::MAX && b <= u32::MAX);
        assert(m.edges@[e].vertices[0] == a as u32);
        assert(m.edges@[e].vertices[1] == b as u32);
        assert(h.edges@[e].vertices == m.edges@[e].vertices);
    }
}

} // verus!
