use vstd::prelude::*;
use crate::mesh::{Edge, Triangle, TriangleMesh, next3};

verus! {

/// A polygonal face: the run of `num_vertices_or_edges` consecutive entries,
/// starting at `first_vertex_or_edge`, of the per-face vertex and edge lists,
/// and the triangle whose normal the face takes.
#[derive(PartialEq, Eq, Structural, Clone, Copy, Debug)]
pub struct Face {
    pub first_vertex_or_edge: usize,
    pub num_vertices_or_edges: usize,
    pub triangle: usize,
}

/// Corner `k` of triangle `t`.
pub open spec fn tri_vertex(m: TriangleMesh, t: usize, k: int) -> usize {
    m.triangles@[t as int].vertices[k]
}

/// Edge of side `k` of triangle `t`.
pub open spec fn tri_edge(m: TriangleMesh, t: usize, k: int) -> usize {
    m.triangles@[t as int].edges[k]
}

/// Crossing the flat edge of side `k` of triangle `t`: the triangle on the
/// other side of that edge, and the side after the edge there. Fails when
/// that triangle does not have the edge, or when the crossing would not keep
/// the current corner.
pub open spec fn cross(m: TriangleMesh, t: usize, k: int) -> Option<(usize, int)> {
    let e = tri_edge(m, t, k);
    let t2 = m.edges@[e as int].spec_other_triangle(t as u32) as usize;
    match m.triangles@[t2 as int].edge_slot(e) {
        None => None,
        Some(i) => if tri_vertex(m, t2, next3(i)) == tri_vertex(m, t, k) {
            Some((t2, next3(i)))
        } else {
            None
        },
    }
}

/// Follows a face contour from side `k` of triangle `t` until it reaches a
/// corner equal to `s`, taking at most `fuel` steps. Each step either records
/// a side whose edge is not flat (its edge and its start corner) and moves to
/// the next side of the same triangle, or crosses a flat edge. Gives the
/// recorded (edge, corner) pairs and the triangles stepped from, in order;
/// `None` when a crossing fails or the fuel runs out.
pub open spec fn walk(
    m: TriangleMesh,
    flat: Seq<bool>,
    s: usize,
    t: usize,
    k: int,
    fuel: nat,
) -> Option<(Seq<(usize, usize)>, Seq<usize>)>
    decreases fuel,
{
    if tri_vertex(m, t, k) == s {
        Some((Seq::empty(), Seq::empty()))
    } else if fuel == 0 {
        None
    } else {
        let e = tri_edge(m, t, k);
        if !flat[e as int] {
            match walk(m, flat, s, t, next3(k), (fuel - 1) as nat) {
                None => None,
                Some(r) => Some((seq![(e, tri_vertex(m, t, k))] + r.0, seq![t] + r.1)),
            }
        } else {
            match cross(m, t, k) {
                None => None,
                Some(st) => match walk(m, flat, s, st.0, st.1, (fuel - 1) as nat) {
                    None => None,
                    Some(r) => Some((r.0, seq![t] + r.1)),
                },
            }
        }
    }
}

/// The number of steps a contour may take: one more than the number of
/// (triangle, side) states. A contour that has not closed by then has
/// repeated a state and never closes (`fuel::lemma_contour_fuel_suffices`).
pub open spec fn walk_fuel(m: TriangleMesh) -> nat {
    (3 * m.triangles@.len() + 1) as nat
}

/// The contour that starts at side `j` of triangle `t`.
pub open spec fn contour(m: TriangleMesh, flat: Seq<bool>, t: usize, j: int) -> Option<
    (Seq<(usize, usize)>, Seq<usize>),
> {
    walk(m, flat, tri_vertex(m, t, j), t, next3(j), walk_fuel(m))
}

/// The first side of triangle `t` whose edge is not flat.
pub open spec fn first_open_side(m: TriangleMesh, flat: Seq<bool>, t: usize) -> Option<int> {
    if !flat[tri_edge(m, t, 0) as int] {
        Some(0)
    } else if !flat[tri_edge(m, t, 1) as int] {
        Some(1)
    } else if !flat[tri_edge(m, t, 2) as int] {
        Some(2)
    } else {
        None
    }
}

/// The state of face extraction: the face each triangle was assigned to, the
/// faces kept so far, and the per-face edge and vertex lists.
pub struct Extraction {
    pub parent: Seq<Option<usize>>,
    pub faces: Seq<Face>,
    pub edges_adj: Seq<usize>,
    pub verts_adj: Seq<usize>,
}

/// Assigns face `fid` to every triangle in `visited`.
pub open spec fn mark(parent: Seq<Option<usize>>, visited: Seq<usize>, fid: usize) -> Seq<Option<usize>> {
    Seq::new(parent.len(), |x: int| if visited.contains(x as usize) { Some(fid) } else { parent[x] })
}

/// Processes triangle `i`: when it has no face yet and one of its sides is
/// not flat, follows the contour from its first such side, records the
/// contour's edges and vertices, assigns the new face id to every triangle
/// the contour stepped from, and keeps the face when it has more than two
/// sides.
pub open spec fn process(m: TriangleMesh, flat: Seq<bool>, st: Extraction, i: usize) -> Option<Extraction> {
    if st.parent[i as int] is Some {
        Some(st)
    } else {
        match first_open_side(m, flat, i) {
            None => Some(st),
            Some(j) => match contour(m, flat, i, j) {
                None => None,
                Some(w) => {
                    let fid = st.faces.len() as usize;
                    let n = 1 + w.0.len();
                    Some(
                        Extraction {
                            parent: mark(st.parent, w.1, fid),
                            faces: if n > 2 {
                                st.faces.push(
                                    Face {
                                        first_vertex_or_edge: st.edges_adj.len() as usize,
                                        num_vertices_or_edges: n as usize,
                                        triangle: i,
                                    },
                                )
                            } else {
                                st.faces
                            },
                            edges_adj: st.edges_adj + seq![tri_edge(m, i, j)] + w.0.map_values(
                                |p: (usize, usize)| p.0,
                            ),
                            verts_adj: st.verts_adj + seq![tri_vertex(m, i, j)] + w.0.map_values(
                                |p: (usize, usize)| p.1,
                            ),
                        },
                    )
                },
            },
        }
    }
}

/// Face extraction over the first `n` triangles; `None` when a contour it
/// follows does not close.
pub open spec fn extract(m: TriangleMesh, flat: Seq<bool>, n: nat) -> Option<Extraction>
    decreases n,
{
    if n == 0 {
        Some(
            Extraction {
                parent: Seq::new(m.triangles@.len(), |x: int| None),
                faces: Seq::empty(),
                edges_adj: Seq::empty(),
                verts_adj: Seq::empty(),
            },
        )
    } else {
        match extract(m, flat, (n - 1) as nat) {
            None => None,
            Some(st) => process(m, flat, st, (n - 1) as usize),
        }
    }
}

/// Face extraction over all triangles.
pub open spec fn extraction(m: TriangleMesh, flat: Seq<bool>) -> Option<Extraction> {
    extract(m, flat, m.triangles@.len())
}

/// The executable state of face extraction.
pub struct FaceExtraction {
    pub parent: Vec<Option<usize>>,
    pub faces: Vec<Face>,
    pub edges_adj: Vec<usize>,
    pub verts_adj: Vec<usize>,
}

impl View for FaceExtraction {
    type V = Extraction;

    open spec fn view(&self) -> Extraction {
        Extraction {
            parent: self.parent@,
            faces: self.faces@,
            edges_adj: self.edges_adj@,
            verts_adj: self.verts_adj@,
        }
    }
}

/// Marking one more triangle updates one entry.
proof fn lemma_mark_push(parent: Seq<Option<usize>>, visited: Seq<usize>, t: usize, fid: usize)
    requires
        t < parent.len(),
        parent.len() <= usize::MAX,
    ensures
        mark(parent, visited.push(t), fid) == mark(parent, visited, fid).update(t as int, Some(fid)),
{
    let vs = visited.push(t);
    assert forall|x: int| 0 <= x < parent.len() implies #[trigger] mark(parent, vs, fid)[x] == mark(
        parent,
        visited,
        fid,
    ).update(t as int, Some(fid))[x] by {
        if x == t {
            assert(vs[vs.len() - 1] == t);
        } else {
            if vs.contains(x as usize) {
                let j = choose|j: int| 0 <= j < vs.len() && vs[j] == x as usize;
                assert(visited[j] == x as usize);
            }
            if visited.contains(x as usize) {
                let j = choose|j: int| 0 <= j < visited.len() && visited[j] == x as usize;
                assert(vs[j] == x as usize);
            }
        }
    }
    assert(mark(parent, vs, fid) =~= mark(parent, visited, fid).update(t as int, Some(fid)));
}

/// Pairs a contour's result with what was recorded before it.
pub open spec fn after(
    done: (Seq<(usize, usize)>, Seq<usize>),
    rest: Option<(Seq<(usize, usize)>, Seq<usize>)>,
) -> Option<(Seq<(usize, usize)>, Seq<usize>)> {
    match rest {
        None => None,
        Some(r) => Some((done.0 + r.0, done.1 + r.1)),
    }
}

/// Index of the first side of triangle `i` whose edge is not flat.
fn find_open_side(m: &TriangleMesh, flat: &Vec<bool>, i: usize) -> (res: Option<usize>)
    requires
        m.well_formed(),
        i < m.triangles@.len(),
        flat@.len() == m.edges@.len(),
    ensures
        match first_open_side(*m, flat@, i) {
            None => res is None,
            Some(j) => res == Some(j as usize),
        },
{
    let tri = &m.triangles[i];
    if !flat[tri.edges[0]] {
        Some(0)
    } else if !flat[tri.edges[1]] {
        Some(1)
    } else if !flat[tri.edges[2]] {
        Some(2)
    } else {
        None
    }
}

/// Follows the contour from side `j1` of triangle `i` and appends it to the
/// per-face lists, assigning face `fid` to each triangle it steps from.
/// Returns the number of entries appended, or `None` when the contour does
/// not close.
fn trace_contour(
    m: &TriangleMesh,
    flat: &Vec<bool>,
    i: usize,
    j1: usize,
    fid: usize,
    parent: &mut Vec<Option<usize>>,
    edges_adj: &mut Vec<usize>,
    verts_adj: &mut Vec<usize>,
) -> (res: Option<usize>)
    requires
        m.well_formed(),
        i < m.triangles@.len(),
        j1 < 3,
        flat@.len() == m.edges@.len(),
        old(parent)@.len() == m.triangles@.len(),
        old(edges_adj)@.len() == old(verts_adj)@.len(),
    ensures
        match contour(*m, flat@, i, j1 as int) {
            None => res is None,
            Some(w) => {
                &&& res == Some((1 + w.0.len()) as usize)
                &&& 1 + w.0.len() <= usize::MAX
                &&& final(parent)@ == mark(old(parent)@, w.1, fid)
                &&& final(edges_adj)@ == old(edges_adj)@ + seq![tri_edge(*m, i, j1 as int)] + w.0.map_values(
                    |p: (usize, usize)| p.0,
                )
                &&& final(verts_adj)@ == old(verts_adj)@ + seq![tri_vertex(*m, i, j1 as int)]
                    + w.0.map_values(|p: (usize, usize)| p.1)
            },
        },
{
    let nt = m.triangles.len();
    let s = m.triangles[i].vertices[j1];
    let base = edges_adj.len();
    edges_adj.push(m.triangles[i].edges[j1]);
    verts_adj.push(s);
    let mut t: usize = i;
    let mut k: usize = if j1 == 2 { 0 } else { j1 + 1 };
    let mut steps: u128 = 3 * (nt as u128) + 1;
    let ghost full = contour(*m, flat@, i, j1 as int);
    let ghost mut done: (Seq<(usize, usize)>, Seq<usize>) = (Seq::empty(), Seq::empty());
    let ghost parent0 = old(parent)@;
    let ghost e0 = old(edges_adj)@.push(m.triangles@[i as int].edges[j1 as int]);
    let ghost v0 = old(verts_adj)@.push(s);
    while m.triangles[t].vertices[k] != s
        invariant
            m.well_formed(),
            nt == m.triangles@.len(),
            flat@.len() == m.edges@.len(),
            t < nt,
            k < 3,
            s == tri_vertex(*m, i, j1 as int),
            full == contour(*m, flat@, i, j1 as int),
            full == after(done, walk(*m, flat@, s, t, k as int, steps as nat)),
            parent@ == mark(parent0, done.1, fid),
            parent0.len() == nt,
            edges_adj@ == e0 + done.0.map_values(|p: (usize, usize)| p.0),
            verts_adj@ == v0 + done.0.map_values(|p: (usize, usize)| p.1),
            e0.len() == v0.len(),
            e0.len() == base + 1,
            verts_adj@.len() == edges_adj@.len(),
        decreases steps,
    {
        if steps == 0 {
            return None;
        }
        let ghost rest = walk(*m, flat@, s, t, k as int, steps as nat);
        let curr_edge = m.triangles[t].edges[k];
        let curr_vertex = m.triangles[t].vertices[k];
        parent.set(t, Some(fid));
        proof {
            lemma_mark_push(parent0, done.1, t, fid);
        }
        if !flat[curr_edge] {
            edges_adj.push(curr_edge);
            verts_adj.push(curr_vertex);
            proof {
                let ghost d0 = done;
                done = (done.0.push((curr_edge, curr_vertex)), done.1.push(t));
                assert(done.0.map_values(|p: (usize, usize)| p.0) =~= d0.0.map_values(|p: (usize, usize)| p.0).push(curr_edge));
                assert(done.0.map_values(|p: (usize, usize)| p.1) =~= d0.0.map_values(|p: (usize, usize)| p.1).push(curr_vertex));
                let ghost nxt = walk(*m, flat@, s, t, next3(k as int), (steps - 1) as nat);
                match nxt {
                    None => {},
                    Some(r) => {
                        assert(d0.0 + (seq![(curr_edge, curr_vertex)] + r.0) =~= done.0 + r.0);
                        assert(d0.1 + (seq![t] + r.1) =~= done.1 + r.1);
                    },
                }
            }
            k = if k == 2 { 0 } else { k + 1 };
        } else {
            let t2 = m.edges[curr_edge].other_triangle(t as u32) as usize;
            if !m.triangles[t2].has_edge(curr_edge) {
                return None;
            }
            let k2 = m.triangles[t2].next_edge_id(curr_edge);
            if m.triangles[t2].vertices[k2] != curr_vertex {
                return None;
            }
            proof {
                let ghost d0 = done;
                done = (done.0, done.1.push(t));
                let ghost nxt = walk(*m, flat@, s, t2, k2 as int, (steps - 1) as nat);
                match nxt {
                    None => {},
                    Some(r) => {
                        assert(d0.0 + r.0 =~= done.0 + r.0);
                        assert(d0.1 + (seq![t] + r.1) =~= done.1 + r.1);
                    },
                }
            }
            t = t2;
            k = k2;
        }
        steps = steps - 1;
    }
    proof {
        assert(done.0 + Seq::<(usize, usize)>::empty() =~= done.0);
        assert(done.1 + Seq::<usize>::empty() =~= done.1);
        assert(e0 + done.0.map_values(|p: (usize, usize)| p.0) =~= old(edges_adj)@ + seq![
            tri_edge(*m, i, j1 as int),
        ] + done.0.map_values(|p: (usize, usize)| p.0));
        assert(v0 + done.0.map_values(|p: (usize, usize)| p.1) =~= old(verts_adj)@ + seq![
            tri_vertex(*m, i, j1 as int),
        ] + done.0.map_values(|p: (usize, usize)| p.1));
    }
    let num = edges_adj.len() - base;
    Some(num)
}

/// Once a contour fails to close, extraction fails for good.
proof fn lemma_extract_none_stays(m: TriangleMesh, flat: Seq<bool>, a: nat, b: nat)
    requires
        a <= b,
        extract(m, flat, a) is None,
    ensures
        extract(m, flat, b) is None,
    decreases b - a,
{
    if a < b {
        lemma_extract_none_stays(m, flat, a, (b - 1) as nat);
    }
}

/// Merges the triangles of `m` into polygonal faces by following contours of
/// edges that are not flat (`flat[e]` tells whether edge `e` lies between two
/// coplanar triangles). Gives `None` exactly when a contour that extraction
/// follows does not close.
pub fn extract_faces(m: &TriangleMesh, flat: &Vec<bool>) -> (res: Option<FaceExtraction>)
    requires
        m.well_formed(),
        flat@.len() == m.edges@.len(),
    ensures
        match extraction(*m, flat@) {
            None => res is None,
            Some(x) => res matches Some(r) && r@ == x,
        },
{
    let nt = m.triangles.len();
    let mut parent: Vec<Option<usize>> = Vec::new();
    let mut i: usize = 0;
    while i < nt
        invariant
            nt == m.triangles@.len(),
            i <= nt,
            parent@.len() == i,
            forall|x: int| 0 <= x < i ==> parent@[x] is None,
        decreases nt - i,
    {
        parent.push(None);
        i = i + 1;
    }
    let mut faces: Vec<Face> = Vec::new();
    let mut edges_adj: Vec<usize> = Vec::new();
    let mut verts_adj: Vec<usize> = Vec::new();
    proof {
        let init = extract(*m, flat@, 0).unwrap();
        assert(init.parent =~= parent@);
        assert(init.faces =~= faces@);
        assert(init.edges_adj =~= edges_adj@);
        assert(init.verts_adj =~= verts_adj@);
    }
    let mut i: usize = 0;
    while i < nt
        invariant
            m.well_formed(),
            flat@.len() == m.edges@.len(),
            nt == m.triangles@.len(),
            i <= nt,
            parent@.len() == nt,
            edges_adj@.len() == verts_adj@.len(),
            extract(*m, flat@, i as nat) == Some(
                Extraction {
                    parent: parent@,
                    faces: faces@,
                    edges_adj: edges_adj@,
                    verts_adj: verts_adj@,
                },
            ),
        decreases nt - i,
    {
        let ghost st = Extraction {
            parent: parent@,
            faces: faces@,
            edges_adj: edges_adj@,
            verts_adj: verts_adj@,
        };
        if parent[i].is_none() {
            match find_open_side(m, flat, i) {
                None => {},
                Some(j1) => {
                    let fid = faces.len();
                    let first = edges_adj.len();
                    match trace_contour(m, flat, i, j1, fid, &mut parent, &mut edges_adj, &mut verts_adj) {
                        None => {
                            proof {
                                lemma_extract_none_stays(*m, flat@, (i + 1) as nat, nt as nat);
                            }
                            return None;
                        },
                        Some(n) => {
                            if n > 2 {
                                faces.push(
                                    Face { first_vertex_or_edge: first, num_vertices_or_edges: n, triangle: i },
                                );
                            }
                        },
                    }
                },
            }
        }
        proof {
            let nx = process(*m, flat@, st, i).unwrap();
            assert(nx.parent =~= parent@);
            assert(nx.faces =~= faces@);
            assert(nx.edges_adj =~= edges_adj@);
            assert(nx.verts_adj =~= verts_adj@);
        }
        i = i + 1;
    }
    Some(FaceExtraction { parent, faces, edges_adj, verts_adj })
}

/// All corners of the mesh are below `np`.
pub open spec fn corners_below(m: TriangleMesh, np: nat) -> bool {
    forall|t: int, k: int| 0 <= t < m.triangles@.len() && 0 <= k < 3 ==> #[trigger] m.triangles@[t].vertices[k] < np
}

/// What a contour records are edges and corners of the mesh, and the
/// triangles it steps from are triangles of the mesh.
pub(crate) proof fn lemma_walk_in_mesh(m: TriangleMesh, flat: Seq<bool>, s: usize, t: usize, k: int, fuel: nat, np: nat)
    requires
        m.well_formed(),
        corners_below(m, np),
        t < m.triangles@.len(),
        0 <= k < 3,
        walk(m, flat, s, t, k, fuel) is Some,
    ensures
        ({
            let r = walk(m, flat, s, t, k, fuel)->0;
            &&& forall|i: int| 0 <= i < r.0.len() ==> (#[trigger] r.0[i]).0 < m.edges@.len() && r.0[i].1 < np
            &&& forall|i: int| 0 <= i < r.1.len() ==> #[trigger] r.1[i] < m.triangles@.len()
        }),
    decreases fuel,
{
    if tri_vertex(m, t, k) != s && fuel > 0 {
        let e = tri_edge(m, t, k);
        assert(m.triangles@[t as int].edges[k] < m.edges@.len());
        assert(m.triangles@[t as int].vertices[k] < np);
        if !flat[e as int] {
            lemma_walk_in_mesh(m, flat, s, t, next3(k), (fuel - 1) as nat, np);
            let r = walk(m, flat, s, t, next3(k), (fuel - 1) as nat)->0;
            let w = walk(m, flat, s, t, k, fuel)->0;
            assert forall|i: int| 0 <= i < w.0.len() implies (#[trigger] w.0[i]).0 < m.edges@.len() && w.0[i].1
                < np by {
                if i > 0 {
                    assert(w.0[i] == r.0[i - 1]);
                }
            }
            assert forall|i: int| 0 <= i < w.1.len() implies #[trigger] w.1[i] < m.triangles@.len() by {
                if i > 0 {
                    assert(w.1[i] == r.1[i - 1]);
                }
            }
        } else {
            let st = cross(m, t, k)->0;
            let t2 = m.edges@[e as int].spec_other_triangle(t as u32) as usize;
            assert(m.edges@[e as int].faces[0] < m.triangles@.len());
            lemma_walk_in_mesh(m, flat, s, st.0, st.1, (fuel - 1) as nat, np);
            let r = walk(m, flat, s, st.0, st.1, (fuel - 1) as nat)->0;
            let w = walk(m, flat, s, t, k, fuel)->0;
            assert forall|i: int| 0 <= i < w.1.len() implies #[trigger] w.1[i] < m.triangles@.len() by {
                if i > 0 {
                    assert(w.1[i] == r.1[i - 1]);
                }
            }
        }
    }
}

/// The state of a successful extraction: the per-face lists have the same
/// length and hold edges and corners of the mesh; the kept faces are runs of
/// at least three entries, in order, without overlap; each face's triangle
/// is a triangle of the mesh; face ids assigned to triangles are at most the
/// number of kept faces.
pub open spec fn extraction_ok(m: TriangleMesh, np: nat, x: Extraction) -> bool {
    &&& x.edges_adj.len() == x.verts_adj.len()
    &&& x.parent.len() == m.triangles@.len()
    &&& forall|p: int| 0 <= p < x.edges_adj.len() ==> #[trigger] x.edges_adj[p] < m.edges@.len()
    &&& forall|p: int| 0 <= p < x.verts_adj.len() ==> #[trigger] x.verts_adj[p] < np
    &&& forall|f: int|
        0 <= f < x.faces.len() ==> (#[trigger] x.faces[f]).first_vertex_or_edge + x.faces[f].num_vertices_or_edges
            <= x.edges_adj.len() && x.faces[f].num_vertices_or_edges >= 3 && x.faces[f].triangle
            < m.triangles@.len()
    &&& forall|f: int|
        0 <= f < x.faces.len() - 1 ==> (#[trigger] x.faces[f]).first_vertex_or_edge
            + x.faces[f].num_vertices_or_edges <= x.faces[f + 1].first_vertex_or_edge
    &&& forall|t: int| 0 <= t < x.parent.len() && (#[trigger] x.parent[t]) is Some ==> x.parent[t]->0 <= x.faces.len()
}

#[verifier::spinoff_prover]
#[verifier::rlimit(30)]
pub(crate) proof fn lemma_extract_ok(m: TriangleMesh, flat: Seq<bool>, np: nat, n: nat)
    requires
        m.well_formed(),
        corners_below(m, np),
        flat.len() == m.edges@.len(),
        n <= m.triangles@.len(),
        m.triangles@.len() <= usize::MAX,
        extract(m, flat, n) is Some,
        extract(m, flat, n)->0.edges_adj.len() <= usize::MAX,
    ensures
        extraction_ok(m, np, extract(m, flat, n)->0),
    decreases n,
{
    if n > 0 {
        let st = extract(m, flat, (n - 1) as nat)->0;
        let i = (n - 1) as usize;
        let x = extract(m, flat, n)->0;
        assert(st.edges_adj.len() <= x.edges_adj.len());
        lemma_extract_ok(m, flat, np, (n - 1) as nat);
        if st.parent[i as int] is None {
            if let Some(j) = first_open_side(m, flat, i) {
                let w = contour(m, flat, i, j)->0;
                assert(tri_edge(m, i, j) < m.edges@.len());
                assert(tri_vertex(m, i, j) < np);
                lemma_walk_in_mesh(m, flat, tri_vertex(m, i, j), i, next3(j), walk_fuel(m), np);
                let ea = st.edges_adj + seq![tri_edge(m, i, j)] + w.0.map_values(|p: (usize, usize)| p.0);
                let va = st.verts_adj + seq![tri_vertex(m, i, j)] + w.0.map_values(|p: (usize, usize)| p.1);
                assert(x.edges_adj == ea);
                assert(x.verts_adj == va);
                assert forall|p: int| 0 <= p < ea.len() implies #[trigger] ea[p] < m.edges@.len() by {
                    if p > st.edges_adj.len() {
                        assert(ea[p] == w.0[p - st.edges_adj.len() - 1].0);
                    }
                }
                assert forall|p: int| 0 <= p < va.len() implies #[trigger] va[p] < np by {
                    if p > st.verts_adj.len() {
                        assert(va[p] == w.0[p - st.verts_adj.len() - 1].1);
                    }
                }
                let fid = st.faces.len() as usize;
                assert forall|t: int| 0 <= t < x.parent.len() && (#[trigger] x.parent[t]) is Some implies x.parent[t]->0
                    <= x.faces.len() by {
                    if !w.1.contains(t as usize) {
                        assert(x.parent[t] == st.parent[t]);
                    }
                }
            }
        }
    }
}

/// Edge `e` runs from corner `a` to corner `b` along a side of a triangle of `m`.
pub open spec fn side_joins(m: TriangleMesh, e: usize, a: usize, b: usize) -> bool {
    exists|t: usize, k: int|
        t < m.triangles@.len() && 0 <= k < 3 && #[trigger] tri_edge(m, t, k) == e && tri_vertex(m, t, k) == a
            && tri_vertex(m, t, next3(k)) == b
}

/// The recorded (edge, corner) pairs form a path from corner `a` to corner
/// `s`: the first pair starts at `a`, and each edge joins its corner to the
/// next pair's corner (to `s` for the last one).
pub open spec fn path_to(m: TriangleMesh, ps: Seq<(usize, usize)>, a: usize, s: usize) -> bool {
    &&& ps.len() == 0 ==> a == s
    &&& ps.len() > 0 ==> ps[0].1 == a
    &&& forall|i: int|
        0 <= i < ps.len() ==> side_joins(
            m,
            (#[trigger] ps[i]).0,
            ps[i].1,
            if i + 1 < ps.len() {
                ps[i + 1].1
            } else {
                s
            },
        )
}

/// A contour is a path from the corner it starts at to the corner it stops at.
pub(crate) proof fn lemma_walk_path(m: TriangleMesh, flat: Seq<bool>, s: usize, t: usize, k: int, fuel: nat)
    requires
        m.well_formed(),
        t < m.triangles@.len(),
        0 <= k < 3,
        walk(m, flat, s, t, k, fuel) is Some,
    ensures
        path_to(m, (walk(m, flat, s, t, k, fuel)->0).0, tri_vertex(m, t, k), s),
    decreases fuel,
{
    if tri_vertex(m, t, k) != s && fuel > 0 {
        let e = tri_edge(m, t, k);
        let v = tri_vertex(m, t, k);
        let w = walk(m, flat, s, t, k, fuel)->0;
        if !flat[e as int] {
            lemma_walk_path(m, flat, s, t, next3(k), (fuel - 1) as nat);
            let r = walk(m, flat, s, t, next3(k), (fuel - 1) as nat)->0;
            assert(w.0 == seq![(e, v)] + r.0);
            assert forall|i: int| 0 <= i < w.0.len() implies side_joins(
                m,
                (#[trigger] w.0[i]).0,
                w.0[i].1,
                if i + 1 < w.0.len() {
                    w.0[i + 1].1
                } else {
                    s
                },
            ) by {
                if i == 0 {
                    let b = if 1 < w.0.len() {
                        w.0[1].1
                    } else {
                        s
                    };
                    if 1 < w.0.len() {
                        assert(w.0[1] == r.0[0]);
                    }
                    assert(tri_edge(m, t, k) == e && tri_vertex(m, t, k) == v && tri_vertex(m, t, next3(k)) == b);
                } else {
                    assert(w.0[i] == r.0[i - 1]);
                    if i + 1 < w.0.len() {
                        assert(w.0[i + 1] == r.0[i]);
                    }
                }
            }
        } else {
            let st = cross(m, t, k)->0;
            assert(m.edges@[e as int].faces[0] < m.triangles@.len());
            lemma_walk_path(m, flat, s, st.0, st.1, (fuel - 1) as nat);
        }
    }
}

/// The boundary of a face is a closed loop: its `r`-th edge joins its `r`-th
/// vertex to the next one, the last edge joining back to the first vertex.
pub open spec fn boundary_closed(m: TriangleMesh, ea: Seq<usize>, va: Seq<usize>, fc: Face) -> bool {
    forall|r: int|
        0 <= r < fc.num_vertices_or_edges ==> side_joins(
            m,
            #[trigger] ea[fc.first_vertex_or_edge + r],
            va[fc.first_vertex_or_edge + r],
            va[fc.first_vertex_or_edge + if r + 1 < fc.num_vertices_or_edges {
                r + 1
            } else {
                0
            }],
        )
}

#[verifier::spinoff_prover]
#[verifier::rlimit(30)]
proof fn lemma_extract_closed(m: TriangleMesh, flat: Seq<bool>, n: nat)
    requires
        m.well_formed(),
        flat.len() == m.edges@.len(),
        n <= m.triangles@.len(),
        m.triangles@.len() <= usize::MAX,
        extract(m, flat, n) is Some,
        extract(m, flat, n)->0.edges_adj.len() <= usize::MAX,
    ensures
        ({
            let x = extract(m, flat, n)->0;
            &&& x.edges_adj.len() == x.verts_adj.len()
            &&& forall|f: int|
                0 <= f < x.faces.len() ==> (#[trigger] x.faces[f]).first_vertex_or_edge
                    + x.faces[f].num_vertices_or_edges <= x.edges_adj.len()
            &&& forall|f: int|
                0 <= f < x.faces.len() ==> boundary_closed(m, x.edges_adj, x.verts_adj, #[trigger] x.faces[f])
        }),
    decreases n,
{
    if n > 0 {
        let st = extract(m, flat, (n - 1) as nat)->0;
        let i = (n - 1) as usize;
        let x = extract(m, flat, n)->0;
        assert(st.edges_adj.len() <= x.edges_adj.len());
        lemma_extract_closed(m, flat, (n - 1) as nat);
        if st.parent[i as int] is None {
            if let Some(j) = first_open_side(m, flat, i) {
                let w = contour(m, flat, i, j)->0;
                let e0 = tri_edge(m, i, j);
                let s = tri_vertex(m, i, j);
                lemma_walk_path(m, flat, s, i, next3(j), walk_fuel(m));
                let base: int = st.edges_adj.len() as int;
                let ea = st.edges_adj + seq![e0] + w.0.map_values(|p: (usize, usize)| p.0);
                let va = st.verts_adj + seq![s] + w.0.map_values(|p: (usize, usize)| p.1);
                assert(x.edges_adj == ea);
                assert(x.verts_adj == va);
                assert forall|f: int| 0 <= f < x.faces.len() implies boundary_closed(
                    m,
                    ea,
                    va,
                    #[trigger] x.faces[f],
                ) by {
                    let fc = x.faces[f];
                    if f < st.faces.len() {
                        assert(fc == st.faces[f]);
                        assert(boundary_closed(m, st.edges_adj, st.verts_adj, fc));
                        assert forall|r: int| 0 <= r < fc.num_vertices_or_edges implies side_joins(
                            m,
                            #[trigger] ea[fc.first_vertex_or_edge + r],
                            va[fc.first_vertex_or_edge + r],
                            va[fc.first_vertex_or_edge + if r + 1 < fc.num_vertices_or_edges {
                                r + 1
                            } else {
                                0
                            }],
                        ) by {
                            assert(ea[fc.first_vertex_or_edge + r] == st.edges_adj[fc.first_vertex_or_edge + r]);
                        }
                    } else {
                        let nn = 1 + w.0.len();
                        assert(fc.first_vertex_or_edge == base);
                        assert(fc.num_vertices_or_edges == nn);
                        assert forall|r: int| 0 <= r < nn implies side_joins(
                            m,
                            #[trigger] ea[base + r],
                            va[base + r],
                            va[base + if r + 1 < nn {
                                r + 1
                            } else {
                                0
                            }],
                        ) by {
                            assert(va[base] == s);
                            if r == 0 {
                                assert(ea[base] == e0);
                                if 1 < nn {
                                    assert(va[base + 1] == w.0[0].1);
                                }
                                assert(tri_edge(m, i, j) == e0 && tri_vertex(m, i, j) == s && tri_vertex(
                                    m,
                                    i,
                                    next3(j),
                                ) == va[base + if 1 < nn {
                                    1int
                                } else {
                                    0int
                                }]);
                            } else {
                                assert(ea[base + r] == w.0[r - 1].0);
                                assert(va[base + r] == w.0[r - 1].1);
                                if r + 1 < nn {
                                    assert(va[base + r + 1] == w.0[r].1);
                                }
                                assert(side_joins(
                                    m,
                                    w.0[r - 1].0,
                                    w.0[r - 1].1,
                                    if r < w.0.len() {
                                        w.0[r].1
                                    } else {
                                        s
                                    },
                                ));
                            }
                        }
                    }
                }
            }
        }
    }
}

/// Every face that extraction keeps is bounded by a closed loop of edges:
/// its `r`-th edge lies on a triangle side from its `r`-th vertex to the next
/// one, and the last edge leads back to the first vertex.
pub proof fn lemma_face_boundaries_closed(m: TriangleMesh, flat: Seq<bool>)
    requires
        m.well_formed(),
        flat.len() == m.edges@.len(),
        m.triangles@.len() <= usize::MAX,
        m.triangles@.len() <= usize::MAX,
        extraction(m, flat) is Some,
        extraction(m, flat)->0.edges_adj.len() <= usize::MAX,
    ensures
        ({
            let x = extraction(m, flat)->0;
            forall|f: int| 0 <= f < x.faces.len() ==> boundary_closed(m, x.edges_adj, x.verts_adj, #[trigger] x.faces[f])
        }),
{
    lemma_extract_closed(m, flat, m.triangles@.len());
}

/// A contour records only edges that are not flat.
proof fn lemma_walk_open(m: TriangleMesh, flat: Seq<bool>, s: usize, t: usize, k: int, fuel: nat)
    requires
        walk(m, flat, s, t, k, fuel) is Some,
    ensures
        forall|i: int|
            0 <= i < (walk(m, flat, s, t, k, fuel)->0).0.len() ==> !flat[(#[trigger] (walk(m, flat, s, t, k, fuel)->0).0[i]).0 as int],
    decreases fuel,
{
    if tri_vertex(m, t, k) != s && fuel > 0 {
        let e = tri_edge(m, t, k);
        let w = walk(m, flat, s, t, k, fuel)->0;
        if !flat[e as int] {
            lemma_walk_open(m, flat, s, t, next3(k), (fuel - 1) as nat);
            let r = walk(m, flat, s, t, next3(k), (fuel - 1) as nat)->0;
            assert forall|i: int| 0 <= i < w.0.len() implies !flat[(#[trigger] w.0[i]).0 as int] by {
                if i > 0 {
                    assert(w.0[i] == r.0[i - 1]);
                }
            }
        } else {
            let st = cross(m, t, k)->0;
            lemma_walk_open(m, flat, s, st.0, st.1, (fuel - 1) as nat);
        }
    }
}

/// No edge on the boundary of a face is flat.
pub open spec fn boundary_open(flat: Seq<bool>, ea: Seq<usize>, fc: Face) -> bool {
    forall|r: int| 0 <= r < fc.num_vertices_or_edges ==> !flat[#[trigger] ea[fc.first_vertex_or_edge + r] as int]
}

#[verifier::spinoff_prover]
#[verifier::rlimit(30)]
proof fn lemma_extract_open(m: TriangleMesh, flat: Seq<bool>, n: nat)
    requires
        m.well_formed(),
        flat.len() == m.edges@.len(),
        n <= m.triangles@.len(),
        m.triangles@.len() <= usize::MAX,
        extract(m, flat, n) is Some,
        extract(m, flat, n)->0.edges_adj.len() <= usize::MAX,
    ensures
        ({
            let x = extract(m, flat, n)->0;
            &&& forall|f: int|
                0 <= f < x.faces.len() ==> (#[trigger] x.faces[f]).first_vertex_or_edge
                    + x.faces[f].num_vertices_or_edges <= x.edges_adj.len()
            &&& forall|f: int| 0 <= f < x.faces.len() ==> boundary_open(flat, x.edges_adj, #[trigger] x.faces[f])
        }),
    decreases n,
{
    if n > 0 {
        let st = extract(m, flat, (n - 1) as nat)->0;
        let i = (n - 1) as usize;
        let x = extract(m, flat, n)->0;
        assert(st.edges_adj.len() <= x.edges_adj.len());
        lemma_extract_open(m, flat, (n - 1) as nat);
        if st.parent[i as int] is None {
            if let Some(j) = first_open_side(m, flat, i) {
                let w = contour(m, flat, i, j)->0;
                let e0 = tri_edge(m, i, j);
                lemma_walk_open(m, flat, tri_vertex(m, i, j), i, next3(j), walk_fuel(m));
                let base: int = st.edges_adj.len() as int;
                let ea = st.edges_adj + seq![e0] + w.0.map_values(|p: (usize, usize)| p.0);
                assert(x.edges_adj == ea);
                assert forall|f: int| 0 <= f < x.faces.len() implies boundary_open(flat, ea, #[trigger] x.faces[f]) by {
                    let fc = x.faces[f];
                    if f < st.faces.len() {
                        assert(fc == st.faces[f]);
                        assert(boundary_open(flat, st.edges_adj, fc));
                        assert forall|r: int| 0 <= r < fc.num_vertices_or_edges implies !flat[#[trigger] ea[fc.first_vertex_or_edge
                            + r] as int] by {
                            assert(ea[fc.first_vertex_or_edge + r] == st.edges_adj[fc.first_vertex_or_edge + r]);
                        }
                    } else {
                        assert(fc.first_vertex_or_edge == base);
                        assert forall|r: int| 0 <= r < fc.num_vertices_or_edges implies !flat[#[trigger] ea[base + r] as int] by {
                            if r > 0 {
                                assert(ea[base + r] == w.0[r - 1].0);
                            }
                        }
                    }
                }
            }
        }
    }
}

/// No edge on the boundary of a face that extraction keeps is flat.
pub proof fn lemma_face_edges_not_flat(m: TriangleMesh, flat: Seq<bool>)
    requires
        m.well_formed(),
        flat.len() == m.edges@.len(),
        m.triangles@.len() <= usize::MAX,
        m.triangles@.len() <= usize::MAX,
        extraction(m, flat) is Some,
        extraction(m, flat)->0.edges_adj.len() <= usize::MAX,
    ensures
        ({
            let x = extraction(m, flat)->0;
            forall|f: int| 0 <= f < x.faces.len() ==> boundary_open(flat, x.edges_adj, #[trigger] x.faces[f])
        }),
{
    lemma_extract_open(m, flat, m.triangles@.len());
}

/// Triangles `a` and `b` are the same or share a flat edge.
pub open spec fn flat_neighbours(m: TriangleMesh, flat: Seq<bool>, a: usize, b: usize) -> bool {
    a == b || exists|k: int|
        0 <= k < 3 && flat[#[trigger] tri_edge(m, a, k) as int] && m.triangles@[b as int].edge_slot(tri_edge(m, a, k))
            is Some
}

/// The triangles a contour steps from form a chain that starts at its first
/// triangle and goes on only through shared flat edges.
pub open spec fn flat_chain(m: TriangleMesh, flat: Seq<bool>, t: usize, vs: Seq<usize>) -> bool {
    &&& vs.len() > 0 ==> vs[0] == t
    &&& forall|i: int| 0 <= i < vs.len() - 1 ==> flat_neighbours(m, flat, #[trigger] vs[i], vs[i + 1])
}

proof fn lemma_walk_flat_chain(m: TriangleMesh, flat: Seq<bool>, s: usize, t: usize, k: int, fuel: nat)
    requires
        0 <= k < 3,
        walk(m, flat, s, t, k, fuel) is Some,
    ensures
        flat_chain(m, flat, t, (walk(m, flat, s, t, k, fuel)->0).1),
    decreases fuel,
{
    if tri_vertex(m, t, k) != s && fuel > 0 {
        let e = tri_edge(m, t, k);
        let w = walk(m, flat, s, t, k, fuel)->0;
        let (t2, k2) = if !flat[e as int] {
            (t, next3(k))
        } else {
            cross(m, t, k)->0
        };
        lemma_walk_flat_chain(m, flat, s, t2, k2, (fuel - 1) as nat);
        let r = walk(m, flat, s, t2, k2, (fuel - 1) as nat)->0;
        assert(w.1 == seq![t] + r.1);
        assert forall|i: int| 0 <= i < w.1.len() - 1 implies flat_neighbours(m, flat, #[trigger] w.1[i], w.1[i + 1]) by {
            if i == 0 {
                if r.1.len() > 0 {
                    assert(w.1[1] == r.1[0]);
                    assert(r.1[0] == t2);
                    if flat[e as int] {
                        assert(0 <= k < 3 && flat[tri_edge(m, t, k) as int] && m.triangles@[t2 as int].edge_slot(
                            tri_edge(m, t, k),
                        ) is Some);
                    }
                }
            } else {
                assert(w.1[i] == r.1[i - 1]);
                assert(w.1[i + 1] == r.1[i]);
            }
        }
    }
}

/// The triangles that the contour from side `j` of triangle `t` assigns to
/// a face are joined to `t` across flat edges: they form a chain from `t`
/// in which consecutive triangles are the same or share a flat edge.
pub proof fn lemma_contour_flat_chain(m: TriangleMesh, flat: Seq<bool>, t: usize, j: int)
    requires
        0 <= j < 3,
        contour(m, flat, t, j) is Some,
    ensures
        flat_chain(m, flat, t, (contour(m, flat, t, j)->0).1),
{
    lemma_walk_flat_chain(m, flat, tri_vertex(m, t, j), t, next3(j), walk_fuel(m));
}


/// Whether the three corners of triangle `t` are distinct.
pub open spec fn corners_distinct(m: TriangleMesh, t: usize) -> bool {
    &&& tri_vertex(m, t, 0) != tri_vertex(m, t, 1)
    &&& tri_vertex(m, t, 1) != tri_vertex(m, t, 2)
    &&& tri_vertex(m, t, 2) != tri_vertex(m, t, 0)
}

/// Whether side `j` of triangle `t` is not flat while every side before it is.
pub open spec fn opens_first(m: TriangleMesh, flat: Seq<bool>, t: usize, j: int) -> bool {
    &&& 0 <= j < 3
    &&& !flat[tri_edge(m, t, j) as int]
    &&& forall|k: int| 0 <= k < j ==> flat[#[trigger] tri_edge(m, t, k) as int]
}

/// Whether face `fc`, recorded in `x`, begins with the first side of its
/// triangle whose edge is not flat: that side's edge and start corner are the
/// first entries of its edge and vertex lists.
pub open spec fn starts_at_first_open_side(m: TriangleMesh, flat: Seq<bool>, x: Extraction, fc: Face) -> bool {
    &&& fc.triangle < m.triangles@.len()
    &&& fc.first_vertex_or_edge < x.edges_adj.len()
    &&& fc.first_vertex_or_edge < x.verts_adj.len()
    &&& exists|j: int|
        #[trigger] opens_first(m, flat, fc.triangle, j) && x.edges_adj[fc.first_vertex_or_edge as int] == tri_edge(
            m,
            fc.triangle,
            j,
        ) && x.verts_adj[fc.first_vertex_or_edge as int] == tri_vertex(m, fc.triangle, j)
}

proof fn lemma_extract_complete(m: TriangleMesh, flat: Seq<bool>, n: nat)
    requires
        n <= m.triangles@.len(),
        m.triangles@.len() <= usize::MAX,
        extract(m, flat, n) is Some,
        extract(m, flat, n)->0.edges_adj.len() <= usize::MAX,
    ensures
        ({
            let st = extract(m, flat, n)->0;
            &&& st.parent.len() == m.triangles@.len()
            &&& st.edges_adj.len() == st.verts_adj.len()
            &&& forall|t: int, k: int|
                0 <= t < n && 0 <= k < 3 && corners_distinct(m, t as usize) && !flat[#[trigger] tri_edge(
                    m,
                    t as usize,
                    k,
                ) as int] ==> st.parent[t] is Some
            &&& forall|f: int| 0 <= f < st.faces.len() ==> #[trigger] starts_at_first_open_side(m, flat, st, st.faces[f])
        }),
    decreases n,
{
    if n > 0 {
        let i = (n - 1) as usize;
        let st = extract(m, flat, (n - 1) as nat)->0;
        let nx = extract(m, flat, n)->0;
        assert(process(m, flat, st, i) == Some(nx));
        assert(st.edges_adj.len() <= nx.edges_adj.len());
        lemma_extract_complete(m, flat, (n - 1) as nat);
        if st.parent[i as int] is None {
            if let Some(j) = first_open_side(m, flat, i) {
                let w = contour(m, flat, i, j)->0;
                let fid = st.faces.len() as usize;
                assert(opens_first(m, flat, i, j));
                assert(st.edges_adj.is_prefix_of(nx.edges_adj));
                assert(st.verts_adj.is_prefix_of(nx.verts_adj));
                assert(nx.edges_adj[st.edges_adj.len() as int] == tri_edge(m, i, j));
                assert(nx.verts_adj[st.verts_adj.len() as int] == tri_vertex(m, i, j));
                assert forall|f: int| 0 <= f < nx.faces.len() implies #[trigger] starts_at_first_open_side(
                    m,
                    flat,
                    nx,
                    nx.faces[f],
                ) by {
                    if f < st.faces.len() {
                        assert(nx.faces[f] == st.faces[f]);
                        assert(starts_at_first_open_side(m, flat, st, st.faces[f]));
                        let fc = st.faces[f];
                        let jj = choose|jj: int|
                            #[trigger] opens_first(m, flat, fc.triangle, jj) && st.edges_adj[fc.first_vertex_or_edge as int]
                                == tri_edge(m, fc.triangle, jj) && st.verts_adj[fc.first_vertex_or_edge as int]
                                == tri_vertex(m, fc.triangle, jj);
                        assert(nx.edges_adj[fc.first_vertex_or_edge as int] == st.edges_adj[fc.first_vertex_or_edge as int]);
                        assert(nx.verts_adj[fc.first_vertex_or_edge as int] == st.verts_adj[fc.first_vertex_or_edge as int]);
                        assert(opens_first(m, flat, fc.triangle, jj) && nx.edges_adj[fc.first_vertex_or_edge as int]
                            == tri_edge(m, fc.triangle, jj) && nx.verts_adj[fc.first_vertex_or_edge as int]
                            == tri_vertex(m, fc.triangle, jj));
                    } else {
                        let fc = nx.faces[f];
                        assert(fc.first_vertex_or_edge == st.edges_adj.len());
                        assert(fc.triangle == i);
                        assert(st.edges_adj.len() == st.verts_adj.len());
                        assert(opens_first(m, flat, fc.triangle, j) && nx.edges_adj[fc.first_vertex_or_edge as int]
                            == tri_edge(m, fc.triangle, j) && nx.verts_adj[fc.first_vertex_or_edge as int]
                            == tri_vertex(m, fc.triangle, j));
                    }
                }
                assert forall|t: int, k: int|
                    0 <= t < n && 0 <= k < 3 && corners_distinct(m, t as usize) && !flat[#[trigger] tri_edge(
                        m,
                        t as usize,
                        k,
                    ) as int] implies nx.parent[t] is Some by {
                    if t == n - 1 {
                        let s = tri_vertex(m, i, j);
                        assert(tri_vertex(m, i, next3(j)) != s);
                        assert(w.1[0] == i);
                        assert(w.1.contains(i));
                    } else {
                        assert(0 <= t < n - 1);
                        assert(!flat[tri_edge(m, t as usize, k) as int]);
                        assert(st.parent[t] is Some);
                    }
                }
            } else {
                assert(nx == st);
                assert forall|t: int, k: int|
                    0 <= t < n && 0 <= k < 3 && corners_distinct(m, t as usize) && !flat[#[trigger] tri_edge(
                        m,
                        t as usize,
                        k,
                    ) as int] implies nx.parent[t] is Some by {
                    if t == n - 1 {
                        assert(flat[tri_edge(m, i, 0) as int]);
                        assert(flat[tri_edge(m, i, 1) as int]);
                        assert(flat[tri_edge(m, i, 2) as int]);
                    } else {
                        assert(0 <= t < n - 1);
                    }
                }
            }
        } else {
            assert(nx == st);
            assert forall|t: int, k: int|
                0 <= t < n && 0 <= k < 3 && corners_distinct(m, t as usize) && !flat[#[trigger] tri_edge(
                    m,
                    t as usize,
                    k,
                ) as int] implies nx.parent[t] is Some by {
                if t != n - 1 {
                    assert(0 <= t < n - 1);
                }
            }
        }
    } else {
        assert(extract(m, flat, 0)->0.parent.len() == m.triangles@.len());
    }
}

/// Face extraction leaves out no triangle that has a side on a face and
/// starts each face where its triangle first opens: every triangle with three
/// distinct corners and a side whose edge is not flat is assigned a face, and
/// each kept face begins with the first side of its triangle whose edge is
/// not flat.
pub proof fn lemma_extraction_complete(m: TriangleMesh, flat: Seq<bool>)
    requires
        m.triangles@.len() <= usize::MAX,
        extraction(m, flat) is Some,
        extraction(m, flat)->0.edges_adj.len() <= usize::MAX,
    ensures
        ({
            let x = extraction(m, flat)->0;
            &&& forall|t: int, k: int|
                0 <= t < m.triangles@.len() && 0 <= k < 3 && corners_distinct(m, t as usize) && !flat[#[trigger] tri_edge(
                    m,
                    t as usize,
                    k,
                ) as int] ==> x.parent[t] is Some
            &&& forall|f: int| 0 <= f < x.faces.len() ==> #[trigger] starts_at_first_open_side(m, flat, x, x.faces[f])
        }),
{
    lemma_extract_complete(m, flat, m.triangles@.len());
}

} // verus!
