use vstd::prelude::*;
use std::collections::HashMap;
use crate::pair::{SortedPair, sorted, pair_code, lemma_pair_code_injective};

verus! {

broadcast use vstd::std_specs::hash::group_hash_axioms;

/// An edge shared by triangles of the mesh.
///
/// `vertices` are the two endpoints as they appeared (in that order) on the
/// first triangle side that named the edge; `faces[0]` is the triangle of that
/// side and `faces[1]` the triangle of the last other side that named it (0
/// when no other side did). Once faces are extracted, `faces` name faces and
/// `deleted` tells whether the edge lies inside a face.
#[derive(Clone, Copy, PartialEq, Debug)]
pub struct Edge {
    pub vertices: [u32; 2],
    pub faces: [u32; 2],
    pub deleted: bool,
}

/// A triangle of the index buffer: its three vertices, and for each side
/// `k` (from `vertices[k]` to `vertices[(k + 1) % 3]`) the edge it lies on.
#[derive(Clone, Copy, PartialEq, Debug)]
pub struct Triangle {
    pub vertices: [usize; 3],
    pub edges: [usize; 3],
}

/// Triangles and edges built from an index buffer.
///
/// Sides are numbered in buffer order: side `p` belongs to triangle `p / 3`
/// and goes from `indices[p]` to the next corner of that triangle.
/// `origins[e]` is the first side that named edge `e`, `lasts[e]` the last one.
#[derive(Clone)]
pub struct TriangleMesh {
    pub triangles: Vec<Triangle>,
    pub edges: Vec<Edge>,
    pub origins: Ghost<Seq<int>>,
    pub lasts: Ghost<Seq<int>>,
}

/// The position, within its triangle, of the corner that follows corner `k`.
pub open spec fn next3(k: int) -> int {
    if k == 2 { 0 } else { k + 1 }
}

/// Start vertex of side `p` of an index buffer.
pub open spec fn side_tail(ind: Seq<usize>, p: int) -> usize {
    ind[p]
}

/// End vertex of side `p` of an index buffer.
pub open spec fn side_head(ind: Seq<usize>, p: int) -> usize {
    ind[p - p % 3 + next3(p % 3)]
}

/// The unordered pair of vertices of side `p`.
pub open spec fn side_key(ind: Seq<usize>, p: int) -> (usize, usize) {
    sorted(side_tail(ind, p), side_head(ind, p))
}

/// The triangle id stored in an edge record (32 bits, truncating).
pub open spec fn tri_id(t: usize) -> u32 {
    t as u32
}

/// Truncating an index to 32 bits never makes it larger.
pub(crate) proof fn lemma_truncate_le(x: usize)
    ensures
        (x as u32) as int <= x,
{
    assert((x as u32) as usize <= x) by (bit_vector);
}

impl Edge {
    /// The triangle (or face) on the other side of this edge, seen from `id`.
    pub open spec fn spec_other_triangle(self, id: u32) -> u32 {
        if id == self.faces[0] {
            self.faces[1]
        } else {
            self.faces[0]
        }
    }

    /// Returns `faces[1]` when `id` is `faces[0]`, and `faces[0]` otherwise.
    pub fn other_triangle(&self, id: u32) -> (res: u32)
        ensures
            res == self.spec_other_triangle(id),
    {
        if id == self.faces[0] {
            self.faces[1]
        } else {
            self.faces[0]
        }
    }
}

impl Triangle {
    /// The first side of this triangle that lies on edge `id`, if any.
    pub open spec fn edge_slot(self, id: usize) -> Option<int> {
        if self.edges[0] == id {
            Some(0)
        } else if self.edges[1] == id {
            Some(1)
        } else if self.edges[2] == id {
            Some(2)
        } else {
            None
        }
    }

    /// The first side of this triangle that lies on edge `id`, if any.
    pub fn find_edge_slot(&self, id: usize) -> (res: Option<usize>)
        ensures
            match self.edge_slot(id) {
                None => res is None,
                Some(k) => res == Some(k as usize),
            },
    {
        if self.edges[0] == id {
            Some(0)
        } else if self.edges[1] == id {
            Some(1)
        } else if self.edges[2] == id {
            Some(2)
        } else {
            None
        }
    }

    /// Whether one of the sides of this triangle lies on edge `id`.
    pub fn has_edge(&self, id: usize) -> (res: bool)
        ensures
            res == self.edge_slot(id) is Some,
    {
        self.edges[0] == id || self.edges[1] == id || self.edges[2] == id
    }

    /// The corner that follows the first side lying on edge `id`, that is,
    /// the index of the side after it.
    pub fn next_edge_id(&self, id: usize) -> (res: usize)
        requires
            self.edge_slot(id) is Some,
        ensures
            res == next3(self.edge_slot(id)->0),
    {
        let mut i: usize = 0;
        while i < 3
            invariant
                0 <= i <= 3,
                forall|j: int| 0 <= j < i ==> self.edges[j] != id,
                self.edge_slot(id) is Some,
            decreases 3 - i,
        {
            if self.edges[i] == id {
                return if i == 2 { 0 } else { i + 1 };
            }
            i = i + 1;
        }
        0
    }
}

impl TriangleMesh {
    /// Edge id recorded for side `p`.
    pub open spec fn side_edge(self, p: int) -> usize {
        self.triangles@[p / 3].edges[p % 3]
    }

    /// Every side names an existing edge, and every edge names existing triangles.
    pub open spec fn well_formed(self) -> bool {
        let nt = self.triangles@.len();
        let ne = self.edges@.len();
        &&& forall|t: int, k: int| 0 <= t < nt && 0 <= k < 3 ==> #[trigger] self.triangles@[t].edges[k] < ne
        &&& forall|e: int|
            0 <= e < ne ==> (#[trigger] self.edges@[e]).faces[0] < nt && self.edges@[e].faces[1] < nt
    }

    /// A mesh built from an index buffer is well formed.
    pub proof fn lemma_built_well_formed(self, ind: Seq<usize>)
        requires
            self.built_from(ind),
            ind.len() <= usize::MAX,
        ensures
            self.well_formed(),
    {
        let nt = self.triangles@.len();
        assert forall|t: int, k: int| 0 <= t < nt && 0 <= k < 3 implies #[trigger] self.triangles@[t].edges[k]
            < self.edges@.len() by {
            let p = 3 * t + k;
            assert(p / 3 == t && p % 3 == k);
            assert(self.side_edge(p) < self.edges@.len());
        }
        assert forall|e: int| 0 <= e < self.edges@.len() implies (#[trigger] self.edges@[e]).faces[0] < nt
            && self.edges@[e].faces[1] < nt by {
            let o = self.origins@[e];
            let l = self.lasts@[e];
            assert(0 <= o <= l < 3 * nt);
            lemma_truncate_le((o / 3) as usize);
            lemma_truncate_le((l / 3) as usize);
        }
    }

    /// The mesh is the one that `ind` describes: one triangle per three
    /// indices, one edge per distinct unordered vertex pair of a side,
    /// numbered in the order of their first side.
    pub open spec fn built_from(self, ind: Seq<usize>) -> bool {
        let nt = ind.len() / 3;
        let ne = self.edges@.len();
        let o = self.origins@;
        let l = self.lasts@;
        &&& self.triangles@.len() == nt
        &&& o.len() == ne
        &&& l.len() == ne
        &&& forall|t: int, k: int|
            0 <= t < nt && 0 <= k < 3 ==> #[trigger] self.triangles@[t].vertices[k] == ind[3 * t + k]
        &&& forall|p: int|
            0 <= p < 3 * nt ==> {
                &&& #[trigger] self.side_edge(p) < ne
                &&& o[self.side_edge(p) as int] <= p <= l[self.side_edge(p) as int]
                &&& side_key(ind, o[self.side_edge(p) as int]) == side_key(ind, p)
            }
        &&& forall|e: int|
            0 <= e < ne ==> {
                &&& 0 <= #[trigger] o[e] <= l[e] < 3 * nt
                &&& self.side_edge(o[e]) == e
                &&& self.side_edge(l[e]) == e
            }
        &&& forall|e1: int, e2: int| 0 <= e1 < e2 < ne ==> #[trigger] o[e1] < #[trigger] o[e2]
        &&& forall|e1: int, e2: int|
            0 <= e1 < ne && 0 <= e2 < ne && e1 != e2 ==> side_key(ind, #[trigger] o[e1])
                != side_key(ind, #[trigger] o[e2])
        &&& forall|e: int, p: int|
            #![trigger self.side_edge(p), l[e]]
            0 <= e < ne && l[e] < p < 3 * nt ==> self.side_edge(p) != e
        &&& forall|e: int|
            0 <= e < ne ==> {
                let ed = #[trigger] self.edges@[e];
                &&& ed.vertices[0] == side_tail(ind, o[e]) as u32
                &&& ed.vertices[1] == side_head(ind, o[e]) as u32
                &&& ed.faces[0] == tri_id((o[e] / 3) as usize)
                &&& ed.faces[1] == if l[e] == o[e] { 0u32 } else { tri_id((l[e] / 3) as usize) }
                &&& !ed.deleted
            }
    }

    /// Builds the triangles of `indices` (three per triangle) and the edges
    /// between them, looking each side's vertex pair up in a hash map.
    #[verifier::spinoff_prover]
    #[verifier::rlimit(40)]
    pub fn from_indices(indices: &[usize]) -> (mesh: TriangleMesh)
        requires
            indices@.len() % 3 == 0,
        ensures
            mesh.built_from(indices@),
            mesh.well_formed(),
    {
        let n = indices.len();
        let nt = n / 3;
        let mut triangles: Vec<Triangle> = Vec::new();
        let mut edges: Vec<Edge> = Vec::new();
        let mut edge_map: HashMap<u128, usize> = HashMap::new();
        let ghost ind = indices@;
        let ghost mut ids: Seq<usize> = Seq::empty();
        let ghost mut o: Seq<int> = Seq::empty();
        let ghost mut l: Seq<int> = Seq::empty();
        let mut t: usize = 0;
        while t < nt
            invariant
                nt == n / 3,
                n == ind.len(),
                ind == indices@,
                t <= nt,
                ids.len() == 3 * t,
                triangles@.len() == t,
                o.len() == edges@.len(),
                l.len() == edges@.len(),
                forall|t2: int, k: int|
                    0 <= t2 < t && 0 <= k < 3 ==> #[trigger] triangles@[t2].vertices[k] == ind[3 * t2 + k],
                forall|t2: int, k: int|
                    0 <= t2 < t && 0 <= k < 3 ==> #[trigger] triangles@[t2].edges[k] == ids[3 * t2 + k],
                forall|p: int|
                    0 <= p < ids.len() ==> {
                        &&& #[trigger] ids[p] < edges@.len()
                        &&& o[ids[p] as int] <= p <= l[ids[p] as int]
                        &&& side_key(ind, o[ids[p] as int]) == side_key(ind, p)
                    },
                forall|e: int|
                    0 <= e < edges@.len() ==> {
                        &&& 0 <= #[trigger] o[e] <= l[e] < ids.len()
                        &&& ids[o[e]] == e
                        &&& ids[l[e]] == e
                        &&& edge_map@.contains_key(pair_code(side_key(ind, o[e])))
                        &&& edge_map@[pair_code(side_key(ind, o[e]))] == e
                    },
                forall|c: u128|
                    #[trigger] edge_map@.contains_key(c) ==> exists|e: int|
                        0 <= e < edges@.len() && c == pair_code(side_key(ind, #[trigger] o[e])),
                forall|e1: int, e2: int| 0 <= e1 < e2 < edges@.len() ==> #[trigger] o[e1] < #[trigger] o[e2],
                forall|e: int, p: int|
                    #![trigger ids[p], l[e]]
                    0 <= e < edges@.len() && l[e] < p < ids.len() ==> ids[p] != e,
                forall|e: int|
                    0 <= e < edges@.len() ==> {
                        let ed = #[trigger] edges@[e];
                        &&& ed.vertices[0] == side_tail(ind, o[e]) as u32
                        &&& ed.vertices[1] == side_head(ind, o[e]) as u32
                        &&& ed.faces[0] == tri_id((o[e] / 3) as usize)
                        &&& ed.faces[1] == if l[e] == o[e] { 0u32 } else { tri_id((l[e] / 3) as usize) }
                        &&& !ed.deleted
                    },
            decreases nt - t,
        {
            let mut edges_id: [usize; 3] = [0, 0, 0];
            let mut i1: usize = 0;
            while i1 < 3
                invariant
                    nt == n / 3,
                    n == ind.len(),
                    ind == indices@,
                    t < nt,
                    i1 <= 3,
                    ids.len() == 3 * t + i1,
                    triangles@.len() == t,
                    o.len() == edges@.len(),
                    l.len() == edges@.len(),
                    forall|t2: int, k: int|
                        0 <= t2 < t && 0 <= k < 3 ==> #[trigger] triangles@[t2].vertices[k] == ind[3 * t2 + k],
                    forall|t2: int, k: int|
                        0 <= t2 < t && 0 <= k < 3 ==> #[trigger] triangles@[t2].edges[k] == ids[3 * t2 + k],
                    forall|k: int| 0 <= k < i1 ==> #[trigger] edges_id[k] == ids[3 * t + k],
                    forall|p: int|
                        0 <= p < ids.len() ==> {
                            &&& #[trigger] ids[p] < edges@.len()
                            &&& o[ids[p] as int] <= p <= l[ids[p] as int]
                            &&& side_key(ind, o[ids[p] as int]) == side_key(ind, p)
                        },
                    forall|e: int|
                        0 <= e < edges@.len() ==> {
                            &&& 0 <= #[trigger] o[e] <= l[e] < ids.len()
                            &&& ids[o[e]] == e
                            &&& ids[l[e]] == e
                            &&& edge_map@.contains_key(pair_code(side_key(ind, o[e])))
                            &&& edge_map@[pair_code(side_key(ind, o[e]))] == e
                        },
                    forall|c: u128|
                        #[trigger] edge_map@.contains_key(c) ==> exists|e: int|
                            0 <= e < edges@.len() && c == pair_code(side_key(ind, #[trigger] o[e])),
                    forall|e1: int, e2: int| 0 <= e1 < e2 < edges@.len() ==> #[trigger] o[e1] < #[trigger] o[e2],
                    forall|e: int, p: int|
                        #![trigger ids[p], l[e]]
                    0 <= e < edges@.len() && l[e] < p < ids.len() ==> ids[p] != e,
                    forall|e: int|
                        0 <= e < edges@.len() ==> {
                            let ed = #[trigger] edges@[e];
                            &&& ed.vertices[0] == side_tail(ind, o[e]) as u32
                            &&& ed.vertices[1] == side_head(ind, o[e]) as u32
                            &&& ed.faces[0] == tri_id((o[e] / 3) as usize)
                            &&& ed.faces[1] == if l[e] == o[e] { 0u32 } else { tri_id((l[e] / 3) as usize) }
                            &&& !ed.deleted
                        },
                decreases 3 - i1,
            {
                let i2: usize = if i1 == 2 { 0 } else { i1 + 1 };
                assert(3 * t + 3 <= n) by (nonlinear_arith)
                    requires
                        t < nt,
                        nt == n / 3,
                ;
                let base: usize = 3 * t;
                let a = indices[base + i1];
                let b = indices[base + i2];
                let ghost p: int = 3 * t + i1;
                assert(p % 3 == i1 && p - p % 3 == base);
                assert(a == side_tail(ind, p) && b == side_head(ind, p));
                let key = SortedPair::new(a, b).code();
                assert(key == pair_code(side_key(ind, p)));
                let found = edge_map.get(&key);
                match found {
                    Some(id_ref) => {
                        let id: usize = *id_ref;
                        proof {
                            let e = choose|e: int|
                                0 <= e < edges@.len() && key == pair_code(side_key(ind, #[trigger] o[e]));
                            lemma_pair_code_injective(side_key(ind, o[e]), side_key(ind, p));
                            assert(e == id);
                        }
                        edges_id[i1] = id;
                        let mut ed = edges[id];
                        ed.faces[1] = #[verifier::truncate] (t as u32);
                        edges.set(id, ed);
                        proof {
                            let l0 = l;
                            let ids0 = ids;
                            l = l.update(id as int, p);
                            ids = ids.push(id);
                            assert forall|e: int| 0 <= e < edges@.len() implies {
                                &&& 0 <= #[trigger] o[e] <= l[e] < ids.len()
                                &&& ids[o[e]] == e
                                &&& ids[l[e]] == e
                                &&& edge_map@.contains_key(pair_code(side_key(ind, o[e])))
                                &&& edge_map@[pair_code(side_key(ind, o[e]))] == e
                            } by {
                                assert(0 <= o[e] <= l0[e] < ids0.len());
                                assert(ids[o[e]] == ids0[o[e]]);
                                if e != id {
                                    assert(ids[l[e]] == ids0[l0[e]]);
                                }
                            }
                            assert forall|e: int, p2: int|
                                #![trigger ids[p2], l[e]]
                                0 <= e < edges@.len() && l[e] < p2 < ids.len() implies ids[p2] != e by {
                                if e != id {
                                    assert(l[e] == l0[e]);
                                    assert(0 <= o[e] <= l0[e]);
                                    if p2 < ids0.len() {
                                        assert(ids[p2] == ids0[p2]);
                                    }
                                }
                            }
                        }
                    },
                    None => {
                        let id = edges.len();
                        proof {
                            assert forall|e: int| 0 <= e < edges@.len() implies side_key(ind, #[trigger] o[e])
                                != side_key(ind, p) by {
                                assert(edge_map@.contains_key(pair_code(side_key(ind, o[e]))));
                            }
                        }
                        edge_map.insert(key, id);
                        edges_id[i1] = id;
                        edges.push(Edge {
                            vertices: [#[verifier::truncate] (a as u32), #[verifier::truncate] (b as u32)],
                            faces: [#[verifier::truncate] (t as u32), 0],
                            deleted: false,
                        });
                        proof {
                            let o0 = o;
                            let l0 = l;
                            let ids0 = ids;
                            o = o.push(p);
                            l = l.push(p);
                            ids = ids.push(id);
                            assert(o[id as int] == p);
                            assert forall|e: int| 0 <= e < edges@.len() implies {
                                &&& 0 <= #[trigger] o[e] <= l[e] < ids.len()
                                &&& ids[o[e]] == e
                                &&& ids[l[e]] == e
                                &&& edge_map@.contains_key(pair_code(side_key(ind, o[e])))
                                &&& edge_map@[pair_code(side_key(ind, o[e]))] == e
                            } by {
                                if e < id {
                                    assert(o[e] == o0[e] && l[e] == l0[e]);
                                    assert(0 <= o0[e] <= l0[e] < ids0.len());
                                    assert(ids[o[e]] == ids0[o0[e]]);
                                    assert(ids[l[e]] == ids0[l0[e]]);
                                    lemma_pair_code_injective(side_key(ind, o0[e]), side_key(ind, p));
                                }
                            }
                            assert forall|c: u128| #[trigger] edge_map@.contains_key(c) implies exists|e: int|
                                0 <= e < edges@.len() && c == pair_code(side_key(ind, #[trigger] o[e])) by {
                                if c == key {
                                    assert(c == pair_code(side_key(ind, o[id as int])));
                                } else {
                                    let e = choose|e: int|
                                        0 <= e < o0.len() && c == pair_code(side_key(ind, #[trigger] o0[e]));
                                    assert(o[e] == o0[e]);
                                }
                            }
                            assert forall|e: int, p2: int|
                                #![trigger ids[p2], l[e]]
                                0 <= e < edges@.len() && l[e] < p2 < ids.len() implies ids[p2] != e by {
                                if e != id {
                                    assert(l[e] == l0[e]);
                                    assert(0 <= o0[e] <= l0[e]);
                                    if p2 < ids0.len() {
                                        assert(ids[p2] == ids0[p2]);
                                    }
                                }
                            }
                        }
                    },
                }
                i1 = i1 + 1;
            }
            assert(3 * t + 3 <= n) by (nonlinear_arith)
                requires
                    t < nt,
                    nt == n / 3,
            ;
            triangles.push(
                Triangle {
                    vertices: [indices[3 * t], indices[3 * t + 1], indices[3 * t + 2]],
                    edges: edges_id,
                },
            );
            t = t + 1;
        }
        let mesh = TriangleMesh { triangles, edges, origins: Ghost(o), lasts: Ghost(l) };
        proof {
            assert forall|p: int| 0 <= p < 3 * nt implies #[trigger] mesh.side_edge(p) == ids[p] by {
                let t2 = p / 3;
                let k = p % 3;
                assert(3 * t2 + k == p);
            }
            assert forall|e: int, p: int|
                #![trigger mesh.side_edge(p), l[e]]
                0 <= e < mesh.edges@.len() && l[e] < p < 3 * nt implies mesh.side_edge(p) != e by {
                assert(0 <= o[e] <= l[e]);
                assert(mesh.side_edge(p) == ids[p]);
            }
            mesh.lemma_built_well_formed(ind);
        }
        mesh
    }
}

impl TriangleMesh {
    /// Whether some triangle has a side between corners `a` and `b`, in
    /// either direction.
    pub open spec fn spec_has_side(self, a: usize, b: usize) -> bool {
        exists|t: int, k: int| 0 <= t < self.triangles@.len() && 0 <= k < 3 && #[trigger] self.corner_pair(t, k) == sorted(a, b)
    }

    /// The unordered pair of corners of side `k` of triangle `t`.
    pub open spec fn corner_pair(self, t: int, k: int) -> (usize, usize) {
        sorted(self.triangles@[t].vertices[k], self.triangles@[t].vertices[next3(k)])
    }

    /// Looks for a side between corners `a` and `b`, in either direction.
    pub fn has_side(&self, a: usize, b: usize) -> (res: bool)
        ensures
            res == self.spec_has_side(a, b),
    {
        let key = SortedPair::new(a, b);
        let nt = self.triangles.len();
        let mut t: usize = 0;
        while t < nt
            invariant
                nt == self.triangles@.len(),
                t <= nt,
                key@ == sorted(a, b),
                forall|t2: int, k: int| 0 <= t2 < t && 0 <= k < 3 ==> #[trigger] self.corner_pair(t2, k) != sorted(a, b),
            decreases nt - t,
        {
            let tri = &self.triangles[t];
            let mut k: usize = 0;
            while k < 3
                invariant
                    *tri == self.triangles@[t as int],
                    t < self.triangles@.len(),
                    k <= 3,
                    key@ == sorted(a, b),
                    forall|k2: int| 0 <= k2 < k ==> #[trigger] self.corner_pair(t as int, k2) != sorted(a, b),
                decreases 3 - k,
            {
                let k2: usize = if k == 2 { 0 } else { k + 1 };
                let side = SortedPair::new(tri.vertices[k], tri.vertices[k2]);
                if side.first() == key.first() && side.second() == key.second() {
                    proof {
                        let tt = t as int;
                        let kk = k as int;
                        assert(next3(kk) == k2);
                        assert(side@ == sorted(a, b));
                        assert(self.corner_pair(tt, kk) == sorted(a, b));
                    }
                    return true;
                }
                k = k + 1;
            }
            t = t + 1;
        }
        false
    }
}


/// The index buffer of a list of triangles: the three corner ids of each
/// triangle in turn, widened to `usize`.
pub fn flatten_indices(triangles: &Vec<[u32; 3]>) -> (res: Vec<usize>)
    ensures
        res@.len() == 3 * triangles@.len(),
        forall|t: int, k: int|
            0 <= t < triangles@.len() && 0 <= k < 3 ==> #[trigger] res@[3 * t + k] == triangles@[t][k] as usize,
{
    let mut res: Vec<usize> = Vec::new();
    let mut i: usize = 0;
    while i < triangles.len()
        invariant
            i <= triangles@.len(),
            res@.len() == 3 * i,
            forall|t: int, k: int|
                0 <= t < i && 0 <= k < 3 ==> #[trigger] res@[3 * t + k] == triangles@[t][k] as usize,
        decreases triangles@.len() - i,
    {
        let tri = triangles[i];
        let ghost before = res@;
        res.push(tri[0] as usize);
        res.push(tri[1] as usize);
        res.push(tri[2] as usize);
        assert forall|t: int, k: int| 0 <= t < i + 1 && 0 <= k < 3 implies #[trigger] res@[3 * t + k]
            == triangles@[t][k] as usize by {
            if t < i {
                assert(3 * t + k < 3 * i) by (nonlinear_arith)
                    requires
                        t < i,
                        k < 3,
                ;
                assert(res@[3 * t + k] == before[3 * t + k]);
            }
        }
        i = i + 1;
    }
    res
}

} // verus!
