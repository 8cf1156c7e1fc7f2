use vstd::prelude::*;
use crate::mesh::TriangleMesh;
use crate::faces::Extraction;
use crate::adjacency::{
    adj_list, incidences, face_incidences, face_part, face_entry, adjacency_matches, lemma_adj_list_member,
    lemma_incidence_entry, lemma_face_incidences_prefix,
};
use crate::hull::{ConvexHull, count_open, count_used, euler_ok};

verus! {

/// The edges among the first `n` that are not flat.
pub open spec fn open_edges_below(flat: Seq<bool>, n: int) -> Set<int> {
    Set::new(|e: int| 0 <= e < n && !flat[e])
}

/// The edges that are not flat.
pub open spec fn open_edges(flat: Seq<bool>) -> Set<int> {
    open_edges_below(flat, flat.len() as int)
}

/// Whether vertex `v` is a corner of some face kept in `x`.
pub open spec fn on_some_face(x: Extraction, v: int) -> bool {
    exists|f: int, r: int|
        0 <= f < x.faces.len() && 0 <= r < x.faces[f].num_vertices_or_edges && (#[trigger] face_entry(
            x.faces,
            x.edges_adj,
            x.verts_adj,
            f,
            r,
        )).0 == v
}

/// The vertices below `np` that are corners of some face kept in `x`.
pub open spec fn used_vertices(x: Extraction, np: nat) -> Set<int> {
    Set::new(|v: int| 0 <= v < np && on_some_face(x, v))
}

/// The vertices of a hull whose run of adjacent faces is not empty.
pub open spec fn hull_used_vertices(h: ConvexHull) -> Set<int> {
    Set::new(|v: int| 0 <= v < h.vertices@.len() && h.vertices@[v].num_adj_faces_or_edge > 0)
}

/// The edges of a hull that are not deleted.
pub open spec fn hull_kept_edges(h: ConvexHull) -> Set<int> {
    Set::new(|e: int| 0 <= e < h.edges@.len() && !h.edges@[e].deleted)
}

/// The vertices below `n` with at least one entry in `inc`.
spec fn listed_below(inc: Seq<(usize, usize, usize)>, n: int) -> Set<int> {
    Set::new(|v: int| 0 <= v < n && adj_list(inc, v as usize).len() > 0)
}

proof fn lemma_count_open_set(flat: Seq<bool>, n: nat)
    ensures
        open_edges_below(flat, n as int).finite(),
        count_open(flat, n) == open_edges_below(flat, n as int).len(),
    decreases n,
{
    if n == 0 {
        assert(open_edges_below(flat, 0) =~= Set::empty());
    } else {
        lemma_count_open_set(flat, (n - 1) as nat);
        let prev = open_edges_below(flat, n - 1);
        if !flat[n - 1] {
            assert(open_edges_below(flat, n as int) =~= prev.insert(n - 1));
            assert(!prev.contains(n - 1));
        } else {
            assert(open_edges_below(flat, n as int) =~= prev);
        }
    }
}

proof fn lemma_count_used_set(inc: Seq<(usize, usize, usize)>, n: nat)
    requires
        n <= usize::MAX + 1,
    ensures
        listed_below(inc, n as int).finite(),
        count_used(inc, n) == listed_below(inc, n as int).len(),
    decreases n,
{
    if n == 0 {
        assert(listed_below(inc, 0) =~= Set::empty());
    } else {
        lemma_count_used_set(inc, (n - 1) as nat);
        let prev = listed_below(inc, n - 1);
        if adj_list(inc, (n - 1) as usize).len() > 0 {
            assert(listed_below(inc, n as int) =~= prev.insert(n - 1));
            assert(!prev.contains(n - 1));
        } else {
            assert(listed_below(inc, n as int) =~= prev);
        }
    }
}

/// An entry of `s` at vertex `v` puts something in the run of `v`.
proof fn lemma_adj_list_nonempty(s: Seq<(usize, usize, usize)>, v: usize, j: int)
    requires
        0 <= j < s.len(),
        s[j].0 == v,
    ensures
        adj_list(s, v).len() > 0,
    decreases s.len(),
{
    if j < s.len() - 1 {
        lemma_adj_list_nonempty(s.drop_last(), v, j);
    }
}

/// A vertex has entries exactly when it is a corner of a kept face.
proof fn lemma_listed_iff_on_face(x: Extraction, v: usize)
    requires
        x.faces.len() <= usize::MAX,
    ensures
        adj_list(incidences(x.faces, x.edges_adj, x.verts_adj), v).len() > 0 <==> on_some_face(x, v as int),
{
    let inc = incidences(x.faces, x.edges_adj, x.verts_adj);
    let nf = x.faces.len();
    if adj_list(inc, v).len() > 0 {
        lemma_adj_list_member(inc, v, 0);
        let j = choose|j: int|
            0 <= j < inc.len() && (#[trigger] inc[j]).0 == v && inc[j].1 == adj_list(inc, v)[0].0 && inc[j].2
                == adj_list(inc, v)[0].1;
        lemma_incidence_entry(x.faces, x.edges_adj, x.verts_adj, nf, j);
    }
    if on_some_face(x, v as int) {
        let (f, r) = choose|f: int, r: int|
            0 <= f < x.faces.len() && 0 <= r < x.faces[f].num_vertices_or_edges && (#[trigger] face_entry(
                x.faces,
                x.edges_adj,
                x.verts_adj,
                f,
                r,
            )).0 == v as int;
        let pre = face_incidences(x.faces, x.edges_adj, x.verts_adj, f as nat);
        let upto = face_incidences(x.faces, x.edges_adj, x.verts_adj, (f + 1) as nat);
        lemma_face_incidences_prefix(x.faces, x.edges_adj, x.verts_adj, (f + 1) as nat, nf);
        assert(upto == pre + face_part(x.faces, x.edges_adj, x.verts_adj, f));
        let j = pre.len() + r;
        assert(upto[j] == face_part(x.faces, x.edges_adj, x.verts_adj, f)[r]);
        assert(inc[j] == upto[j]);
        lemma_adj_list_nonempty(inc, v, j);
    }
}

/// The vertices with entries are the corners of kept faces.
proof fn lemma_listed_is_used(x: Extraction, np: nat)
    requires
        x.faces.len() <= usize::MAX,
        np <= usize::MAX + 1,
    ensures
        listed_below(incidences(x.faces, x.edges_adj, x.verts_adj), np as int) == used_vertices(x, np),
{
    let inc = incidences(x.faces, x.edges_adj, x.verts_adj);
    assert forall|v: int| 0 <= v < np implies (adj_list(inc, v as usize).len() > 0 <==> on_some_face(x, v)) by {
        lemma_listed_iff_on_face(x, v as usize);
    }
    assert(listed_below(inc, np as int) =~= used_vertices(x, np));
}

/// Euler's test counts what it says: it holds exactly when the number of
/// vertices below `np` that are corners of kept faces, plus the number of
/// kept faces, equals the number of edges that are not flat, plus two.
pub proof fn lemma_euler_test_counts(np: nat, flat: Seq<bool>, x: Extraction)
    requires
        np <= usize::MAX + 1,
        x.faces.len() <= usize::MAX,
    ensures
        used_vertices(x, np).finite(),
        open_edges(flat).finite(),
        euler_ok(np, flat, x) <==> used_vertices(x, np).len() + x.faces.len() == open_edges(flat).len() + 2,
{
    lemma_count_open_set(flat, flat.len());
    lemma_count_used_set(incidences(x.faces, x.edges_adj, x.verts_adj), np);
    lemma_listed_is_used(x, np);
}

/// A hull that passed Euler's test satisfies V - E + F = 2 over its own
/// tables: V the vertices whose run of faces is not empty, E the edges that
/// are not deleted, F its faces.
pub proof fn lemma_hull_euler(np: nat, m: TriangleMesh, flat: Seq<bool>, x: Extraction, h: ConvexHull)
    requires
        np <= usize::MAX + 1,
        x.faces.len() <= usize::MAX,
        flat.len() == m.edges@.len(),
        h.describes(np, m, flat, x),
        euler_ok(np, flat, x),
    ensures
        hull_used_vertices(h).finite(),
        hull_kept_edges(h).finite(),
        hull_used_vertices(h).len() + h.faces@.len() == hull_kept_edges(h).len() + 2,
{
    lemma_euler_test_counts(np, flat, x);
    lemma_count_used_set(incidences(x.faces, x.edges_adj, x.verts_adj), np);
    lemma_listed_is_used(x, np);
    let inc = incidences(x.faces, x.edges_adj, x.verts_adj);
    assert(adjacency_matches(inc, np, h.vertices@, h.faces_adj_to_vertex@, h.edges_adj_to_vertex@));
    assert forall|v: int| 0 <= v < h.vertices@.len() implies (h.vertices@[v].num_adj_faces_or_edge > 0
        <==> adj_list(inc, v as usize).len() > 0) by {
        assert(h.vertices@[v].num_adj_faces_or_edge == adj_list(inc, v as usize).len());
    }
    assert(hull_used_vertices(h) =~= listed_below(inc, np as int));
    assert forall|e: int| 0 <= e < h.edges@.len() implies (!h.edges@[e].deleted <==> !flat[e]) by {
        assert(h.edges@[e].deleted == flat[e]);
    }
    assert(hull_kept_edges(h) =~= open_edges(flat));
}

} // verus!
