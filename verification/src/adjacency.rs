use vstd::prelude::*;
use crate::faces::Face;

verus! {

/// The faces and edges around a vertex: the run of `num_adj_faces_or_edge`
/// entries, starting at `first_adj_face_or_edge`, of the per-vertex face and
/// edge lists.
#[derive(PartialEq, Eq, Structural, Clone, Copy, Debug)]
pub struct Vertex {
    pub first_adj_face_or_edge: usize,
    pub num_adj_faces_or_edge: usize,
}

/// The faces' ranges are in increasing order, do not overlap, and lie within
/// `len` entries.
pub open spec fn ranges_ok(faces: Seq<Face>, len: int) -> bool {
    &&& forall|f: int|
        0 <= f < faces.len() ==> (#[trigger] faces[f]).first_vertex_or_edge + faces[f].num_vertices_or_edges
            <= len
    &&& forall|f: int|
        0 <= f < faces.len() - 1 ==> (#[trigger] faces[f]).first_vertex_or_edge
            + faces[f].num_vertices_or_edges <= faces[f + 1].first_vertex_or_edge
}

/// The (vertex, face, edge) entries of face `f`, in order.
pub open spec fn face_part(faces: Seq<Face>, ea: Seq<usize>, va: Seq<usize>, f: int) -> Seq<
    (usize, usize, usize),
> {
    let fc = faces[f];
    Seq::new(
        fc.num_vertices_or_edges as nat,
        |r: int| (va[fc.first_vertex_or_edge + r], f as usize, ea[fc.first_vertex_or_edge + r]),
    )
}

/// The (vertex, face, edge) entries of the first `n` faces, face by face.
pub open spec fn face_incidences(faces: Seq<Face>, ea: Seq<usize>, va: Seq<usize>, n: nat) -> Seq<
    (usize, usize, usize),
>
    decreases n,
{
    if n == 0 {
        Seq::empty()
    } else {
        face_incidences(faces, ea, va, (n - 1) as nat) + face_part(faces, ea, va, n - 1)
    }
}

/// The (face, edge) pairs of the entries of `inc` at vertex `v`, in order.
pub open spec fn adj_list(inc: Seq<(usize, usize, usize)>, v: usize) -> Seq<(usize, usize)>
    decreases inc.len(),
{
    if inc.len() == 0 {
        Seq::empty()
    } else {
        let x = inc.last();
        adj_list(inc.drop_last(), v) + if x.0 == v {
            seq![(x.1, x.2)]
        } else {
            Seq::empty()
        }
    }
}

/// Where the run of vertex `v` starts: the number of entries at smaller vertices.
pub open spec fn adj_offset(inc: Seq<(usize, usize, usize)>, v: nat) -> nat
    decreases v,
{
    if v == 0 {
        0
    } else {
        adj_offset(inc, (v - 1) as nat) + adj_list(inc, (v - 1) as usize).len()
    }
}

pub(crate) proof fn lemma_adj_list_push(s: Seq<(usize, usize, usize)>, x: (usize, usize, usize), v: usize)
    ensures
        adj_list(s.push(x), v) == adj_list(s, v) + if x.0 == v {
            seq![(x.1, x.2)]
        } else {
            Seq::empty()
        },
{
    assert(s.push(x).drop_last() =~= s);
}

pub(crate) proof fn lemma_adj_list_append(s1: Seq<(usize, usize, usize)>, s2: Seq<(usize, usize, usize)>, v: usize)
    ensures
        adj_list(s1 + s2, v) == adj_list(s1, v) + adj_list(s2, v),
    decreases s2.len(),
{
    if s2.len() == 0 {
        assert(s1 + s2 =~= s1);
        assert(adj_list(s1, v) + adj_list(s2, v) =~= adj_list(s1, v));
    } else {
        let x = s2.last();
        let s2p = s2.drop_last();
        lemma_adj_list_append(s1, s2p, v);
        assert(s1 + s2 =~= (s1 + s2p).push(x));
        assert(s2 =~= s2p.push(x));
        lemma_adj_list_push(s1 + s2p, x, v);
        lemma_adj_list_push(s2p, x, v);
        assert(adj_list(s1, v) + adj_list(s2, v) =~= adj_list(s1, v) + adj_list(s2p, v) + if x.0 == v {
            seq![(x.1, x.2)]
        } else {
            Seq::empty()
        });
    }
}

pub(crate) proof fn lemma_adj_offset_push(s: Seq<(usize, usize, usize)>, x: (usize, usize, usize), n: nat)
    requires
        n <= usize::MAX + 1,
    ensures
        adj_offset(s.push(x), n) == adj_offset(s, n) + if x.0 < n {
            1nat
        } else {
            0nat
        },
    decreases n,
{
    if n > 0 {
        lemma_adj_offset_push(s, x, (n - 1) as nat);
        lemma_adj_list_push(s, x, (n - 1) as usize);
    }
}

/// The run offsets count the entries at smaller vertices.
pub(crate) proof fn lemma_adj_offset_bounds(s: Seq<(usize, usize, usize)>, n: nat)
    requires
        n <= usize::MAX + 1,
    ensures
        adj_offset(s, n) <= s.len(),
        (forall|i: int| 0 <= i < s.len() ==> (#[trigger] s[i]).0 < n) ==> adj_offset(s, n) == s.len(),
    decreases s.len(),
{
    if s.len() == 0 {
        assert(adj_offset(s, n) == 0) by {
            lemma_adj_offset_empty(s, n);
        }
    } else {
        let sp = s.drop_last();
        lemma_adj_offset_bounds(sp, n);
        assert(sp.push(s.last()) =~= s);
        lemma_adj_offset_push(sp, s.last(), n);
        if forall|i: int| 0 <= i < s.len() ==> (#[trigger] s[i]).0 < n {
            assert forall|i: int| 0 <= i < sp.len() implies (#[trigger] sp[i]).0 < n by {
                assert(sp[i] == s[i]);
            }
            assert(s[s.len() - 1].0 < n);
        }
    }
}

proof fn lemma_adj_offset_empty(s: Seq<(usize, usize, usize)>, n: nat)
    requires
        s.len() == 0,
    ensures
        adj_offset(s, n) == 0,
    decreases n,
{
    if n > 0 {
        lemma_adj_offset_empty(s, (n - 1) as nat);
    }
}

/// Run offsets grow with the vertex.
pub(crate) proof fn lemma_adj_offset_mono(s: Seq<(usize, usize, usize)>, a: nat, b: nat)
    requires
        a <= b,
    ensures
        adj_offset(s, a) <= adj_offset(s, b),
    decreases b - a,
{
    if a < b {
        lemma_adj_offset_mono(s, a, (b - 1) as nat);
    }
}

/// The entries of the first `f` faces come first among those of all faces.
pub(crate) proof fn lemma_face_incidences_prefix(faces: Seq<Face>, ea: Seq<usize>, va: Seq<usize>, f: nat, g: nat)
    requires
        f <= g,
    ensures
        face_incidences(faces, ea, va, g) =~= face_incidences(faces, ea, va, f) + face_incidences(
            faces,
            ea,
            va,
            g,
        ).subrange(face_incidences(faces, ea, va, f).len() as int, face_incidences(faces, ea, va, g).len() as int),
        face_incidences(faces, ea, va, f).len() <= face_incidences(faces, ea, va, g).len(),
    decreases g - f,
{
    if f < g {
        lemma_face_incidences_prefix(faces, ea, va, f, (g - 1) as nat);
    }
}

/// The entries of the first `f` faces are no more than where face `f` starts.
pub(crate) proof fn lemma_face_incidences_len(faces: Seq<Face>, ea: Seq<usize>, va: Seq<usize>, len: int, f: nat)
    requires
        ranges_ok(faces, len),
        0 <= len,
        f <= faces.len(),
    ensures
        f < faces.len() ==> face_incidences(faces, ea, va, f).len() <= faces[f as int].first_vertex_or_edge,
        face_incidences(faces, ea, va, f).len() <= len,
    decreases f,
{
    if f > 0 {
        lemma_face_incidences_len(faces, ea, va, len, (f - 1) as nat);
        let fp = faces[f - 1];
        assert(fp.first_vertex_or_edge + fp.num_vertices_or_edges <= len);
        if f < faces.len() {
            assert(fp.first_vertex_or_edge + fp.num_vertices_or_edges <= faces[f as int].first_vertex_or_edge);
        }
    } else {
        if f < faces.len() {
            assert(faces[0].first_vertex_or_edge >= 0);
        }
    }
}

pub(crate) proof fn lemma_adj_list_len(s: Seq<(usize, usize, usize)>, v: usize)
    ensures
        adj_list(s, v).len() <= s.len(),
    decreases s.len(),
{
    if s.len() > 0 {
        lemma_adj_list_len(s.drop_last(), v);
    }
}

/// The entries of all faces, taken in order.
pub open spec fn incidences(faces: Seq<Face>, ea: Seq<usize>, va: Seq<usize>) -> Seq<(usize, usize, usize)> {
    face_incidences(faces, ea, va, faces.len())
}

/// The per-vertex tables match the entries of the faces: vertex `v`'s run
/// starts after the runs of the smaller vertices, holds one slot per entry of
/// a face at `v`, and lists, in face order, that face and the edge of the entry.
pub open spec fn adjacency_matches(
    inc: Seq<(usize, usize, usize)>,
    np: nat,
    vertices: Seq<Vertex>,
    faces_adj: Seq<usize>,
    edges_adj: Seq<usize>,
) -> bool {
    &&& vertices.len() == np
    &&& faces_adj.len() == inc.len()
    &&& edges_adj.len() == inc.len()
    &&& forall|v: int|
        0 <= v < np ==> {
            &&& (#[trigger] vertices[v]).first_adj_face_or_edge == adj_offset(inc, v as nat)
            &&& vertices[v].num_adj_faces_or_edge == adj_list(inc, v as usize).len()
        }
    &&& forall|v: int, i: int|
        0 <= v < np && 0 <= i < adj_list(inc, v as usize).len() ==> {
            &&& faces_adj[#[trigger] vertices[v].first_adj_face_or_edge + i] == #[trigger] adj_list(
                inc,
                v as usize,
            )[i].0
            &&& edges_adj[vertices[v].first_adj_face_or_edge + i] == adj_list(inc, v as usize)[i].1
        }
}

/// The runs hold, at their start, the (face, edge) pairs of the entries of `s`.
pub open spec fn runs_hold(
    inc: Seq<(usize, usize, usize)>,
    s: Seq<(usize, usize, usize)>,
    np: nat,
    fa: Seq<usize>,
    ea: Seq<usize>,
) -> bool {
    forall|u: int, i: int|
        0 <= u < np && 0 <= i < adj_list(s, u as usize).len() ==> {
            &&& fa[adj_offset(inc, u as nat) + i] == (#[trigger] adj_list(s, u as usize)[i]).0
            &&& ea[adj_offset(inc, u as nat) + i] == adj_list(s, u as usize)[i].1
        }
}

/// The slot where the next entry at vertex `x` goes.
pub open spec fn next_slot(inc: Seq<(usize, usize, usize)>, s: Seq<(usize, usize, usize)>, x: usize) -> int {
    (adj_offset(inc, x as nat) + adj_list(s, x).len()) as int
}

/// One more entry keeps the filled part of the runs in step with the entries seen.
proof fn lemma_fill_step(
    inc: Seq<(usize, usize, usize)>,
    sp: Seq<(usize, usize, usize)>,
    y: (usize, usize, usize),
    rest: Seq<(usize, usize, usize)>,
    np: nat,
    fa: Seq<usize>,
    ea: Seq<usize>,
)
    requires
        inc == sp.push(y) + rest,
        y.0 < np,
        np <= usize::MAX + 1,
        adj_offset(inc, np) == inc.len(),
        fa.len() == inc.len(),
        ea.len() == inc.len(),
        runs_hold(inc, sp, np, fa, ea),
    ensures
        0 <= next_slot(inc, sp, y.0) < inc.len(),
        runs_hold(
            inc,
            sp.push(y),
            np,
            fa.update(next_slot(inc, sp, y.0), y.1),
            ea.update(next_slot(inc, sp, y.0), y.2),
        ),
{
    let x = y.0;
    let sn = sp.push(y);
    lemma_adj_list_append(sn, rest, x);
    lemma_adj_list_push(sp, y, x);
    lemma_adj_offset_mono(inc, (x + 1) as nat, np);
    let slot = next_slot(inc, sp, x);
    assert(slot < inc.len());
    let fa2 = fa.update(slot, y.1);
    let ea2 = ea.update(slot, y.2);
    assert forall|u: int, i: int|
        0 <= u < np && 0 <= i < adj_list(sn, u as usize).len() implies {
        &&& fa2[adj_offset(inc, u as nat) + i] == (#[trigger] adj_list(sn, u as usize)[i]).0
        &&& ea2[adj_offset(inc, u as nat) + i] == adj_list(sn, u as usize)[i].1
    } by {
        lemma_fill_step_at(inc, sp, y, rest, np, fa, ea, u as usize, i);
    }
}

#[verifier::spinoff_prover]
proof fn lemma_fill_step_at(
    inc: Seq<(usize, usize, usize)>,
    sp: Seq<(usize, usize, usize)>,
    y: (usize, usize, usize),
    rest: Seq<(usize, usize, usize)>,
    np: nat,
    fa: Seq<usize>,
    ea: Seq<usize>,
    u: usize,
    i: int,
)
    requires
        inc == sp.push(y) + rest,
        y.0 < np,
        u < np,
        np <= usize::MAX + 1,
        adj_offset(inc, np) == inc.len(),
        fa.len() == inc.len(),
        ea.len() == inc.len(),
        0 <= i < adj_list(sp.push(y), u).len(),
        runs_hold(inc, sp, np, fa, ea),
    ensures
        fa.update(next_slot(inc, sp, y.0), y.1)[adj_offset(inc, u as nat) + i] == adj_list(sp.push(y), u)[i].0,
        ea.update(next_slot(inc, sp, y.0), y.2)[adj_offset(inc, u as nat) + i] == adj_list(sp.push(y), u)[i].1,
{
    let x = y.0;
    let sn = sp.push(y);
    let slot = next_slot(inc, sp, x);
    let k = adj_offset(inc, u as nat) + i;
    lemma_adj_list_push(sp, y, u);
    lemma_adj_list_push(sp, y, x);
    lemma_adj_list_append(sn, rest, x);
    lemma_adj_list_append(sn, rest, u);
    lemma_adj_offset_mono(inc, (u + 1) as nat, np);
    lemma_adj_offset_mono(inc, (x + 1) as nat, np);
    assert(adj_offset(inc, (u + 1) as nat) == adj_offset(inc, u as nat) + adj_list(inc, u).len());
    assert(adj_offset(inc, (x + 1) as nat) == adj_offset(inc, x as nat) + adj_list(inc, x).len());
    if u == x {
        if i < adj_list(sp, x).len() {
            assert(adj_list(sn, x)[i] == adj_list(sp, x)[i]);
            assert(k != slot);
            assert(fa[k] == adj_list(sp, u)[i].0);
        } else {
            assert(k == slot);
            assert(adj_list(sn, x)[i] == (y.1, y.2));
        }
    } else {
        assert(adj_list(sn, u) =~= adj_list(sp, u));
        if u < x {
            lemma_adj_offset_mono(inc, (u + 1) as nat, x as nat);
        } else {
            lemma_adj_offset_mono(inc, (x + 1) as nat, u as nat);
        }
        assert(k != slot);
        assert(fa[k] == adj_list(sp, u)[i].0);
    }
}

/// Counts, for each of the `np` vertices, the entries of the faces at it.
fn count_entries(np: usize, faces: &Vec<Face>, ea: &Vec<usize>, va: &Vec<usize>) -> (vertices: Vec<Vertex>)
    requires
        ea@.len() == va@.len(),
        ranges_ok(faces@, va@.len() as int),
        forall|p: int| 0 <= p < va@.len() ==> #[trigger] va@[p] < np,
    ensures
        vertices@.len() == np,
        forall|u: int|
            0 <= u < np ==> (#[trigger] vertices@[u]).first_adj_face_or_edge == 0
                && vertices@[u].num_adj_faces_or_edge == adj_list(incidences(faces@, ea@, va@), u as usize).len(),
{
    let nf = faces.len();
    let n_entries = va.len();
    let ghost fs = faces@;
    let mut vertices: Vec<Vertex> = Vec::new();
    let mut v: usize = 0;
    while v < np
        invariant
            v <= np,
            vertices@.len() == v,
            forall|u: int|
                0 <= u < v ==> (#[trigger] vertices@[u]).first_adj_face_or_edge == 0
                    && vertices@[u].num_adj_faces_or_edge == 0,
        decreases np - v,
    {
        vertices.push(Vertex { first_adj_face_or_edge: 0, num_adj_faces_or_edge: 0 });
        v = v + 1;
    }
    let mut f: usize = 0;
    while f < nf
        invariant
            fs == faces@,
            nf == fs.len(),
            n_entries == va@.len(),
            ea@.len() == va@.len(),
            ranges_ok(fs, va@.len() as int),
            forall|p: int| 0 <= p < va@.len() ==> #[trigger] va@[p] < np,
            f <= nf,
            vertices@.len() == np,
            forall|u: int|
                0 <= u < np ==> (#[trigger] vertices@[u]).first_adj_face_or_edge == 0
                    && vertices@[u].num_adj_faces_or_edge == adj_list(
                    face_incidences(fs, ea@, va@, f as nat),
                    u as usize,
                ).len(),
        decreases nf - f,
    {
        let first = faces[f].first_vertex_or_edge;
        let last = first + faces[f].num_vertices_or_edges;
        let ghost pre = face_incidences(fs, ea@, va@, f as nat);
        let ghost part = face_part(fs, ea@, va@, f as int);
        proof {
            lemma_face_incidences_len(fs, ea@, va@, va@.len() as int, f as nat);
        }
        let mut vid = first;
        while vid < last
            invariant
                fs == faces@,
                n_entries == va@.len(),
                ea@.len() == va@.len(),
                forall|p: int| 0 <= p < va@.len() ==> #[trigger] va@[p] < np,
                f < nf,
                nf == fs.len(),
                first == fs[f as int].first_vertex_or_edge,
                last == first + fs[f as int].num_vertices_or_edges,
                last <= n_entries,
                first <= vid <= last,
                pre == face_incidences(fs, ea@, va@, f as nat),
                part == face_part(fs, ea@, va@, f as int),
                pre.len() <= first,
                vertices@.len() == np,
                forall|u: int|
                    0 <= u < np ==> (#[trigger] vertices@[u]).first_adj_face_or_edge == 0
                        && vertices@[u].num_adj_faces_or_edge == adj_list(
                        pre + part.take(vid - first),
                        u as usize,
                    ).len(),
            decreases last - vid,
        {
            let x = va[vid];
            let ghost sp = pre + part.take(vid - first);
            proof {
                assert(part[vid - first] == (x, f, ea@[vid as int]));
                assert(pre + part.take(vid - first + 1) =~= sp.push(part[vid - first]));
                lemma_adj_list_len(sp.push(part[vid - first]), x);
                assert forall|u: int| 0 <= u < np implies #[trigger] adj_list(
                    pre + part.take(vid - first + 1),
                    u as usize,
                ) == adj_list(sp, u as usize) + if u == x {
                    seq![(f, ea@[vid as int])]
                } else {
                    Seq::empty()
                } by {
                    lemma_adj_list_push(sp, part[vid - first], u as usize);
                }
            }
            let mut vx = vertices[x];
            vx.num_adj_faces_or_edge = vx.num_adj_faces_or_edge + 1;
            vertices.set(x, vx);
            vid = vid + 1;
        }
        proof {
            assert(part.take(last - first) =~= part);
        }
        f = f + 1;
    }
    vertices
}

/// Sets each vertex's run to start right after the runs of the smaller
/// vertices; gives the total length of the runs.
fn lay_out_runs(vertices: &mut Vec<Vertex>, Ghost(inc): Ghost<Seq<(usize, usize, usize)>>, n_entries: usize) -> (total:
    usize)
    requires
        inc.len() <= n_entries,
        forall|u: int|
            0 <= u < old(vertices)@.len() ==> (#[trigger] old(vertices)@[u]).num_adj_faces_or_edge == adj_list(
                inc,
                u as usize,
            ).len(),
    ensures
        final(vertices)@.len() == old(vertices)@.len(),
        total == adj_offset(inc, old(vertices)@.len()),
        forall|u: int|
            0 <= u < old(vertices)@.len() ==> (#[trigger] final(vertices)@[u]).first_adj_face_or_edge == adj_offset(
                inc,
                u as nat,
            ) && final(vertices)@[u].num_adj_faces_or_edge == adj_list(inc, u as usize).len(),
{
    let np = vertices.len();
    let mut total: usize = 0;
    let mut v: usize = 0;
    while v < np
        invariant
            v <= np,
            np == vertices@.len(),
            inc.len() <= n_entries,
            total == adj_offset(inc, v as nat),
            forall|u: int|
                0 <= u < np ==> (#[trigger] vertices@[u]).num_adj_faces_or_edge == adj_list(inc, u as usize).len(),
            forall|u: int|
                0 <= u < v ==> (#[trigger] vertices@[u]).first_adj_face_or_edge == adj_offset(inc, u as nat),
        decreases np - v,
    {
        proof {
            lemma_adj_offset_bounds(inc, (v + 1) as nat);
        }
        let mut vx = vertices[v];
        vx.first_adj_face_or_edge = total;
        total = total + vx.num_adj_faces_or_edge;
        vertices.set(v, vx);
        v = v + 1;
    }
    total
}

/// Each vertex's run starts at its offset and has as many filled slots as
/// `s` has entries at the vertex.
pub open spec fn counts_at(vertices: Seq<Vertex>, inc: Seq<(usize, usize, usize)>, s: Seq<(usize, usize, usize)>) -> bool {
    forall|u: int|
        0 <= u < vertices.len() ==> (#[trigger] vertices[u]).first_adj_face_or_edge == adj_offset(inc, u as nat)
            && vertices[u].num_adj_faces_or_edge == adj_list(s, u as usize).len()
}

/// Puts the entry `(x, f, eid)` in the next free slot of the run of `x`.
fn place_entry(
    vertices: &mut Vec<Vertex>,
    faces_adj: &mut Vec<usize>,
    edges_adj: &mut Vec<usize>,
    x: usize,
    f: usize,
    eid: usize,
    Ghost(inc): Ghost<Seq<(usize, usize, usize)>>,
    Ghost(sp): Ghost<Seq<(usize, usize, usize)>>,
    Ghost(rest): Ghost<Seq<(usize, usize, usize)>>,
)
    requires
        inc == sp.push((x, f, eid)) + rest,
        x < old(vertices)@.len(),
        old(vertices)@.len() <= usize::MAX,
        adj_offset(inc, old(vertices)@.len()) == inc.len(),
        old(faces_adj)@.len() == inc.len(),
        old(edges_adj)@.len() == inc.len(),
        counts_at(old(vertices)@, inc, sp),
        runs_hold(inc, sp, old(vertices)@.len(), old(faces_adj)@, old(edges_adj)@),
    ensures
        final(vertices)@.len() == old(vertices)@.len(),
        final(faces_adj)@.len() == inc.len(),
        final(edges_adj)@.len() == inc.len(),
        counts_at(final(vertices)@, inc, sp.push((x, f, eid))),
        runs_hold(inc, sp.push((x, f, eid)), old(vertices)@.len(), final(faces_adj)@, final(edges_adj)@),
{
    let ghost np = vertices@.len();
    let ghost y = (x, f, eid);
    proof {
        lemma_fill_step(inc, sp, y, rest, np, faces_adj@, edges_adj@);
        lemma_adj_list_push(sp, y, x);
        assert forall|u: int| 0 <= u < np && u != x implies #[trigger] adj_list(sp.push(y), u as usize)
            == adj_list(sp, u as usize) by {
            lemma_adj_list_push(sp, y, u as usize);
            assert(adj_list(sp, u as usize) + Seq::empty() =~= adj_list(sp, u as usize));
        }
    }
    let total = faces_adj.len();
    let vx = vertices[x];
    assert(vx == vertices@[x as int]);
    assert(vx.first_adj_face_or_edge + vx.num_adj_faces_or_edge == next_slot(inc, sp, x));
    let slot = vx.first_adj_face_or_edge + vx.num_adj_faces_or_edge;
    faces_adj.set(slot, f);
    edges_adj.set(slot, eid);
    let mut vx2 = vx;
    vx2.num_adj_faces_or_edge = vx.num_adj_faces_or_edge + 1;
    vertices.set(x, vx2);
}

/// Fills the runs face by face: each entry of a face goes to the next free
/// slot of its vertex's run.
#[verifier::spinoff_prover]
#[verifier::rlimit(40)]
fn fill_runs(
    vertices: &mut Vec<Vertex>,
    faces_adj: &mut Vec<usize>,
    edges_adj: &mut Vec<usize>,
    faces: &Vec<Face>,
    ea: &Vec<usize>,
    va: &Vec<usize>,
    Ghost(inc): Ghost<Seq<(usize, usize, usize)>>,
)
    requires
        ea@.len() == va@.len(),
        ranges_ok(faces@, va@.len() as int),
        forall|p: int| 0 <= p < va@.len() ==> #[trigger] va@[p] < old(vertices)@.len(),
        inc == incidences(faces@, ea@, va@),
        old(vertices)@.len() <= usize::MAX,
        adj_offset(inc, old(vertices)@.len()) == inc.len(),
        old(faces_adj)@.len() == inc.len(),
        old(edges_adj)@.len() == inc.len(),
        forall|u: int|
            0 <= u < old(vertices)@.len() ==> (#[trigger] old(vertices)@[u]).first_adj_face_or_edge == adj_offset(
                inc,
                u as nat,
            ) && old(vertices)@[u].num_adj_faces_or_edge == 0,
    ensures
        adjacency_matches(inc, old(vertices)@.len(), final(vertices)@, final(faces_adj)@, final(edges_adj)@),
{
    let np = vertices.len();
    let nf = faces.len();
    let n_entries = va.len();
    let total = faces_adj.len();
    let ghost fs = faces@;
    proof {
        assert forall|u: int| 0 <= u < np implies #[trigger] vertices@[u].num_adj_faces_or_edge == adj_list(
            face_incidences(fs, ea@, va@, 0),
            u as usize,
        ).len() by {}
        assert(counts_at(vertices@, inc, face_incidences(fs, ea@, va@, 0)));
    }
    let mut f: usize = 0;
    while f < nf
        invariant
            fs == faces@,
            nf == fs.len(),
            n_entries == va@.len(),
            ea@.len() == va@.len(),
            ranges_ok(fs, va@.len() as int),
            forall|p: int| 0 <= p < va@.len() ==> #[trigger] va@[p] < np,
            inc == incidences(fs, ea@, va@),
            adj_offset(inc, np as nat) == inc.len(),
            total == inc.len(),
            f <= nf,
            vertices@.len() == np,
            faces_adj@.len() == total,
            edges_adj@.len() == total,
            counts_at(vertices@, inc, face_incidences(fs, ea@, va@, f as nat)),
            runs_hold(inc, face_incidences(fs, ea@, va@, f as nat), np as nat, faces_adj@, edges_adj@),
        decreases nf - f,
    {
        let first = faces[f].first_vertex_or_edge;
        let last = first + faces[f].num_vertices_or_edges;
        let ghost pre = face_incidences(fs, ea@, va@, f as nat);
        let ghost part = face_part(fs, ea@, va@, f as int);
        let ghost tail = inc.subrange(face_incidences(fs, ea@, va@, (f + 1) as nat).len() as int, inc.len() as int);
        proof {
            lemma_face_incidences_len(fs, ea@, va@, va@.len() as int, f as nat);
            lemma_face_incidences_prefix(fs, ea@, va@, (f + 1) as nat, nf as nat);
            assert(inc =~= pre + part + tail);
        }
        let mut vid = first;
        proof {
            assert(pre + part.take(0) =~= pre);
        }
        while vid < last
            invariant
                fs == faces@,
                n_entries == va@.len(),
                ea@.len() == va@.len(),
                forall|p: int| 0 <= p < va@.len() ==> #[trigger] va@[p] < np,
                f < nf,
                nf == fs.len(),
                first == fs[f as int].first_vertex_or_edge,
                last == first + fs[f as int].num_vertices_or_edges,
                last <= n_entries,
                first <= vid <= last,
                pre == face_incidences(fs, ea@, va@, f as nat),
                part == face_part(fs, ea@, va@, f as int),
                inc == pre + part + tail,
                adj_offset(inc, np as nat) == inc.len(),
                total == inc.len(),
                vertices@.len() == np,
                faces_adj@.len() == total,
                edges_adj@.len() == total,
                counts_at(vertices@, inc, pre + part.take(vid - first)),
                runs_hold(inc, pre + part.take(vid - first), np as nat, faces_adj@, edges_adj@),
            decreases last - vid,
        {
            let x = va[vid];
            let eid = ea[vid];
            let ghost sp = pre + part.take(vid - first);
            let ghost y = part[vid - first];
            proof {
                assert(y == (x, f, eid));
                assert(pre + part.take(vid - first + 1) =~= sp.push(y));
                assert(inc =~= sp.push(y) + (part.skip(vid - first + 1) + tail));
            }
            place_entry(
                vertices,
                faces_adj,
                edges_adj,
                x,
                f,
                eid,
                Ghost(inc),
                Ghost(sp),
                Ghost(part.skip(vid - first + 1) + tail),
            );
            vid = vid + 1;
        }
        proof {
            assert(part.take(last - first) =~= part);
        }
        f = f + 1;
    }
    proof {
        assert(face_incidences(fs, ea@, va@, nf as nat) == inc);
    }
}

/// Builds, for each of the `np` vertices, the list of faces around it and,
/// for each, the edge of that face that leaves the vertex: first counts the
/// entries of each vertex, then lays the runs out one after another, then
/// fills them in face order.
pub fn vertex_adjacency(np: usize, faces: &Vec<Face>, ea: &Vec<usize>, va: &Vec<usize>) -> (res: (
    Vec<Vertex>,
    Vec<usize>,
    Vec<usize>,
))
    requires
        ea@.len() == va@.len(),
        ranges_ok(faces@, va@.len() as int),
        forall|p: int| 0 <= p < va@.len() ==> #[trigger] va@[p] < np,
    ensures
        adjacency_matches(incidences(faces@, ea@, va@), np as nat, res.0@, res.1@, res.2@),
{
    let nf = faces.len();
    let n_entries = va.len();
    let ghost fs = faces@;
    let ghost inc = incidences(faces@, ea@, va@);
    let mut vertices = count_entries(np, faces, ea, va);
    proof {
        lemma_face_incidences_len(fs, ea@, va@, va@.len() as int, nf as nat);
        assert forall|i: int| 0 <= i < inc.len() implies (#[trigger] inc[i]).0 < np by {
            lemma_incidence_vertex(fs, ea@, va@, nf as nat, i, np as nat);
        }
        lemma_adj_offset_bounds(inc, np as nat);
    }
    let total = lay_out_runs(&mut vertices, Ghost(inc), n_entries);
    let mut faces_adj: Vec<usize> = Vec::new();
    let mut edges_adj: Vec<usize> = Vec::new();
    let mut q: usize = 0;
    while q < total
        invariant
            q <= total,
            faces_adj@.len() == q,
            edges_adj@.len() == q,
        decreases total - q,
    {
        faces_adj.push(0);
        edges_adj.push(0);
        q = q + 1;
    }
    // Reset the counts: they grow again as the runs are filled.
    let mut v: usize = 0;
    while v < np
        invariant
            v <= np,
            vertices@.len() == np,
            forall|u: int|
                0 <= u < np ==> (#[trigger] vertices@[u]).first_adj_face_or_edge == adj_offset(inc, u as nat),
            forall|u: int|
                0 <= u < np ==> (#[trigger] vertices@[u]).num_adj_faces_or_edge == if u < v {
                    0
                } else {
                    adj_list(inc, u as usize).len()
                },
        decreases np - v,
    {
        let mut vx = vertices[v];
        vx.num_adj_faces_or_edge = 0;
        vertices.set(v, vx);
        v = v + 1;
    }
    fill_runs(&mut vertices, &mut faces_adj, &mut edges_adj, faces, ea, va, Ghost(inc));
    (vertices, faces_adj, edges_adj)
}

/// Every entry of the first `n` faces names a vertex below `np`.
pub(crate) proof fn lemma_incidence_vertex(faces: Seq<Face>, ea: Seq<usize>, va: Seq<usize>, n: nat, i: int, np: nat)
    requires
        n <= faces.len(),
        ranges_ok(faces, va.len() as int),
        forall|p: int| 0 <= p < va.len() ==> #[trigger] va[p] < np,
        0 <= i < face_incidences(faces, ea, va, n).len(),
    ensures
        face_incidences(faces, ea, va, n)[i].0 < np,
    decreases n,
{
    let pre = face_incidences(faces, ea, va, (n - 1) as nat);
    if i < pre.len() {
        lemma_incidence_vertex(faces, ea, va, (n - 1) as nat, i, np);
    } else {
        let fc = faces[n - 1];
        assert(fc.first_vertex_or_edge + fc.num_vertices_or_edges <= va.len());
        assert(face_incidences(faces, ea, va, n)[i] == face_part(faces, ea, va, n - 1)[i - pre.len()]);
    }
}

/// The entries of the first `n` faces name faces below `n` and edges below `ne`.
pub(crate) proof fn lemma_incidence_bounds(faces: Seq<Face>, ea: Seq<usize>, va: Seq<usize>, n: nat, i: int, ne: nat)
    requires
        n <= faces.len(),
        faces.len() <= usize::MAX,
        ranges_ok(faces, va.len() as int),
        ea.len() == va.len(),
        forall|p: int| 0 <= p < ea.len() ==> #[trigger] ea[p] < ne,
        0 <= i < face_incidences(faces, ea, va, n).len(),
    ensures
        face_incidences(faces, ea, va, n)[i].1 < n,
        face_incidences(faces, ea, va, n)[i].2 < ne,
    decreases n,
{
    let pre = face_incidences(faces, ea, va, (n - 1) as nat);
    if i < pre.len() {
        lemma_incidence_bounds(faces, ea, va, (n - 1) as nat, i, ne);
    } else {
        let fc = faces[n - 1];
        assert(fc.first_vertex_or_edge + fc.num_vertices_or_edges <= va.len());
        assert(face_incidences(faces, ea, va, n)[i] == face_part(faces, ea, va, n - 1)[i - pre.len()]);
    }
}

/// What the run of a vertex lists comes from the entries.
pub(crate) proof fn lemma_adj_list_bounds(s: Seq<(usize, usize, usize)>, v: usize, nf: nat, ne: nat)
    requires
        forall|j: int| 0 <= j < s.len() ==> (#[trigger] s[j]).1 < nf && s[j].2 < ne,
    ensures
        forall|i: int| 0 <= i < adj_list(s, v).len() ==> (#[trigger] adj_list(s, v)[i]).0 < nf && adj_list(s, v)[i].1 < ne,
    decreases s.len(),
{
    if s.len() > 0 {
        let sp = s.drop_last();
        assert forall|j: int| 0 <= j < sp.len() implies (#[trigger] sp[j]).1 < nf && sp[j].2 < ne by {
            assert(sp[j] == s[j]);
        }
        lemma_adj_list_bounds(sp, v, nf, ne);
        assert(s[s.len() - 1] == s.last());
        let a = adj_list(s, v);
        let b = adj_list(sp, v);
        assert forall|i: int| 0 <= i < a.len() implies (#[trigger] a[i]).0 < nf && a[i].1 < ne by {
            if i < b.len() {
                assert(a[i] == b[i]);
            }
        }
    }
}

/// Every slot below the total belongs to the run of some vertex.
pub(crate) proof fn lemma_adj_offset_locate(inc: Seq<(usize, usize, usize)>, np: nat, q: int)
    requires
        0 <= q < adj_offset(inc, np),
    ensures
        exists|v: int| 0 <= v < np && adj_offset(inc, v as nat) <= q < #[trigger] adj_offset(inc, (v + 1) as nat),
    decreases np,
{
    if q < adj_offset(inc, (np - 1) as nat) {
        lemma_adj_offset_locate(inc, (np - 1) as nat, q);
        let v = choose|v: int| 0 <= v < np - 1 && adj_offset(inc, v as nat) <= q < #[trigger] adj_offset(inc, (v + 1) as nat);
        assert(0 <= v < np && adj_offset(inc, v as nat) <= q < adj_offset(inc, (v + 1) as nat));
    } else {
        assert(adj_offset(inc, (np - 1) as nat) <= q < adj_offset(inc, ((np - 1) + 1) as nat));
    }
}

/// Each pair in the run of `v` comes from an entry of `s` at `v`.
pub(crate) proof fn lemma_adj_list_member(s: Seq<(usize, usize, usize)>, v: usize, i: int)
    requires
        0 <= i < adj_list(s, v).len(),
    ensures
        exists|j: int|
            0 <= j < s.len() && (#[trigger] s[j]).0 == v && s[j].1 == adj_list(s, v)[i].0 && s[j].2 == adj_list(
                s,
                v,
            )[i].1,
    decreases s.len(),
{
    let sp = s.drop_last();
    let b = adj_list(sp, v);
    if i < b.len() {
        lemma_adj_list_member(sp, v, i);
        let j = choose|j: int|
            0 <= j < sp.len() && (#[trigger] sp[j]).0 == v && sp[j].1 == b[i].0 && sp[j].2 == b[i].1;
        assert(s[j] == sp[j]);
        assert(adj_list(s, v)[i] == b[i]);
    } else {
        let j = s.len() - 1;
        assert(s[j] == s.last());
    }
}

/// The entry at position `r` of face `f`.
pub open spec fn face_entry(faces: Seq<Face>, ea: Seq<usize>, va: Seq<usize>, f: int, r: int) -> (usize, usize, usize) {
    (va[faces[f].first_vertex_or_edge + r], f as usize, ea[faces[f].first_vertex_or_edge + r])
}

/// Each entry of the first `n` faces is a position of one of them.
pub(crate) proof fn lemma_incidence_entry(faces: Seq<Face>, ea: Seq<usize>, va: Seq<usize>, n: nat, j: int)
    requires
        n <= faces.len(),
        faces.len() <= usize::MAX,
        0 <= j < face_incidences(faces, ea, va, n).len(),
    ensures
        exists|f: int, r: int|
            0 <= f < n && 0 <= r < faces[f].num_vertices_or_edges && face_incidences(faces, ea, va, n)[j]
                == #[trigger] face_entry(faces, ea, va, f, r),
    decreases n,
{
    let pre = face_incidences(faces, ea, va, (n - 1) as nat);
    let inc = face_incidences(faces, ea, va, n);
    if j < pre.len() {
        lemma_incidence_entry(faces, ea, va, (n - 1) as nat, j);
        let (f, r) = choose|f: int, r: int|
            0 <= f < n - 1 && 0 <= r < faces[f].num_vertices_or_edges && face_incidences(faces, ea, va, (n - 1) as nat)[j]
                == #[trigger] face_entry(faces, ea, va, f, r);
        assert(inc[j] == pre[j]);
        assert(0 <= f < n && 0 <= r < faces[f].num_vertices_or_edges && inc[j] == face_entry(faces, ea, va, f, r));
    } else {
        let r = j - pre.len();
        assert(inc[j] == face_part(faces, ea, va, n - 1)[r]);
        assert(0 <= n - 1 < n && 0 <= r < faces[n - 1].num_vertices_or_edges && inc[j] == face_entry(
            faces,
            ea,
            va,
            n - 1,
            r,
        ));
    }
}

} // verus!
