use vstd::prelude::*;
use crate::mesh::{TriangleMesh, next3};
use crate::faces::{
    tri_vertex, tri_edge, cross, walk, walk_fuel, contour, first_open_side, extract, extraction, process,
};
use crate::fuel::{
    step, run, stops_after, lemma_run_shift, lemma_walk_stops, lemma_run_in_range, lemma_run_repeats,
};

verus! {

/// The mesh is a closed surface with consistent orientation: the two
/// triangles that an edge names are distinct, each has the edge on exactly
/// one side, the two sides run in opposite directions, and no other side of
/// any triangle lies on the edge.
pub open spec fn closed_oriented(m: TriangleMesh) -> bool {
    &&& forall|e: int|
        0 <= e < m.edges@.len() ==> {
            let ed = #[trigger] m.edges@[e];
            let t0 = ed.faces[0] as usize;
            let t1 = ed.faces[1] as usize;
            &&& t0 != t1
            &&& m.triangles@[t0 as int].edge_slot(e as usize) is Some
            &&& m.triangles@[t1 as int].edge_slot(e as usize) is Some
            &&& tri_vertex(m, t0, m.triangles@[t0 as int].edge_slot(e as usize)->0) == tri_vertex(
                m,
                t1,
                next3(m.triangles@[t1 as int].edge_slot(e as usize)->0),
            )
            &&& tri_vertex(m, t0, next3(m.triangles@[t0 as int].edge_slot(e as usize)->0)) == tri_vertex(
                m,
                t1,
                m.triangles@[t1 as int].edge_slot(e as usize)->0,
            )
        }
    &&& forall|t: usize, k: int|
        t < m.triangles@.len() && 0 <= k < 3 ==> {
            let e = #[trigger] tri_edge(m, t, k);
            let ed = m.edges@[e as int];
            &&& (t == ed.faces[0] as usize || t == ed.faces[1] as usize)
            &&& m.triangles@[t as int].edge_slot(e) == Some(k)
        }
}

/// The assumptions shared by the lemmas of this module.
pub open spec fn closed_mesh(m: TriangleMesh) -> bool {
    &&& m.well_formed()
    &&& closed_oriented(m)
    &&& m.triangles@.len() <= u32::MAX
}

/// On a closed mesh every step of a contour succeeds.
proof fn lemma_step_total(m: TriangleMesh, flat: Seq<bool>, t: usize, k: int)
    requires
        closed_mesh(m),
        t < m.triangles@.len(),
        0 <= k < 3,
    ensures
        step(m, flat, t, k) is Some,
{
    let e = tri_edge(m, t, k);
    assert(m.triangles@[t as int].edges[k] < m.edges@.len());
    let ed = m.edges@[e as int];
    assert(ed.faces[0] < m.triangles@.len() && ed.faces[1] < m.triangles@.len());
    assert((t as u32) as usize == t);
}

/// On a closed mesh no two states step to the same state.
proof fn lemma_step_injective(m: TriangleMesh, flat: Seq<bool>, ta: usize, ka: int, tb: usize, kb: int)
    requires
        closed_mesh(m),
        ta < m.triangles@.len(),
        0 <= ka < 3,
        tb < m.triangles@.len(),
        0 <= kb < 3,
        step(m, flat, ta, ka) is Some,
        step(m, flat, ta, ka) == step(m, flat, tb, kb),
    ensures
        ta == tb && ka == kb,
{
    let ea = tri_edge(m, ta, ka);
    let eb = tri_edge(m, tb, kb);
    assert(m.triangles@[ta as int].edges[ka] < m.edges@.len());
    assert(m.triangles@[tb as int].edges[kb] < m.edges@.len());
    let eda = m.edges@[ea as int];
    let edb = m.edges@[eb as int];
    assert(eda.faces[0] < m.triangles@.len() && eda.faces[1] < m.triangles@.len());
    assert(edb.faces[0] < m.triangles@.len() && edb.faces[1] < m.triangles@.len());
    assert((ta as u32) as usize == ta);
    assert((tb as u32) as usize == tb);
    let r = step(m, flat, ta, ka)->0;
    let fa = flat[ea as int];
    let fb = flat[eb as int];
    if !fa && !fb {
    } else if fa && fb {
        let ia = m.triangles@[r.0 as int].edge_slot(ea)->0;
        let ib = m.triangles@[r.0 as int].edge_slot(eb)->0;
        assert(next3(ia) == next3(ib));
        assert(ia == ib);
        assert(ea == m.triangles@[r.0 as int].edges[ia]);
        assert(eb == m.triangles@[r.0 as int].edges[ib]);
        assert(ea == eb);
    } else if !fa && fb {
        // Stepping along the side: the side before r in r's triangle is (ta, ka),
        // whose edge is not flat; crossing lands after the slot of eb, that same side.
        let ib = m.triangles@[r.0 as int].edge_slot(eb)->0;
        assert(r.0 == ta && r.1 == next3(ka));
        assert(next3(ib) == next3(ka));
        assert(ib == ka);
        assert(eb == m.triangles@[ta as int].edges[ka]);
    } else {
        let ia = m.triangles@[r.0 as int].edge_slot(ea)->0;
        assert(r.0 == tb && r.1 == next3(kb));
        assert(next3(ia) == next3(kb));
        assert(ia == kb);
        assert(ea == m.triangles@[tb as int].edges[kb]);
    }
}

/// On a closed mesh a run never fails.
proof fn lemma_run_total(m: TriangleMesh, flat: Seq<bool>, t: usize, k: int, n: nat)
    requires
        closed_mesh(m),
        t < m.triangles@.len(),
        0 <= k < 3,
    ensures
        run(m, flat, t, k, n) is Some,
    decreases n,
{
    if n > 0 {
        lemma_run_total(m, flat, t, k, (n - 1) as nat);
        lemma_run_in_range(m, flat, t, k, (n - 1) as nat);
        let st = run(m, flat, t, k, (n - 1) as nat)->0;
        lemma_step_total(m, flat, st.0, st.1);
    }
}

/// On a closed mesh, a run that repeats a state came back to its start.
proof fn lemma_run_returns(m: TriangleMesh, flat: Seq<bool>, t: usize, k: int, i: nat, j: nat)
    requires
        closed_mesh(m),
        t < m.triangles@.len(),
        0 <= k < 3,
        i < j,
        run(m, flat, t, k, i) == run(m, flat, t, k, j),
    ensures
        run(m, flat, t, k, 0) == run(m, flat, t, k, (j - i) as nat),
    decreases i,
{
    if i > 0 {
        lemma_run_total(m, flat, t, k, (i - 1) as nat);
        lemma_run_total(m, flat, t, k, (j - 1) as nat);
        lemma_run_in_range(m, flat, t, k, (i - 1) as nat);
        lemma_run_in_range(m, flat, t, k, (j - 1) as nat);
        let a = run(m, flat, t, k, (i - 1) as nat)->0;
        let b = run(m, flat, t, k, (j - 1) as nat)->0;
        assert(run(m, flat, t, k, i) == step(m, flat, a.0, a.1));
        assert(run(m, flat, t, k, j) == step(m, flat, b.0, b.1));
        lemma_run_total(m, flat, t, k, i);
        lemma_step_injective(m, flat, a.0, a.1, b.0, b.1);
        lemma_run_returns(m, flat, t, k, (i - 1) as nat, (j - 1) as nat);
    }
}

/// A run that reaches corner `s` first reaches it at some step.
proof fn lemma_first_exit(m: TriangleMesh, flat: Seq<bool>, s: usize, t: usize, k: int, n: nat)
    requires
        forall|q: nat| q <= n ==> #[trigger] run(m, flat, t, k, q) is Some,
        tri_vertex(m, (run(m, flat, t, k, n)->0).0, (run(m, flat, t, k, n)->0).1) == s,
    ensures
        exists|n0: nat| n0 <= n && #[trigger] stops_after(m, flat, s, t, k, n0),
    decreases n,
{
    if exists|q: nat|
        q < n && tri_vertex(m, (#[trigger] run(m, flat, t, k, q)->0).0, (run(m, flat, t, k, q)->0).1) == s {
        let q = choose|q: nat|
            q < n && tri_vertex(m, (#[trigger] run(m, flat, t, k, q)->0).0, (run(m, flat, t, k, q)->0).1) == s;
        lemma_first_exit(m, flat, s, t, k, q);
        let n0 = choose|n0: nat| n0 <= q && #[trigger] stops_after(m, flat, s, t, k, n0);
        assert(n0 <= n && stops_after(m, flat, s, t, k, n0));
    } else {
        assert(stops_after(m, flat, s, t, k, n));
    }
}

/// On a closed, consistently oriented mesh, the contour from any side whose
/// edge is not flat closes: contour steps never fail and no two states step
/// to the same state, so the run comes back to its first state, and the
/// state just before it is the starting side, at the starting corner.
pub proof fn lemma_closed_mesh_contour_closes(m: TriangleMesh, flat: Seq<bool>, t: usize, j: int)
    requires
        closed_mesh(m),
        flat.len() == m.edges@.len(),
        t < m.triangles@.len(),
        0 <= j < 3,
        !flat[tri_edge(m, t, j) as int],
    ensures
        contour(m, flat, t, j) is Some,
{
    let s = tri_vertex(m, t, j);
    let k = next3(j);
    let w = walk_fuel(m);
    assert forall|q: nat| q < w implies #[trigger] run(m, flat, t, k, q) is Some by {
        lemma_run_total(m, flat, t, k, q);
    }
    lemma_run_repeats(m, flat, t, k, w);
    let (i, i2) = choose|i: nat, i2: nat| i < i2 < w && #[trigger] run(m, flat, t, k, i) == #[trigger] run(
        m,
        flat,
        t,
        k,
        i2,
    );
    lemma_run_returns(m, flat, t, k, i, i2);
    let d = (i2 - i) as nat;
    lemma_run_total(m, flat, t, k, (d - 1) as nat);
    lemma_run_in_range(m, flat, t, k, (d - 1) as nat);
    let b = run(m, flat, t, k, (d - 1) as nat)->0;
    assert(run(m, flat, t, k, d) == step(m, flat, b.0, b.1));
    assert(step(m, flat, t, j) == Some((t, k)));
    lemma_run_total(m, flat, t, k, d);
    lemma_step_injective(m, flat, b.0, b.1, t, j);
    assert forall|q: nat| q <= (d - 1) as nat implies #[trigger] run(m, flat, t, k, q) is Some by {
        lemma_run_total(m, flat, t, k, q);
    }
    lemma_first_exit(m, flat, s, t, k, (d - 1) as nat);
    lemma_walk_stops(m, flat, s, t, k, w);
}

/// When every contour from a side whose edge is not flat closes, face
/// extraction succeeds.
proof fn lemma_extract_some(m: TriangleMesh, flat: Seq<bool>, n: nat)
    requires
        closed_mesh(m),
        flat.len() == m.edges@.len(),
        n <= m.triangles@.len(),
    ensures
        extract(m, flat, n) is Some,
    decreases n,
{
    if n > 0 {
        lemma_extract_some(m, flat, (n - 1) as nat);
        let i = (n - 1) as usize;
        if let Some(j) = first_open_side(m, flat, i) {
            lemma_closed_mesh_contour_closes(m, flat, i, j);
        }
    }
}

/// On a closed, consistently oriented mesh (whose triangle ids fit the
/// 32-bit edge records), every contour that face extraction follows closes,
/// whichever edges are flat.
pub proof fn lemma_closed_mesh_contours_close(m: TriangleMesh, flat: Seq<bool>)
    requires
        closed_mesh(m),
        flat.len() == m.edges@.len(),
    ensures
        extraction(m, flat) is Some,
{
    lemma_extract_some(m, flat, m.triangles@.len());
}

/// Whether `m` is a closed, consistently oriented surface whose triangle ids
/// fit the 32-bit edge records.
pub fn is_closed_surface(m: &TriangleMesh) -> (res: bool)
    requires
        m.well_formed(),
    ensures
        res == closed_mesh(*m),
{
    let nt = m.triangles.len();
    let ne = m.edges.len();
    if nt > 0xffff_ffff {
        return false;
    }
    let mut e: usize = 0;
    while e < ne
        invariant
            m.well_formed(),
            nt == m.triangles@.len(),
            ne == m.edges@.len(),
            nt <= u32::MAX,
            e <= ne,
            forall|e2: int|
                0 <= e2 < e ==> {
                    let ed = #[trigger] m.edges@[e2];
                    let t0 = ed.faces[0] as usize;
                    let t1 = ed.faces[1] as usize;
                    &&& t0 != t1
                    &&& m.triangles@[t0 as int].edge_slot(e2 as usize) is Some
                    &&& m.triangles@[t1 as int].edge_slot(e2 as usize) is Some
                    &&& tri_vertex(*m, t0, m.triangles@[t0 as int].edge_slot(e2 as usize)->0) == tri_vertex(
                        *m,
                        t1,
                        next3(m.triangles@[t1 as int].edge_slot(e2 as usize)->0),
                    )
                    &&& tri_vertex(*m, t0, next3(m.triangles@[t0 as int].edge_slot(e2 as usize)->0))
                        == tri_vertex(*m, t1, m.triangles@[t1 as int].edge_slot(e2 as usize)->0)
                },
        decreases ne - e,
    {
        let ed = m.edges[e];
        assert(ed == m.edges@[e as int]);
        let t0 = ed.faces[0] as usize;
        let t1 = ed.faces[1] as usize;
        if t0 == t1 {
            return false;
        }
        let s0 = match m.triangles[t0].find_edge_slot(e) {
            None => {
                return false;
            },
            Some(k) => k,
        };
        let s1 = match m.triangles[t1].find_edge_slot(e) {
            None => {
                return false;
            },
            Some(k) => k,
        };
        let n0: usize = if s0 == 2 { 0 } else { s0 + 1 };
        let n1: usize = if s1 == 2 { 0 } else { s1 + 1 };
        if m.triangles[t0].vertices[s0] != m.triangles[t1].vertices[n1] {
            return false;
        }
        if m.triangles[t0].vertices[n0] != m.triangles[t1].vertices[s1] {
            return false;
        }
        e = e + 1;
    }
    let mut t: usize = 0;
    while t < nt
        invariant
            m.well_formed(),
            nt == m.triangles@.len(),
            ne == m.edges@.len(),
            nt <= u32::MAX,
            t <= nt,
            forall|e2: int|
                0 <= e2 < ne ==> {
                    let ed = #[trigger] m.edges@[e2];
                    let t0 = ed.faces[0] as usize;
                    let t1 = ed.faces[1] as usize;
                    &&& t0 != t1
                    &&& m.triangles@[t0 as int].edge_slot(e2 as usize) is Some
                    &&& m.triangles@[t1 as int].edge_slot(e2 as usize) is Some
                    &&& tri_vertex(*m, t0, m.triangles@[t0 as int].edge_slot(e2 as usize)->0) == tri_vertex(
                        *m,
                        t1,
                        next3(m.triangles@[t1 as int].edge_slot(e2 as usize)->0),
                    )
                    &&& tri_vertex(*m, t0, next3(m.triangles@[t0 as int].edge_slot(e2 as usize)->0))
                        == tri_vertex(*m, t1, m.triangles@[t1 as int].edge_slot(e2 as usize)->0)
                },
            forall|t2: usize, k: int|
                t2 < t && 0 <= k < 3 ==> {
                    let e = #[trigger] tri_edge(*m, t2, k);
                    let ed = m.edges@[e as int];
                    &&& (t2 == ed.faces[0] as usize || t2 == ed.faces[1] as usize)
                    &&& m.triangles@[t2 as int].edge_slot(e) == Some(k)
                },
        decreases nt - t,
    {
        let tri = m.triangles[t];
        let mut k: usize = 0;
        while k < 3
            invariant
                m.well_formed(),
                tri == m.triangles@[t as int],
                t < nt,
                nt == m.triangles@.len(),
                ne == m.edges@.len(),
                k <= 3,
                forall|k2: int|
                    0 <= k2 < k ==> {
                        let e = #[trigger] tri_edge(*m, t, k2);
                        let ed = m.edges@[e as int];
                        &&& (t == ed.faces[0] as usize || t == ed.faces[1] as usize)
                        &&& m.triangles@[t as int].edge_slot(e) == Some(k2)
                    },
            decreases 3 - k,
        {
            let e = tri.edges[k];
            assert(e == tri_edge(*m, t, k as int));
            let ed = m.edges[e];
            if t != ed.faces[0] as usize && t != ed.faces[1] as usize {
                return false;
            }
            match tri.find_edge_slot(e) {
                None => {
                    return false;
                },
                Some(k2) => {
                    if k2 != k {
                        return false;
                    }
                },
            }
            k = k + 1;
        }
        t = t + 1;
    }
    true
}

} // verus!
