use vstd::prelude::*;
use vstd::set_lib::{set_int_range, lemma_int_range, lemma_len_subset};
use crate::mesh::{TriangleMesh, next3};
use crate::faces::{tri_vertex, tri_edge, cross, walk, walk_fuel};

verus! {

/// One step of a contour from side `k` of triangle `t`: to the next side of
/// the same triangle when that side's edge is not flat, across the edge
/// otherwise.
pub open spec fn step(m: TriangleMesh, flat: Seq<bool>, t: usize, k: int) -> Option<(usize, int)> {
    if !flat[tri_edge(m, t, k) as int] {
        Some((t, next3(k)))
    } else {
        cross(m, t, k)
    }
}

/// The (triangle, side) state after `n` steps from side `k` of triangle `t`;
/// `None` when a step fails on the way.
pub open spec fn run(m: TriangleMesh, flat: Seq<bool>, t: usize, k: int, n: nat) -> Option<(usize, int)>
    decreases n,
{
    if n == 0 {
        Some((t, k))
    } else {
        match run(m, flat, t, k, (n - 1) as nat) {
            None => None,
            Some(st) => step(m, flat, st.0, st.1),
        }
    }
}

/// A run of `n + 1` steps is one step followed by a run of `n` steps.
pub(crate) proof fn lemma_run_shift(m: TriangleMesh, flat: Seq<bool>, t: usize, k: int, n: nat)
    ensures
        run(m, flat, t, k, n + 1) == match step(m, flat, t, k) {
            None => None,
            Some(st) => run(m, flat, st.0, st.1, n),
        },
    decreases n,
{
    assert(run(m, flat, t, k, n + 1) == match run(m, flat, t, k, n) {
        None => None,
        Some(st) => step(m, flat, st.0, st.1),
    });
    if n > 0 {
        lemma_run_shift(m, flat, t, k, (n - 1) as nat);
        match step(m, flat, t, k) {
            None => {},
            Some(st) => {
                assert(run(m, flat, st.0, st.1, n) == match run(m, flat, st.0, st.1, (n - 1) as nat) {
                    None => None,
                    Some(st2) => step(m, flat, st2.0, st2.1),
                });
            },
        }
    } else {
        assert(run(m, flat, t, k, 0) == Some((t, k)));
        match step(m, flat, t, k) {
            None => {},
            Some(st) => {
                assert(run(m, flat, st.0, st.1, 0) == Some(st));
            },
        }
    }
}

/// The contour stops after `n` steps: every state before is reached and not
/// at `s`, and the state after `n` steps is at `s`.
pub open spec fn stops_after(m: TriangleMesh, flat: Seq<bool>, s: usize, t: usize, k: int, n: nat) -> bool {
    &&& run(m, flat, t, k, n) is Some
    &&& tri_vertex(m, (run(m, flat, t, k, n)->0).0, (run(m, flat, t, k, n)->0).1) == s
    &&& forall|i: nat|
        i < n ==> #[trigger] run(m, flat, t, k, i) is Some && tri_vertex(
            m,
            (run(m, flat, t, k, i)->0).0,
            (run(m, flat, t, k, i)->0).1,
        ) != s
}

proof fn lemma_stops_after_shift(m: TriangleMesh, flat: Seq<bool>, s: usize, t: usize, k: int, n: nat)
    requires
        tri_vertex(m, t, k) != s,
        step(m, flat, t, k) is Some,
    ensures
        stops_after(m, flat, s, t, k, n + 1) == stops_after(
            m,
            flat,
            s,
            (step(m, flat, t, k)->0).0,
            (step(m, flat, t, k)->0).1,
            n,
        ),
{
    let st = step(m, flat, t, k)->0;
    lemma_run_shift(m, flat, t, k, n);
    assert forall|i: nat| i < n + 1 && i > 0 implies #[trigger] run(m, flat, t, k, i) == run(m, flat, st.0, st.1, (i - 1) as nat) by {
        lemma_run_shift(m, flat, t, k, (i - 1) as nat);
    }
    if stops_after(m, flat, s, t, k, n + 1) {
        assert forall|i: nat| i < n implies #[trigger] run(m, flat, st.0, st.1, i) is Some && tri_vertex(
            m,
            (run(m, flat, st.0, st.1, i)->0).0,
            (run(m, flat, st.0, st.1, i)->0).1,
        ) != s by {
            assert(run(m, flat, t, k, i + 1) == run(m, flat, st.0, st.1, i));
        }
    }
    if stops_after(m, flat, s, st.0, st.1, n) {
        assert forall|i: nat| i < n + 1 implies #[trigger] run(m, flat, t, k, i) is Some && tri_vertex(
            m,
            (run(m, flat, t, k, i)->0).0,
            (run(m, flat, t, k, i)->0).1,
        ) != s by {
            if i > 0 {
                assert(run(m, flat, t, k, i) == run(m, flat, st.0, st.1, (i - 1) as nat));
            }
        }
    }
}

/// A contour closes within `fuel` steps exactly when it stops after at most
/// `fuel` steps.
pub(crate) proof fn lemma_walk_stops(m: TriangleMesh, flat: Seq<bool>, s: usize, t: usize, k: int, fuel: nat)
    ensures
        walk(m, flat, s, t, k, fuel) is Some <==> exists|n: nat| n <= fuel && #[trigger] stops_after(m, flat, s, t, k, n),
    decreases fuel,
{
    if tri_vertex(m, t, k) == s {
        assert(stops_after(m, flat, s, t, k, 0));
    } else {
        assert(!stops_after(m, flat, s, t, k, 0));
        if fuel > 0 {
            lemma_walk_stops(m, flat, s, t, next3(k), (fuel - 1) as nat);
            match step(m, flat, t, k) {
                None => {
                    assert forall|n: nat| n <= fuel implies !#[trigger] stops_after(m, flat, s, t, k, n) by {
                        if n > 0 {
                            lemma_run_shift(m, flat, t, k, (n - 1) as nat);
                        }
                    }
                },
                Some(st) => {
                    lemma_walk_stops(m, flat, s, st.0, st.1, (fuel - 1) as nat);
                    assert(walk(m, flat, s, t, k, fuel) is Some <==> walk(m, flat, s, st.0, st.1, (fuel - 1) as nat) is Some);
                    if walk(m, flat, s, t, k, fuel) is Some {
                        let n = choose|n: nat| n <= fuel - 1 && #[trigger] stops_after(m, flat, s, st.0, st.1, n);
                        lemma_stops_after_shift(m, flat, s, t, k, n);
                        assert(stops_after(m, flat, s, t, k, n + 1));
                    }
                    if exists|n: nat| n <= fuel && #[trigger] stops_after(m, flat, s, t, k, n) {
                        let n = choose|n: nat| n <= fuel && #[trigger] stops_after(m, flat, s, t, k, n);
                        assert(n > 0);
                        lemma_stops_after_shift(m, flat, s, t, k, (n - 1) as nat);
                        assert(stops_after(m, flat, s, st.0, st.1, (n - 1) as nat));
                    }
                },
            }
        } else {
            assert forall|n: nat| n <= fuel implies !#[trigger] stops_after(m, flat, s, t, k, n) by {}
        }
    }
}

/// Contour states stay on sides of triangles of the mesh.
pub(crate) proof fn lemma_run_in_range(m: TriangleMesh, flat: Seq<bool>, t: usize, k: int, n: nat)
    requires
        m.well_formed(),
        t < m.triangles@.len(),
        0 <= k < 3,
        run(m, flat, t, k, n) is Some,
    ensures
        (run(m, flat, t, k, n)->0).0 < m.triangles@.len(),
        0 <= (run(m, flat, t, k, n)->0).1 < 3,
    decreases n,
{
    if n > 0 {
        lemma_run_in_range(m, flat, t, k, (n - 1) as nat);
        let st = run(m, flat, t, k, (n - 1) as nat)->0;
        let e = tri_edge(m, st.0, st.1);
        assert(m.triangles@[st.0 as int].edges[st.1] < m.edges@.len());
        assert(m.edges@[e as int].faces[0] < m.triangles@.len());
    }
}

/// Runs that reach the same state go on alike.
proof fn lemma_run_periodic(m: TriangleMesh, flat: Seq<bool>, t: usize, k: int, a: nat, b: nat, q: nat)
    requires
        run(m, flat, t, k, a) == run(m, flat, t, k, b),
    ensures
        run(m, flat, t, k, a + q) == run(m, flat, t, k, b + q),
    decreases q,
{
    if q > 0 {
        lemma_run_periodic(m, flat, t, k, a, b, (q - 1) as nat);
        assert(run(m, flat, t, k, a + q) == match run(m, flat, t, k, (a + q - 1) as nat) {
            None => None,
            Some(st) => step(m, flat, st.0, st.1),
        });
        assert(run(m, flat, t, k, b + q) == match run(m, flat, t, k, (b + q - 1) as nat) {
            None => None,
            Some(st) => step(m, flat, st.0, st.1),
        });
    }
}

/// Once a run repeats a state, every later state is one it had before the repeat.
proof fn lemma_run_folds_back(m: TriangleMesh, flat: Seq<bool>, t: usize, k: int, i: nat, j: nat, x: nat)
    requires
        i < j,
        run(m, flat, t, k, i) == run(m, flat, t, k, j),
        i <= x,
    ensures
        exists|y: nat| i <= y < j && #[trigger] run(m, flat, t, k, y) == run(m, flat, t, k, x),
    decreases x,
{
    if x < j {
        assert(i <= x < j && run(m, flat, t, k, x) == run(m, flat, t, k, x));
    } else {
        let d = (x - j) as nat;
        lemma_run_periodic(m, flat, t, k, i, j, d);
        assert(j + d == x);
        lemma_run_folds_back(m, flat, t, k, i, j, i + d);
    }
}

/// The number that a state stands for.
spec fn state_code(st: (usize, int)) -> int {
    3 * st.0 + st.1
}

/// Among more states than there are triangle sides, two are equal.
pub(crate) proof fn lemma_run_repeats(m: TriangleMesh, flat: Seq<bool>, t: usize, k: int, len: nat)
    requires
        m.well_formed(),
        t < m.triangles@.len(),
        0 <= k < 3,
        len > 3 * m.triangles@.len(),
        forall|q: nat| q < len ==> #[trigger] run(m, flat, t, k, q) is Some,
    ensures
        exists|i: nat, j: nat| i < j < len && #[trigger] run(m, flat, t, k, i) == #[trigger] run(m, flat, t, k, j),
{
    let nn = 3 * m.triangles@.len();
    let codes = Seq::new(len, |q: int| state_code(run(m, flat, t, k, q as nat)->0));
    assert forall|q: int| 0 <= q < len implies 0 <= #[trigger] codes[q] < nn by {
        assert(run(m, flat, t, k, q as nat) is Some);
        lemma_run_in_range(m, flat, t, k, q as nat);
    }
    lemma_int_range(0, nn as int);
    assert(codes.to_set().subset_of(set_int_range(0, nn as int))) by {
        assert forall|c: int| codes.to_set().contains(c) implies set_int_range(0, nn as int).contains(c) by {
            let q = choose|q: int| 0 <= q < codes.len() && codes[q] == c;
            assert(0 <= codes[q] < nn);
        }
    }
    lemma_len_subset(codes.to_set(), set_int_range(0, nn as int));
    if codes.no_duplicates() {
        codes.unique_seq_to_set();
        assert(false);
    }
    let (i0, j0) = choose|i0: int, j0: int| 0 <= i0 < codes.len() && 0 <= j0 < codes.len() && i0 != j0 && codes[i0] == codes[j0];
    let (i, j) = if i0 < j0 { (i0, j0) } else { (j0, i0) };
    assert(run(m, flat, t, k, i as nat) is Some && run(m, flat, t, k, j as nat) is Some);
    lemma_run_in_range(m, flat, t, k, i as nat);
    lemma_run_in_range(m, flat, t, k, j as nat);
    assert(codes[i] == codes[j]);
    assert(run(m, flat, t, k, i as nat) == run(m, flat, t, k, j as nat));
}

/// With more fuel, a contour that closed gives the same result.
proof fn lemma_walk_more_fuel(m: TriangleMesh, flat: Seq<bool>, s: usize, t: usize, k: int, f1: nat, f2: nat)
    requires
        f1 <= f2,
        walk(m, flat, s, t, k, f1) is Some,
    ensures
        walk(m, flat, s, t, k, f2) == walk(m, flat, s, t, k, f1),
    decreases f1,
{
    if tri_vertex(m, t, k) != s {
        let e = tri_edge(m, t, k);
        if !flat[e as int] {
            lemma_walk_more_fuel(m, flat, s, t, next3(k), (f1 - 1) as nat, (f2 - 1) as nat);
        } else {
            let st = cross(m, t, k)->0;
            lemma_walk_more_fuel(m, flat, s, st.0, st.1, (f1 - 1) as nat, (f2 - 1) as nat);
        }
    }
}

/// A contour that closes at all closes within `walk_fuel(m)` steps, one more
/// than the number of triangle sides, with the same result: past that many
/// steps it would have repeated a state, and from then on it only revisits
/// states it has already left without closing.
pub proof fn lemma_contour_fuel_suffices(m: TriangleMesh, flat: Seq<bool>, s: usize, t: usize, k: int, f: nat)
    requires
        m.well_formed(),
        t < m.triangles@.len(),
        0 <= k < 3,
        walk(m, flat, s, t, k, f) is Some,
    ensures
        walk(m, flat, s, t, k, walk_fuel(m)) == walk(m, flat, s, t, k, f),
{
    let w = walk_fuel(m);
    if f <= w {
        lemma_walk_more_fuel(m, flat, s, t, k, f, w);
    } else {
        lemma_walk_stops(m, flat, s, t, k, f);
        let n = choose|n: nat| n <= f && #[trigger] stops_after(m, flat, s, t, k, n);
        if n <= w {
            lemma_walk_stops(m, flat, s, t, k, w);
            lemma_walk_more_fuel(m, flat, s, t, k, w, f);
        } else {
            assert forall|q: nat| q < w + 1 implies #[trigger] run(m, flat, t, k, q) is Some by {
                assert(q < n);
            }
            lemma_run_repeats(m, flat, t, k, w + 1);
            let (i, j) = choose|i: nat, j: nat| i < j < w + 1 && #[trigger] run(m, flat, t, k, i) == #[trigger] run(
                m,
                flat,
                t,
                k,
                j,
            );
            lemma_run_folds_back(m, flat, t, k, i, j, n);
            let y = choose|y: nat| i <= y < j && #[trigger] run(m, flat, t, k, y) == run(m, flat, t, k, n);
            assert(y < n);
            assert(false);
        }
    }
}

} // verus!
