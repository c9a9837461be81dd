//! Counting directed face edges in the index model of a mesh.

use vstd::prelude::*;

use crate::types::{corner, MeshV, Tri};
use crate::text::lemma_sorted_distinct;

verus! {

/// All corners of every face are positions below `n`.
pub open spec fn tris_ok(n: int, ts: Seq<Tri>) -> bool {
    forall|f: int|
        0 <= f < ts.len() ==> (#[trigger] ts[f]).0 < n && ts[f].1 < n && ts[f].2 < n
}

/// The index model of a well-formed mesh: corners are in range, each
/// face's corners are distinct, and a corner's position names its id.
pub proof fn lemma_wf_tris(m: MeshV)
    requires
        m.wf(),
    ensures
        tris_ok(m.n(), m.tris()),
        m.n() + 3 * m.tris().len() <= u32::MAX,
        forall|f: int|
            0 <= f < m.tris().len() ==> (#[trigger] m.tris()[f]).0 != m.tris()[f].1 && m.tris()[f].1
                != m.tris()[f].2 && m.tris()[f].0 != m.tris()[f].2,
        forall|f: int, k: int|
            0 <= f < m.tris().len() && 0 <= k < 3 ==> m.vertices[#[trigger] corner(m.tris()[f], k)]
                == m.faces[f][k],
{
    assert forall|f: int, k: int| 0 <= f < m.faces.len() && 0 <= k < 3 implies {
        let i = m.index_of(#[trigger] m.faces[f][k]);
        0 <= i < m.n() && m.vertices[i] == m.faces[f][k]
    } by {
        assert(m.vertices.contains(m.faces[f][k]));
    }
    assert forall|f: int| 0 <= f < m.tris().len() implies (#[trigger] m.tris()[f]).0 != m.tris()[f].1
        && m.tris()[f].1 != m.tris()[f].2 && m.tris()[f].0 != m.tris()[f].2 by {
        let x0 = m.index_of(m.faces[f][0]);
        let x1 = m.index_of(m.faces[f][1]);
        let x2 = m.index_of(m.faces[f][2]);
        assert(m.vertices[x0] == m.faces[f][0]);
        assert(m.vertices[x1] == m.faces[f][1]);
        assert(m.vertices[x2] == m.faces[f][2]);
        assert(m.faces[f][0] != m.faces[f][1]);
    }
    assert forall|f: int, k: int|
        0 <= f < m.tris().len() && 0 <= k < 3 implies m.vertices[#[trigger] corner(m.tris()[f], k)]
        == m.faces[f][k] by {
        let x = m.index_of(m.faces[f][k]);
        assert(m.vertices[x] == m.faces[f][k]);
        assert(0 <= x < m.n());
    }
}

/// 1 when the directed edge `x -> y` is `a -> b`.
pub open spec fn hit(x: int, y: int, a: int, b: int) -> nat {
    if x == a && y == b {
        1
    } else {
        0
    }
}

/// How often face `t` traverses the directed edge `a -> b`.
pub open spec fn face_dir(t: Tri, a: int, b: int) -> nat {
    hit(t.0 as int, t.1 as int, a, b) + hit(t.1 as int, t.2 as int, a, b) + hit(
        t.2 as int,
        t.0 as int,
        a,
        b,
    )
}

/// How often the faces traverse the directed edge `a -> b`.
pub open spec fn count_dir(ts: Seq<Tri>, a: int, b: int) -> nat
    decreases ts.len(),
{
    if ts.len() == 0 {
        0
    } else {
        count_dir(ts.drop_last(), a, b) + face_dir(ts.last(), a, b)
    }
}

/// Face uses of the undirected edge `{a, b}`.
pub open spec fn uses(ts: Seq<Tri>, a: int, b: int) -> nat {
    count_dir(ts, a, b) + count_dir(ts, b, a)
}

pub proof fn lemma_count_dir_bound(ts: Seq<Tri>, a: int, b: int)
    ensures
        count_dir(ts, a, b) <= 3 * ts.len(),
    decreases ts.len(),
{
    if ts.len() > 0 {
        lemma_count_dir_bound(ts.drop_last(), a, b);
    }
}

pub proof fn lemma_uses_bound(ts: Seq<Tri>, a: int, b: int)
    requires
        a != b,
    ensures
        uses(ts, a, b) <= 3 * ts.len(),
    decreases ts.len(),
{
    if ts.len() > 0 {
        lemma_uses_bound(ts.drop_last(), a, b);
    }
}

/// Some face traverses `a -> b`, exactly when the count is positive.
pub proof fn lemma_count_dir_pos(ts: Seq<Tri>, a: int, b: int)
    ensures
        count_dir(ts, a, b) > 0 <==> exists|f: int, k: int|
            0 <= f < ts.len() && 0 <= k < 3 && #[trigger] corner(ts[f], k) == a && corner(
                ts[f],
                k + 1,
            ) == b,
    decreases ts.len(),
{
    if ts.len() > 0 {
        let p = ts.drop_last();
        lemma_count_dir_pos(p, a, b);
        let t = ts.last();
        if count_dir(ts, a, b) > 0 {
            if count_dir(p, a, b) > 0 {
                let (f, k) = choose|f: int, k: int|
                    0 <= f < p.len() && 0 <= k < 3 && #[trigger] corner(p[f], k) == a && corner(
                        p[f],
                        k + 1,
                    ) == b;
                assert(ts[f] == p[f]);
            } else {
                let f = ts.len() - 1;
                assert(ts[f] == t);
                if hit(t.0 as int, t.1 as int, a, b) == 1 {
                    assert(corner(ts[f], 0) == a && corner(ts[f], 1) == b);
                } else if hit(t.1 as int, t.2 as int, a, b) == 1 {
                    assert(corner(ts[f], 1) == a && corner(ts[f], 2) == b);
                } else {
                    assert(corner(ts[f], 2) == a && corner(ts[f], 3) == b);
                }
            }
        }
        if exists|f: int, k: int|
            0 <= f < ts.len() && 0 <= k < 3 && #[trigger] corner(ts[f], k) == a && corner(
                ts[f],
                k + 1,
            ) == b {
            let (f, k) = choose|f: int, k: int|
                0 <= f < ts.len() && 0 <= k < 3 && #[trigger] corner(ts[f], k) == a && corner(
                    ts[f],
                    k + 1,
                ) == b;
            if f < ts.len() - 1 {
                assert(p[f] == ts[f]);
            } else {
                assert(ts[f] == t);
            }
        }
    }
}

/// Adds the directed edge `x -> y` to the counts of edges leaving `a`
/// (`fwd`, by target) and entering `a` (`bwd`, by source).
fn add_edge(fwd: &mut Vec<usize>, bwd: &mut Vec<usize>, a: usize, x: usize, y: usize)
    requires
        old(fwd).len() == old(bwd).len(),
        x < old(fwd).len(),
        y < old(fwd).len(),
        forall|b: int| 0 <= b < old(fwd).len() ==> #[trigger] old(fwd)@[b] < u32::MAX,
        forall|b: int| 0 <= b < old(bwd).len() ==> #[trigger] old(bwd)@[b] < u32::MAX,
    ensures
        final(fwd).len() == old(fwd).len(),
        final(bwd).len() == old(bwd).len(),
        forall|b: int|
            0 <= b < final(fwd).len() ==> #[trigger] final(fwd)@[b] == old(fwd)@[b] + hit(
                x as int,
                y as int,
                a as int,
                b,
            ),
        forall|b: int|
            0 <= b < final(bwd).len() ==> #[trigger] final(bwd)@[b] == old(bwd)@[b] + hit(
                x as int,
                y as int,
                b,
                a as int,
            ),
{
    if x == a {
        let v = fwd[y];
        fwd.set(y, v + 1);
    }
    if y == a {
        let v = bwd[x];
        bwd.set(x, v + 1);
    }
}

/// For vertex `a`, the counts `count_dir(ts, a, b)` and `count_dir(ts, b, a)`
/// for every `b < n`.
pub fn counts_at(n: usize, ts: &Vec<Tri>, a: usize) -> (r: (Vec<usize>, Vec<usize>))
    requires
        tris_ok(n as int, ts@),
        n + 3 * ts.len() <= u32::MAX,
    ensures
        r.0.len() == n,
        r.1.len() == n,
        forall|b: int| 0 <= b < n ==> #[trigger] r.0@[b] == count_dir(ts@, a as int, b),
        forall|b: int| 0 <= b < n ==> #[trigger] r.1@[b] == count_dir(ts@, b, a as int),
{
    let mut fwd: Vec<usize> = Vec::new();
    let mut bwd: Vec<usize> = Vec::new();
    let mut i: usize = 0;
    while i < n
        invariant
            i <= n,
            fwd.len() == i,
            bwd.len() == i,
            forall|b: int| 0 <= b < i ==> #[trigger] fwd@[b] == 0,
            forall|b: int| 0 <= b < i ==> #[trigger] bwd@[b] == 0,
        decreases n - i,
    {
        fwd.push(0);
        bwd.push(0);
        i = i + 1;
    }
    let mut f: usize = 0;
    while f < ts.len()
        invariant
            tris_ok(n as int, ts@),
            n + 3 * ts.len() <= u32::MAX,
            f <= ts.len(),
            fwd.len() == n,
            bwd.len() == n,
            forall|b: int|
                0 <= b < n ==> #[trigger] fwd@[b] == count_dir(ts@.take(f as int), a as int, b),
            forall|b: int|
                0 <= b < n ==> #[trigger] bwd@[b] == count_dir(ts@.take(f as int), b, a as int),
        decreases ts.len() - f,
    {
        let t = ts[f];
        proof {
            assert(ts@.take(f + 1).drop_last() =~= ts@.take(f as int));
            assert(ts@.take(f + 1).last() == t);
            assert forall|b: int| 0 <= b < n implies #[trigger] fwd@[b] + 3 < u32::MAX by {
                lemma_count_dir_bound(ts@.take(f as int), a as int, b);
            }
            assert forall|b: int| 0 <= b < n implies #[trigger] bwd@[b] + 3 < u32::MAX by {
                lemma_count_dir_bound(ts@.take(f as int), b, a as int);
            }
        }
        add_edge(&mut fwd, &mut bwd, a, t.0, t.1);
        add_edge(&mut fwd, &mut bwd, a, t.1, t.2);
        add_edge(&mut fwd, &mut bwd, a, t.2, t.0);
        f = f + 1;
    }
    proof {
        assert(ts@.take(ts.len() as int) =~= ts@);
    }
    (fwd, bwd)
}

} // verus!
