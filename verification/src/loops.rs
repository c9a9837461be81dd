//! Boundary loops: the one-face edges, each oriented as its sole face
//! traverses it, decompose into vertex-disjoint directed cycles.

use vstd::prelude::*;

use crate::graph::{count_false, lemma_count_false_set};
use crate::edges::{edge_fault, is_faulty, edge_stage};
use crate::model::{count_dir, counts_at, lemma_count_dir_pos, lemma_wf_tris, tris_ok, uses};
use crate::sectors::{
    cyclic, first_bad_vertex, has_pred, has_succ, is_link_node, link_edge, path_ends, path_starts,
    face_link, vertex_verdict,
};
use crate::types::{corner, AuditMode, MeshV, Tri};

verus! {

/// `a -> b` is a boundary edge: its undirected edge is used by exactly one
/// face, which traverses it from `a` to `b`.
pub open spec fn bnd(n: int, ts: Seq<Tri>, a: int, b: int) -> bool {
    &&& 0 <= a < n
    &&& 0 <= b < n
    &&& count_dir(ts, a, b) == 1
    &&& count_dir(ts, b, a) == 0
}

/// The boundary edges form a permutation of the vertices they touch: at
/// most one leaves and at most one enters each vertex, and every edge's
/// head has an edge leaving it.
pub open spec fn perm_ok(n: int, ts: Seq<Tri>) -> bool {
    &&& forall|a: int, b1: int, b2: int|
        #[trigger] bnd(n, ts, a, b1) && #[trigger] bnd(n, ts, a, b2) ==> b1 == b2
    &&& forall|a1: int, a2: int, b: int|
        #[trigger] bnd(n, ts, a1, b) && #[trigger] bnd(n, ts, a2, b) ==> a1 == a2
    &&& forall|a: int, b: int| #[trigger] bnd(n, ts, a, b) ==> exists|c: int| #[trigger] bnd(n, ts, b, c)
}

/// Every loop is nonempty.
#[verifier::opaque]
pub open spec fn loops_nonempty(loops: Seq<Seq<usize>>) -> bool {
    forall|i: int| 0 <= i < loops.len() ==> (#[trigger] loops[i]).len() > 0
}

/// Each loop follows boundary edges from every entry to the next, the last
/// entry leading back to the first.
#[verifier::opaque]
pub open spec fn loops_follow(n: int, ts: Seq<Tri>, loops: Seq<Seq<usize>>) -> bool {
    forall|i: int, k: int|
        0 <= i < loops.len() && 0 <= k < loops[i].len() ==> #[trigger] bnd(
            n,
            ts,
            loops[i][k] as int,
            loops[i][(k + 1) % (loops[i].len() as int)] as int,
        )
}

/// No loop visits a vertex twice.
#[verifier::opaque]
pub open spec fn loops_simple(loops: Seq<Seq<usize>>) -> bool {
    forall|i: int, k1: int, k2: int|
        0 <= i < loops.len() && 0 <= k1 < loops[i].len() && 0 <= k2 < loops[i].len() && k1 != k2
            ==> #[trigger] loops[i][k1] != #[trigger] loops[i][k2]
}

/// Every loop starts at its smallest vertex.
#[verifier::opaque]
pub open spec fn loops_min_first(loops: Seq<Seq<usize>>) -> bool {
    forall|i: int, k: int|
        0 <= i < loops.len() && 0 < k < loops[i].len() ==> loops[i][0] < #[trigger] loops[i][k]
}

/// Loops are ordered by their first vertex.
#[verifier::opaque]
pub open spec fn loops_sorted(loops: Seq<Seq<usize>>) -> bool {
    forall|i: int, j: int|
        0 <= i < j < loops.len() ==> (#[trigger] loops[i])[0] < (#[trigger] loops[j])[0]
}

/// Distinct loops share no vertex.
#[verifier::opaque]
pub open spec fn loops_disjoint(loops: Seq<Seq<usize>>) -> bool {
    forall|i: int, j: int, k1: int, k2: int|
        0 <= i < loops.len() && 0 <= j < loops.len() && i != j && 0 <= k1 < loops[i].len() && 0
            <= k2 < loops[j].len() ==> #[trigger] loops[i][k1] != #[trigger] loops[j][k2]
}

/// Every vertex that a boundary edge leaves lies on a loop.
pub open spec fn loops_cover(n: int, ts: Seq<Tri>, loops: Seq<Seq<usize>>) -> bool {
    forall|a: int, b: int|
        #[trigger] bnd(n, ts, a, b) ==> exists|i: int, k: int|
            0 <= i < loops.len() && 0 <= k < loops[i].len() && #[trigger] loops[i][k] == a
}

/// `loops` lists the boundary cycles canonically: each loop follows the
/// boundary edges in their direction and closes, visits distinct vertices,
/// starts at its smallest vertex; loops are ordered by their first vertex,
/// are pairwise vertex-disjoint, and together hold every vertex that a
/// boundary edge leaves.
pub open spec fn canonical_loops(n: int, ts: Seq<Tri>, loops: Seq<Seq<usize>>) -> bool {
    &&& canonical_core(n, ts, loops)
    &&& loops_cover(n, ts, loops)
}

/// The parts of [`canonical_loops`] that hold of every prefix of the
/// loop list while it is being built.
pub open spec fn canonical_core(n: int, ts: Seq<Tri>, loops: Seq<Seq<usize>>) -> bool {
    &&& loops_nonempty(loops)
    &&& loops_follow(n, ts, loops)
    &&& loops_simple(loops)
    &&& loops_min_first(loops)
    &&& loops_sorted(loops)
    &&& loops_disjoint(loops)
}

/// The loops as sequences.
pub open spec fn loops_view(loops: Seq<Vec<usize>>) -> Seq<Seq<usize>> {
    Seq::new(loops.len(), |i: int| loops[i]@)
}

/// `x` lies on one of the loops.
pub open spec fn on_loops(loops: Seq<Seq<usize>>, x: int) -> bool {
    exists|i: int, k: int| 0 <= i < loops.len() && 0 <= k < loops[i].len() && #[trigger] loops[i][k] == x
}

/// `x` lies on `p`.
pub open spec fn on_path(p: Seq<usize>, x: int) -> bool {
    exists|k: int| 0 <= k < p.len() && #[trigger] p[k] == x
}

/// The boundary edge leaving each vertex, found by scanning; `None` when the
/// boundary edges do not form a permutation.
fn boundary_successors(n: usize, ts: &Vec<Tri>) -> (r: Option<(Vec<bool>, Vec<usize>)>)
    requires
        tris_ok(n as int, ts@),
        n + 3 * ts.len() <= u32::MAX,
    ensures
        r is Some <==> perm_ok(n as int, ts@),
        r matches Some((has_out, out)) ==> {
            &&& has_out.len() == n
            &&& out.len() == n
            &&& forall|x: int| 0 <= x < n ==> #[trigger] has_out@[x] ==> out@[x] < n && bnd(n as int, ts@, x, out@[x] as int)
            &&& forall|x: int, y: int| #[trigger] bnd(n as int, ts@, x, y) ==> has_out@[x] && out@[x] == y
        },
{
    let mut has_out: Vec<bool> = Vec::new();
    let mut has_in: Vec<bool> = Vec::new();
    let mut out: Vec<usize> = Vec::new();
    let mut i: usize = 0;
    while i < n
        invariant
            i <= n,
            has_out.len() == i,
            has_in.len() == i,
            out.len() == i,
            forall|k: int| 0 <= k < i ==> !#[trigger] has_out@[k],
            forall|k: int| 0 <= k < i ==> !#[trigger] has_in@[k],
        decreases n - i,
    {
        has_out.push(false);
        has_in.push(false);
        out.push(0);
        i = i + 1;
    }
    let ghost ni = n as int;
    let mut a: usize = 0;
    while a < n
        invariant
            tris_ok(n as int, ts@),
            n + 3 * ts.len() <= u32::MAX,
            ni == n,
            a <= n,
            has_out.len() == n,
            has_in.len() == n,
            out.len() == n,
            forall|x: int| 0 <= x < n ==> #[trigger] has_out@[x] ==> out@[x] < n && bnd(ni, ts@, x, out@[x] as int) && x < a,
            forall|x: int, y: int| #[trigger] bnd(ni, ts@, x, y) && x < a ==> has_out@[x] && out@[x] == y && has_in@[y],
            forall|y: int| 0 <= y < n ==> #[trigger] has_in@[y] ==> exists|x: int| x < a && #[trigger] bnd(ni, ts@, x, y),
            forall|x1: int, x2: int, y: int|
                #[trigger] bnd(ni, ts@, x1, y) && #[trigger] bnd(ni, ts@, x2, y) && x1 < a && x2 < a ==> x1 == x2,
        decreases n - a,
    {
        let (fwd, bwd) = counts_at(n, ts, a);
        let mut b: usize = 0;
        while b < n
            invariant
                tris_ok(n as int, ts@),
                ni == n,
                a < n,
                b <= n,
                fwd.len() == n,
                bwd.len() == n,
                forall|x: int| 0 <= x < n ==> #[trigger] fwd@[x] == count_dir(ts@, a as int, x),
                forall|x: int| 0 <= x < n ==> #[trigger] bwd@[x] == count_dir(ts@, x, a as int),
                has_out.len() == n,
                has_in.len() == n,
                out.len() == n,
                forall|x: int| 0 <= x < n ==> #[trigger] has_out@[x] ==> out@[x] < n && bnd(ni, ts@, x, out@[x] as int)
                    && (x < a || (x == a && out@[x] < b)),
                forall|x: int, y: int| #[trigger] bnd(ni, ts@, x, y) && (x < a || (x == a && y < b)) ==> has_out@[x] && out@[x] == y && has_in@[y],
                forall|y: int| 0 <= y < n ==> #[trigger] has_in@[y] ==> exists|x: int| (x < a || (x == a && y < b)) && #[trigger] bnd(ni, ts@, x, y),
                forall|x1: int, x2: int, y: int|
                    #[trigger] bnd(ni, ts@, x1, y) && #[trigger] bnd(ni, ts@, x2, y) && (x1 < a || (x1 == a && y < b)) && (x2 < a || (x2 == a && y < b)) ==> x1 == x2,
            decreases n - b,
        {
            if fwd[b] == 1 && bwd[b] == 0 {
                proof {
                    assert(bnd(ni, ts@, a as int, b as int));
                }
                if has_out[a] {
                    proof {
                        let y = out@[a as int] as int;
                        assert(bnd(ni, ts@, a as int, y));
                        assert(y < b);
                    }
                    return None;
                }
                if has_in[b] {
                    proof {
                        let x = choose|x: int| (x < a || (x == a && b < b)) && #[trigger] bnd(ni, ts@, x, b as int);
                        assert(x != a);
                    }
                    return None;
                }
                let ghost ho = has_out@;
                let ghost hi = has_in@;
                let ghost oo = out@;
                has_out.set(a, true);
                out.set(a, b);
                has_in.set(b, true);
                proof {
                    assert forall|x: int| 0 <= x < n && #[trigger] has_out@[x] implies out@[x] < n && bnd(ni, ts@, x, out@[x] as int)
                        && (x < a || (x == a && out@[x] < b + 1)) by {
                        if x != a {
                            assert(has_out@[x] == ho[x]);
                            assert(out@[x] == oo[x]);
                        }
                    }
                    assert forall|x: int, y: int| #[trigger] bnd(ni, ts@, x, y) && (x < a || (x == a && y < b + 1)) implies has_out@[x] && out@[x] == y && has_in@[y] by {
                        if x == a && y < b {
                            assert(ho[x]);
                        }
                        if x != a {
                            assert(ho[x] && oo[x] == y && hi[y]);
                        }
                    }
                    assert forall|y: int| 0 <= y < n && #[trigger] has_in@[y] implies exists|x: int| (x < a || (x == a && y < b + 1)) && #[trigger] bnd(ni, ts@, x, y) by {
                        if y != b && has_in@[y] {
                            assert(hi[y]);
                            let x = choose|x: int| (x < a || (x == a && y < b)) && #[trigger] bnd(ni, ts@, x, y);
                        }
                    }
                    assert forall|x1: int, x2: int, y: int|
                        #[trigger] bnd(ni, ts@, x1, y) && #[trigger] bnd(ni, ts@, x2, y) && (x1 < a || (x1 == a && y < b + 1)) && (x2 < a || (x2 == a && y < b + 1)) implies x1 == x2 by {
                        if y == b {
                            if x1 != a {
                                assert(hi[y]);
                            }
                            if x2 != a {
                                assert(hi[y]);
                            }
                        }
                    }
                }
            } else {
                proof {
                    assert(!bnd(ni, ts@, a as int, b as int));
                    assert forall|y: int| 0 <= y < n && #[trigger] has_in@[y] implies exists|x: int| (x < a || (x == a && y < b + 1)) && #[trigger] bnd(ni, ts@, x, y) by {
                        if has_in@[y] {
                            let x = choose|x: int| (x < a || (x == a && y < b)) && #[trigger] bnd(ni, ts@, x, y);
                        }
                    }
                }
            }
            b = b + 1;
        }
        proof {
            assert forall|y: int| 0 <= y < n && #[trigger] has_in@[y] implies exists|x: int| x < a + 1 && #[trigger] bnd(ni, ts@, x, y) by {
                if has_in@[y] {
                    let x = choose|x: int| (x < a || (x == a && y < n)) && #[trigger] bnd(ni, ts@, x, y);
                }
            }
            assert forall|x: int, y: int| #[trigger] bnd(ni, ts@, x, y) && x < a + 1 implies has_out@[x] && out@[x] == y && has_in@[y] by {
                assert(y < n);
            }
        }
        a = a + 1;
    }
    // every head of a boundary edge must have an edge leaving it
    let mut x: usize = 0;
    while x < n
        invariant
            ni == n,
            x <= n,
            has_out.len() == n,
            out.len() == n,
            forall|z: int| 0 <= z < n ==> #[trigger] has_out@[z] ==> out@[z] < n && bnd(ni, ts@, z, out@[z] as int),
            forall|z: int, y: int| #[trigger] bnd(ni, ts@, z, y) ==> has_out@[z] && out@[z] == y,
            forall|z: int| 0 <= z < x && #[trigger] has_out@[z] ==> has_out@[out@[z] as int],
        decreases n - x,
    {
        if has_out[x] && !has_out[out[x]] {
            proof {
                let y = out@[x as int] as int;
                assert(bnd(ni, ts@, x as int, y));
                if exists|c: int| #[trigger] bnd(ni, ts@, y, c) {
                    let c = choose|c: int| #[trigger] bnd(ni, ts@, y, c);
                    assert(has_out@[y]);
                }
                assert(!perm_ok(ni, ts@));
            }
            return None;
        }
        x = x + 1;
    }
    proof {
        assert forall|z: int, y: int| #[trigger] bnd(ni, ts@, z, y) implies exists|c: int| #[trigger] bnd(ni, ts@, y, c) by {
            assert(has_out@[z] && out@[z] == y);
            assert(has_out@[y]);
            assert(bnd(ni, ts@, y, out@[y] as int));
        }
    }
    Some((has_out, out))
}

/// `has_out`/`out` give, for each vertex, the boundary edge leaving it.
pub open spec fn succ_ok(n: int, ts: Seq<Tri>, has_out: Seq<bool>, out: Seq<usize>) -> bool {
    &&& has_out.len() == n
    &&& out.len() == n
    &&& forall|x: int| 0 <= x < n ==> #[trigger] has_out[x] ==> out[x] < n && bnd(n, ts, x, out[x] as int)
    &&& forall|x: int, y: int| #[trigger] bnd(n, ts, x, y) ==> has_out[x] && out[x] == y
}

/// `p` follows boundary edges from each entry to the next, visits distinct
/// vertices, all below `n`.
pub open spec fn open_path(n: int, ts: Seq<Tri>, p: Seq<usize>) -> bool {
    &&& forall|k: int| 0 <= k < p.len() - 1 ==> #[trigger] bnd(n, ts, p[k] as int, p[k + 1] as int)
    &&& forall|k: int| 0 <= k < p.len() ==> #[trigger] p[k] < n
    &&& forall|k1: int, k2: int|
        0 <= k1 < p.len() && 0 <= k2 < p.len() && k1 != k2 ==> #[trigger] p[k1] != #[trigger] p[k2]
}

/// The predecessor of a loop vertex along a boundary edge lies on the loops.
proof fn lemma_pred_on_loops(n: int, ts: Seq<Tri>, lv: Seq<Seq<usize>>, x: int, y: int)
    requires
        perm_ok(n, ts),
        canonical_core(n, ts, lv),
        on_loops(lv, y),
        bnd(n, ts, x, y),
    ensures
        on_loops(lv, x),
{
    reveal(loops_nonempty);
    reveal(loops_follow);
    let (i, k) = choose|i: int, k: int| 0 <= i < lv.len() && 0 <= k < lv[i].len() && #[trigger] lv[i][k] == y;
    let len = lv[i].len() as int;
    assert(len > 0);
    let kp = if k == 0 {
        len - 1
    } else {
        k - 1
    };
    assert((kp + 1) % len == k) by {
        if k == 0 {
            assert((len - 1 + 1) % len == 0) by (nonlinear_arith)
                requires
                    len > 0,
            ;
        } else {
            assert((k - 1 + 1) % len == k) by (nonlinear_arith)
                requires
                    0 < k < len,
            ;
        }
    }
    assert(bnd(n, ts, lv[i][kp] as int, lv[i][(kp + 1) % len] as int));
    assert(bnd(n, ts, lv[i][kp] as int, y));
    assert(lv[i][kp] as int == x);
}

/// On a path of boundary edges, the predecessor of a non-first vertex
/// is the vertex before it; so the last vertex cannot lead back into the
/// path except to its start.
#[verifier::rlimit(40)]
proof fn lemma_no_shortcut(n: int, ts: Seq<Tri>, p: Seq<usize>, y: int)
    requires
        perm_ok(n, ts),
        open_path(n, ts, p),
        p.len() > 0,
        y != p[0],
        bnd(n, ts, p[p.len() - 1] as int, y),
    ensures
        !on_path(p, y),
{
    if on_path(p, y) {
        let k = choose|k: int| 0 <= k < p.len() && #[trigger] p[k] == y;
        assert(k != 0);
        let last = p.len() - 1;
        let j = k - 1;
        assert(bnd(n, ts, p[j] as int, p[j + 1] as int));
        assert(bnd(n, ts, p[k - 1] as int, y) && bnd(n, ts, p[last] as int, y));
        assert(p[k - 1] as int == p[last] as int);
        assert(k - 1 == last);
    }
}

/// Extending the traced path by `cur` and marking `cur` keeps the
/// tracing invariants.
proof fn lemma_path_push(
    n: int,
    ts: Seq<Tri>,
    lv0: Seq<Seq<usize>>,
    p0: Seq<usize>,
    v0: Seq<bool>,
    cur: usize,
    s: int,
)
    requires
        open_path(n, ts, p0),
        forall|k: int| 0 <= k < p0.len() ==> !on_loops(lv0, #[trigger] p0[k] as int),
        p0.len() > 0 ==> p0[0] == s,
        p0.len() > 0 ==> bnd(n, ts, p0[p0.len() - 1] as int, cur as int),
        p0.len() == 0 <==> cur == s,
        forall|k: int| 0 < k < p0.len() ==> s < #[trigger] p0[k],
        s <= cur < n,
        v0.len() == n,
        !v0[cur as int],
        forall|x: int| 0 <= x < n ==> (#[trigger] v0[x] <==> on_loops(lv0, x) || on_path(p0, x)),
    ensures
        ({
            let p = p0.push(cur);
            let v = v0.update(cur as int, true);
            &&& open_path(n, ts, p)
            &&& p[0] == s
            &&& p[p.len() - 1] == cur
            &&& forall|k: int| 0 < k < p.len() ==> s < #[trigger] p[k]
            &&& forall|k: int| 0 <= k < p.len() ==> !on_loops(lv0, #[trigger] p[k] as int)
            &&& forall|x: int| 0 <= x < n ==> (#[trigger] v[x] <==> on_loops(lv0, x) || on_path(p, x))
        }),
{
    let p = p0.push(cur);
    let v = v0.update(cur as int, true);
    assert(!on_path(p0, cur as int));
    assert(!on_loops(lv0, cur as int));
    assert forall|x: int| 0 <= x < n implies (#[trigger] v[x] <==> on_loops(lv0, x) || on_path(p, x)) by {
        if x == cur {
            assert(p[p.len() - 1] == cur);
        } else {
            if on_path(p, x) {
                let k = choose|k: int| 0 <= k < p.len() && #[trigger] p[k] == x;
                assert(k < p0.len());
                assert(p0[k] == x);
            }
            if on_path(p0, x) {
                let k = choose|k: int| 0 <= k < p0.len() && #[trigger] p0[k] == x;
                assert(p[k] == x);
            }
        }
    }
    assert forall|k1: int, k2: int| 0 <= k1 < p.len() && 0 <= k2 < p.len() && k1 != k2 implies #[trigger] p[k1] != #[trigger] p[k2] by {
        if k1 == p.len() - 1 && k2 < p0.len() {
            assert(on_path(p0, p0[k2] as int));
        } else if k2 == p.len() - 1 && k1 < p0.len() {
            assert(on_path(p0, p0[k1] as int));
        } else {
            assert(p[k1] == p0[k1] && p[k2] == p0[k2]);
        }
    }
    assert forall|k: int| 0 <= k < p.len() - 1 implies #[trigger] bnd(n, ts, p[k] as int, p[k + 1] as int) by {
        if k < p0.len() - 1 {
            assert(p[k] == p0[k] && p[k + 1] == p0[k + 1]);
        } else {
            assert(p[k] == p0[p0.len() - 1]);
        }
    }
    assert forall|k: int| 0 <= k < p.len() implies #[trigger] p[k] < n by {
        if k < p0.len() {
            assert(p[k] == p0[k]);
        }
    }
    assert forall|k: int| 0 < k < p.len() implies s < #[trigger] p[k] by {
        if k < p0.len() {
            assert(p[k] == p0[k]);
        }
    }
    assert forall|k: int| 0 <= k < p.len() implies !on_loops(lv0, #[trigger] p[k] as int) by {
        if k < p0.len() {
            assert(p[k] == p0[k]);
        }
    }
}

/// The successor of the last traced vertex, unless it closes the loop,
/// is a fresh vertex above the start.
proof fn lemma_next_fresh(
    n: int,
    ts: Seq<Tri>,
    lv0: Seq<Seq<usize>>,
    p: Seq<usize>,
    vis: Seq<bool>,
    v0: Seq<bool>,
    cur: usize,
    next: usize,
    s: int,
)
    requires
        perm_ok(n, ts),
        canonical_core(n, ts, lv0),
        open_path(n, ts, p),
        p.len() > 0,
        p[0] == s,
        p[p.len() - 1] == cur,
        !v0[cur as int],
        bnd(n, ts, cur as int, next as int),
        next != s,
        vis.len() == n,
        forall|x: int| 0 <= x < n ==> (#[trigger] vis[x] <==> on_loops(lv0, x) || on_path(p, x)),
        v0.len() == n,
        forall|x: int| 0 <= x < n ==> (#[trigger] v0[x] <==> on_loops(lv0, x) || on_path(p.drop_last(), x)),
    ensures
        !vis[next as int],
{
    if on_loops(lv0, next as int) {
        lemma_pred_on_loops(n, ts, lv0, cur as int, next as int);
        assert(v0[cur as int]);
    }
    lemma_no_shortcut(n, ts, p, next as int);
}

/// Follows boundary edges from `s` until they return to it, marking the
/// vertices passed.
#[verifier::rlimit(100)]
#[verifier::spinoff_prover]
fn trace_loop(
    n: usize,
    ts: &Vec<Tri>,
    has_out: &Vec<bool>,
    out: &Vec<usize>,
    visited: &mut Vec<bool>,
    s: usize,
    Ghost(lv0): Ghost<Seq<Seq<usize>>>,
) -> (path: Vec<usize>)
    requires
        perm_ok(n as int, ts@),
        succ_ok(n as int, ts@, has_out@, out@),
        old(visited).len() == n,
        s < n,
        has_out@[s as int],
        !old(visited)@[s as int],
        canonical_core(n as int, ts@, lv0),
        forall|x: int| 0 <= x < n ==> (#[trigger] old(visited)@[x] <==> on_loops(lv0, x)),
        forall|x: int| 0 <= x < s && #[trigger] has_out@[x] ==> old(visited)@[x],
    ensures
        final(visited).len() == n,
        path@.len() > 0,
        path@[0] == s,
        open_path(n as int, ts@, path@),
        bnd(n as int, ts@, path@[path@.len() - 1] as int, s as int),
        forall|k: int| 0 < k < path@.len() ==> s < #[trigger] path@[k],
        forall|k: int| 0 <= k < path@.len() ==> !on_loops(lv0, #[trigger] path@[k] as int),
        forall|x: int| 0 <= x < n ==> (#[trigger] final(visited)@[x] <==> on_loops(lv0, x) || on_path(path@, x)),
{
    let ghost ni = n as int;
    let mut path: Vec<usize> = Vec::new();
    let mut cur: usize = s;
    loop
        invariant_except_break
            ni == n,
            perm_ok(ni, ts@),
            succ_ok(ni, ts@, has_out@, out@),
            s < n,
            visited.len() == n,
            canonical_core(ni, ts@, lv0),
            forall|x: int| 0 <= x < n ==> (#[trigger] visited@[x] <==> on_loops(lv0, x) || on_path(path@, x)),
            forall|x: int| 0 <= x < s && #[trigger] has_out@[x] ==> visited@[x],
            cur < n,
            has_out@[cur as int],
            !visited@[cur as int],
            cur >= s,
            path@.len() == 0 <==> cur == s,
            path@.len() > 0 ==> path@[0] == s,
            path@.len() > 0 ==> bnd(ni, ts@, path@[path@.len() - 1] as int, cur as int),
            open_path(ni, ts@, path@),
            forall|k: int| 0 < k < path@.len() ==> s < #[trigger] path@[k],
            forall|k: int| 0 <= k < path@.len() ==> !on_loops(lv0, #[trigger] path@[k] as int),
        ensures
            visited.len() == n,
            path@.len() > 0,
            path@[0] == s,
            open_path(ni, ts@, path@),
            bnd(ni, ts@, path@[path@.len() - 1] as int, s as int),
            forall|k: int| 0 < k < path@.len() ==> s < #[trigger] path@[k],
            forall|x: int| 0 <= x < n ==> (#[trigger] visited@[x] <==> on_loops(lv0, x) || on_path(path@, x)),
            forall|k: int| 0 <= k < path@.len() ==> !on_loops(lv0, #[trigger] path@[k] as int),
        decreases count_false(visited@),
    {
        let ghost p0 = path@;
        let ghost v0 = visited@;
        proof {
            lemma_count_false_set(visited@, cur as int);
        }
        path.push(cur);
        visited.set(cur, true);
        let next = out[cur];
        proof {
            assert(path@ == p0.push(cur));
            assert(visited@ == v0.update(cur as int, true));
            lemma_path_push(ni, ts@, lv0, p0, v0, cur, s as int);
            assert(bnd(ni, ts@, cur as int, next as int));
        }
        if next == s {
            break;
        }
        proof {
            assert(path@.drop_last() =~= p0);
            lemma_next_fresh(ni, ts@, lv0, path@, visited@, v0, cur, next, s as int);
            let c = choose|c: int| #[trigger] bnd(ni, ts@, next as int, c);
            assert(has_out@[next as int]);
            if next < s {
                assert(visited@[next as int]);
            }
        }
        cur = next;
    }
    path
}

proof fn lemma_push_follow(n: int, ts: Seq<Tri>, lv0: Seq<Seq<usize>>, p: Seq<usize>)
    requires
        loops_follow(n, ts, lv0),
        p.len() > 0,
        open_path(n, ts, p),
        bnd(n, ts, p[p.len() - 1] as int, p[0] as int),
    ensures
        loops_follow(n, ts, lv0.push(p)),
{
    reveal(loops_follow);
    let lv = lv0.push(p);
    let len = p.len() as int;
    assert forall|k: int| 0 <= k < len implies #[trigger] bnd(n, ts, p[k] as int, p[(k + 1) % len] as int) by {
        if k < len - 1 {
            assert((k + 1) % len == k + 1) by (nonlinear_arith)
                requires
                    0 <= k < len - 1,
            ;
        } else {
            assert((k + 1) % len == 0) by (nonlinear_arith)
                requires
                    k == len - 1,
                    len > 0,
            ;
        }
    }
    assert forall|i: int, k: int|
        0 <= i < lv.len() && 0 <= k < lv[i].len() implies #[trigger] bnd(
            n,
            ts,
            lv[i][k] as int,
            lv[i][(k + 1) % (lv[i].len() as int)] as int,
        ) by {
        if i < lv0.len() {
            assert(lv[i] == lv0[i]);
        } else {
            assert(lv[i] == p);
        }
    }
}

proof fn lemma_push_disjoint(lv0: Seq<Seq<usize>>, p: Seq<usize>)
    requires
        loops_disjoint(lv0),
        forall|k: int| 0 <= k < p.len() ==> !on_loops(lv0, #[trigger] p[k] as int),
    ensures
        loops_disjoint(lv0.push(p)),
{
    reveal(loops_disjoint);
    let lv = lv0.push(p);
    assert forall|i: int, j: int, k1: int, k2: int|
        0 <= i < lv.len() && 0 <= j < lv.len() && i != j && 0 <= k1 < lv[i].len() && 0 <= k2 < lv[j].len()
            implies #[trigger] lv[i][k1] != #[trigger] lv[j][k2] by {
        if i == lv0.len() {
            assert(lv0[j][k2] == lv[j][k2]);
            if lv[i][k1] == lv[j][k2] {
                assert(on_loops(lv0, p[k1] as int));
            }
        } else if j == lv0.len() {
            assert(lv0[i][k1] == lv[i][k1]);
            if lv[i][k1] == lv[j][k2] {
                assert(on_loops(lv0, p[k2] as int));
            }
        } else {
            assert(lv0[i] == lv[i] && lv0[j] == lv[j]);
        }
    }
}

proof fn lemma_push_order(lv0: Seq<Seq<usize>>, p: Seq<usize>, s: int)
    requires
        loops_nonempty(lv0),
        loops_simple(lv0),
        loops_min_first(lv0),
        loops_sorted(lv0),
        p.len() > 0,
        p[0] == s,
        forall|i: int| 0 <= i < lv0.len() ==> (#[trigger] lv0[i])[0] < s,
        forall|k1: int, k2: int|
            0 <= k1 < p.len() && 0 <= k2 < p.len() && k1 != k2 ==> #[trigger] p[k1] != #[trigger] p[k2],
        forall|k: int| 0 < k < p.len() ==> s < #[trigger] p[k],
    ensures
        loops_nonempty(lv0.push(p)),
        loops_simple(lv0.push(p)),
        loops_min_first(lv0.push(p)),
        loops_sorted(lv0.push(p)),
{
    reveal(loops_nonempty);
    reveal(loops_simple);
    reveal(loops_min_first);
    reveal(loops_sorted);
    let lv = lv0.push(p);
    assert forall|i: int, j: int| 0 <= i < j < lv.len() implies (#[trigger] lv[i])[0] < (#[trigger] lv[j])[0] by {
        if j == lv0.len() {
            assert(lv[i] == lv0[i]);
        } else {
            assert(lv[i] == lv0[i] && lv[j] == lv0[j]);
        }
    }
    assert forall|i: int, k1: int, k2: int|
        0 <= i < lv.len() && 0 <= k1 < lv[i].len() && 0 <= k2 < lv[i].len() && k1 != k2
            implies #[trigger] lv[i][k1] != #[trigger] lv[i][k2] by {
        if i < lv0.len() {
            assert(lv[i] == lv0[i]);
        }
    }
    assert forall|i: int, k: int|
        0 <= i < lv.len() && 0 < k < lv[i].len() implies lv[i][0] < #[trigger] lv[i][k] by {
        if i < lv0.len() {
            assert(lv[i] == lv0[i]);
        }
    }
    assert forall|i: int| 0 <= i < lv.len() implies (#[trigger] lv[i]).len() > 0 by {
        if i < lv0.len() {
            assert(lv[i] == lv0[i]);
        }
    }
}

proof fn lemma_marks_after_push(n: int, lv0: Seq<Seq<usize>>, pv: Seq<usize>, vis: Seq<bool>)
    requires
        vis.len() == n,
        forall|x: int| 0 <= x < n ==> (#[trigger] vis[x] <==> on_loops(lv0, x) || on_path(pv, x)),
    ensures
        forall|x: int| 0 <= x < n ==> (#[trigger] vis[x] <==> on_loops(lv0.push(pv), x)),
{
    let lv = lv0.push(pv);
    assert forall|x: int| 0 <= x < n implies (#[trigger] vis[x] <==> on_loops(lv, x)) by {
        if on_loops(lv, x) {
            let (i, k) = choose|i: int, k: int| 0 <= i < lv.len() && 0 <= k < lv[i].len() && #[trigger] lv[i][k] == x;
            if i < lv0.len() {
                assert(lv0[i][k] == x);
            } else {
                assert(on_path(pv, x));
            }
        }
        if on_loops(lv0, x) {
            let (i, k) = choose|i: int, k: int| 0 <= i < lv0.len() && 0 <= k < lv0[i].len() && #[trigger] lv0[i][k] == x;
            assert(lv[i][k] == x);
        }
        if on_path(pv, x) {
            let k = choose|k: int| 0 <= k < pv.len() && #[trigger] pv[k] == x;
            assert(lv[lv0.len() as int][k] == x);
        }
    }
}

proof fn lemma_core_push(n: int, ts: Seq<Tri>, lv0: Seq<Seq<usize>>, p: Seq<usize>, s: int)
    requires
        canonical_core(n, ts, lv0),
        p.len() > 0,
        p[0] == s,
        forall|i: int| 0 <= i < lv0.len() ==> (#[trigger] lv0[i])[0] < s,
        open_path(n, ts, p),
        bnd(n, ts, p[p.len() - 1] as int, s),
        forall|k: int| 0 < k < p.len() ==> s < #[trigger] p[k],
        forall|k: int| 0 <= k < p.len() ==> !on_loops(lv0, #[trigger] p[k] as int),
    ensures
        canonical_core(n, ts, lv0.push(p)),
{
    lemma_push_follow(n, ts, lv0, p);
    lemma_push_disjoint(lv0, p);
    lemma_push_order(lv0, p, s);
}

/// Vertex `v` breaks the loop structure of the boundary edges: two of
/// them leave it, or two enter it, or one enters it and none leaves.
pub open spec fn loop_fault(n: int, ts: Seq<Tri>, v: int) -> bool {
    ||| exists|b1: int, b2: int|
        b1 != b2 && #[trigger] bnd(n, ts, v, b1) && #[trigger] bnd(n, ts, v, b2)
    ||| exists|a1: int, a2: int|
        a1 != a2 && #[trigger] bnd(n, ts, a1, v) && #[trigger] bnd(n, ts, a2, v)
    ||| (exists|a: int| #[trigger] bnd(n, ts, a, v)) && !(exists|c: int| #[trigger] bnd(n, ts, v, c))
}

/// The boundary edges form a permutation exactly when no vertex breaks the
/// loop structure.
proof fn lemma_perm_faults(n: int, ts: Seq<Tri>)
    ensures
        perm_ok(n, ts) <==> forall|v: int| 0 <= v < n ==> !#[trigger] loop_fault(n, ts, v),
{
    if perm_ok(n, ts) {
        assert forall|v: int| 0 <= v < n implies !#[trigger] loop_fault(n, ts, v) by {
            if exists|a: int| #[trigger] bnd(n, ts, a, v) {
                let a = choose|a: int| #[trigger] bnd(n, ts, a, v);
                assert(exists|c: int| #[trigger] bnd(n, ts, v, c));
            }
        }
    } else {
        if !(forall|a: int, b1: int, b2: int|
            #[trigger] bnd(n, ts, a, b1) && #[trigger] bnd(n, ts, a, b2) ==> b1 == b2) {
            let (a, b1, b2) = choose|a: int, b1: int, b2: int|
                #[trigger] bnd(n, ts, a, b1) && #[trigger] bnd(n, ts, a, b2) && b1 != b2;
            assert(loop_fault(n, ts, a));
        } else if !(forall|a1: int, a2: int, b: int|
            #[trigger] bnd(n, ts, a1, b) && #[trigger] bnd(n, ts, a2, b) ==> a1 == a2) {
            let (a1, a2, b) = choose|a1: int, a2: int, b: int|
                #[trigger] bnd(n, ts, a1, b) && #[trigger] bnd(n, ts, a2, b) && a1 != a2;
            assert(loop_fault(n, ts, b));
        } else {
            let (a, b) = choose|a: int, b: int|
                #[trigger] bnd(n, ts, a, b) && !exists|c: int| #[trigger] bnd(n, ts, b, c);
            assert(loop_fault(n, ts, b));
        }
    }
}

/// Whether vertex `v` breaks the loop structure ([`loop_fault`]).
fn vertex_loop_fault(n: usize, ts: &Vec<Tri>, v: usize) -> (r: bool)
    requires
        tris_ok(n as int, ts@),
        n + 3 * ts.len() <= u32::MAX,
        v < n,
    ensures
        r == loop_fault(n as int, ts@, v as int),
{
    let ghost ni = n as int;
    let ghost vi = v as int;
    let (fwd, bwd) = counts_at(n, ts, v);
    let mut out_one = false;
    let mut out_two = false;
    let mut in_one = false;
    let mut in_two = false;
    let ghost mut ob: int = 0;
    let ghost mut ib: int = 0;
    let mut x: usize = 0;
    while x < n
        invariant
            ni == n,
            vi == v,
            v < n,
            x <= n,
            fwd.len() == n,
            bwd.len() == n,
            forall|y: int| 0 <= y < n ==> #[trigger] fwd@[y] == count_dir(ts@, vi, y),
            forall|y: int| 0 <= y < n ==> #[trigger] bwd@[y] == count_dir(ts@, y, vi),
            out_one ==> 0 <= ob < x && bnd(ni, ts@, vi, ob),
            !out_one ==> forall|b: int| 0 <= b < x ==> !#[trigger] bnd(ni, ts@, vi, b),
            out_two ==> exists|b1: int, b2: int|
                b1 != b2 && #[trigger] bnd(ni, ts@, vi, b1) && #[trigger] bnd(ni, ts@, vi, b2),
            !out_two ==> forall|b1: int, b2: int|
                0 <= b1 < x && 0 <= b2 < x && b1 != b2 ==> !(#[trigger] bnd(ni, ts@, vi, b1)
                    && #[trigger] bnd(ni, ts@, vi, b2)),
            in_one ==> 0 <= ib < x && bnd(ni, ts@, ib, vi),
            !in_one ==> forall|a: int| 0 <= a < x ==> !#[trigger] bnd(ni, ts@, a, vi),
            in_two ==> exists|a1: int, a2: int|
                a1 != a2 && #[trigger] bnd(ni, ts@, a1, vi) && #[trigger] bnd(ni, ts@, a2, vi),
            !in_two ==> forall|a1: int, a2: int|
                0 <= a1 < x && 0 <= a2 < x && a1 != a2 ==> !(#[trigger] bnd(ni, ts@, a1, vi)
                    && #[trigger] bnd(ni, ts@, a2, vi)),
        decreases n - x,
    {
        let leaves = fwd[x] == 1 && bwd[x] == 0;
        let enters = bwd[x] == 1 && fwd[x] == 0;
        proof {
            assert(leaves == bnd(ni, ts@, vi, x as int));
            assert(enters == bnd(ni, ts@, x as int, vi));
        }
        if leaves {
            if out_one {
                out_two = true;
                proof {
                    assert(bnd(ni, ts@, vi, ob) && bnd(ni, ts@, vi, x as int));
                }
            } else {
                out_one = true;
                proof {
                    ob = x as int;
                }
            }
        }
        if enters {
            if in_one {
                in_two = true;
                proof {
                    assert(bnd(ni, ts@, ib, vi) && bnd(ni, ts@, x as int, vi));
                }
            } else {
                in_one = true;
                proof {
                    ib = x as int;
                }
            }
        }
        x = x + 1;
    }
    let r = out_two || in_two || (in_one && !out_one);
    proof {
        if out_one {
            assert(exists|c: int| #[trigger] bnd(ni, ts@, vi, c));
        }
        if in_one {
            assert(exists|a: int| #[trigger] bnd(ni, ts@, a, vi));
        }
    }
    r
}

/// The smallest vertex that breaks the loop structure, if any.
fn first_loop_fault(n: usize, ts: &Vec<Tri>) -> (r: Option<usize>)
    requires
        tris_ok(n as int, ts@),
        n + 3 * ts.len() <= u32::MAX,
    ensures
        r is None <==> forall|v: int| 0 <= v < n ==> !#[trigger] loop_fault(n as int, ts@, v),
        r matches Some(v) ==> v < n && loop_fault(n as int, ts@, v as int) && forall|u: int|
            0 <= u < v ==> !#[trigger] loop_fault(n as int, ts@, u),
{
    let mut v: usize = 0;
    while v < n
        invariant
            tris_ok(n as int, ts@),
            n + 3 * ts.len() <= u32::MAX,
            v <= n,
            forall|u: int| 0 <= u < v ==> !#[trigger] loop_fault(n as int, ts@, u),
        decreases n - v,
    {
        if vertex_loop_fault(n, ts, v) {
            return Some(v);
        }
        v = v + 1;
    }
    None
}

/// The canonical boundary loops, or, when the boundary edges do not form a
/// permutation, the smallest vertex that breaks the loop structure. Loops
/// are traced from their smallest unvisited vertex upward, so each starts
/// at its minimum and they come out sorted.
pub fn boundary_loops_idx(n: usize, ts: &Vec<Tri>) -> (r: Result<Vec<Vec<usize>>, usize>)
    requires
        tris_ok(n as int, ts@),
        n + 3 * ts.len() <= u32::MAX,
    ensures
        r is Ok <==> perm_ok(n as int, ts@),
        r matches Ok(loops) ==> canonical_loops(n as int, ts@, loops_view(loops@)),
        r matches Ok(loops) ==> forall|i: int, k: int|
            0 <= i < loops@.len() && 0 <= k < loops@[i]@.len() ==> #[trigger] loops@[i]@[k] < n,
        r matches Err(v) ==> v < n && loop_fault(n as int, ts@, v as int) && forall|u: int|
            0 <= u < v ==> !#[trigger] loop_fault(n as int, ts@, u),
{
    proof {
        lemma_perm_faults(n as int, ts@);
    }
    let (has_out, out) = match boundary_successors(n, ts) {
        Some(p) => p,
        None => {
            match first_loop_fault(n, ts) {
                Some(v) => {
                    return Err(v);
                },
                None => {
                    proof {
                        assert(false);
                    }
                    return Err(0);
                },
            }
        },
    };
    let ghost ni = n as int;
    let mut visited: Vec<bool> = Vec::new();
    let mut i: usize = 0;
    while i < n
        invariant
            i <= n,
            visited.len() == i,
            forall|k: int| 0 <= k < i ==> !#[trigger] visited@[k],
        decreases n - i,
    {
        visited.push(false);
        i = i + 1;
    }
    let mut loops: Vec<Vec<usize>> = Vec::new();
    proof {
        assert forall|x: int| 0 <= x < n implies (#[trigger] visited@[x] <==> on_loops(loops_view(loops@), x)) by {}
        reveal(loops_nonempty);
        reveal(loops_follow);
        reveal(loops_simple);
        reveal(loops_min_first);
        reveal(loops_sorted);
        reveal(loops_disjoint);
    }
    let mut s: usize = 0;
    while s < n
        invariant
            ni == n,
            perm_ok(ni, ts@),
            succ_ok(ni, ts@, has_out@, out@),
            s <= n,
            visited.len() == n,
            forall|i: int, k: int|
                0 <= i < loops@.len() && 0 <= k < loops@[i]@.len() ==> #[trigger] loops@[i]@[k] < n,
            forall|x: int| 0 <= x < n ==> (#[trigger] visited@[x] <==> on_loops(loops_view(loops@), x)),
            forall|x: int| 0 <= x < s && #[trigger] has_out@[x] ==> visited@[x],
            forall|i: int| 0 <= i < loops@.len() ==> (#[trigger] loops@[i])@[0] < s,
            canonical_core(ni, ts@, loops_view(loops@)),
        decreases n - s,
    {
        if has_out[s] && !visited[s] {
            let ghost lv0 = loops_view(loops@);
            proof {
                assert forall|i: int| 0 <= i < lv0.len() implies (#[trigger] lv0[i])[0] < s by {
                    assert(lv0[i] == loops@[i]@);
                }
            }
            let path = trace_loop(n, ts, &has_out, &out, &mut visited, s, Ghost(lv0));
            let ghost pv = path@;
            loops.push(path);
            proof {
                let lv = loops_view(loops@);
                assert(lv =~= lv0.push(pv));
                lemma_core_push(ni, ts@, lv0, pv, s as int);
                lemma_marks_after_push(ni, lv0, pv, visited@);
                assert forall|i: int| 0 <= i < loops@.len() implies (#[trigger] loops@[i])@[0] < s + 1 by {
                    if i < lv0.len() {
                        assert(loops@[i]@ == lv0[i]);
                    } else {
                        assert(loops@[i]@ == pv);
                    }
                }
                assert forall|i: int, k: int|
                    0 <= i < loops@.len() && 0 <= k < loops@[i]@.len() implies #[trigger] loops@[i]@[k] < n by {
                    if i < lv0.len() {
                        assert(loops@[i]@ == lv0[i]);
                    } else {
                        assert(loops@[i]@ == pv);
                    }
                }
                assert(visited@[s as int]) by {
                    assert(on_path(pv, s as int));
                }
            }
        }
        s = s + 1;
    }
    proof {
        let lv = loops_view(loops@);
        assert forall|a: int, b: int| #[trigger] bnd(ni, ts@, a, b) implies exists|i: int, k: int|
            0 <= i < lv.len() && 0 <= k < lv[i].len() && #[trigger] lv[i][k] == a by {
            assert(has_out@[a]);
            assert(visited@[a]);
            assert(on_loops(lv, a));
        }
    }
    Ok(loops)
}

/// Every face has three distinct corners.
pub open spec fn tris_distinct(ts: Seq<Tri>) -> bool {
    forall|f: int|
        0 <= f < ts.len() ==> (#[trigger] ts[f]).0 != ts[f].1 && ts[f].1 != ts[f].2 && ts[f].0 != ts[f].2
}

proof fn lemma_corner_shift(t: Tri, k: int, j: int)
    requires
        0 <= k < 3,
        0 <= j < 3,
    ensures
        corner(t, (k + j) % 3) == corner(t, k + j),
        corner(t, (k + j) % 3 + 1) == corner(t, k + j + 1),
        corner(t, (k + j) % 3 + 2) == corner(t, k + j + 2),
{
}

/// A boundary edge `a -> b` shows in the links of both endpoints: at `a`,
/// `b` starts a link path (it has a successor but no predecessor); at `b`,
/// `a` ends one.
proof fn lemma_bnd_in_links(n: int, ts: Seq<Tri>, a: int, b: int)
    requires
        bnd(n, ts, a, b),
    ensures
        is_link_node(ts, a, b),
        has_succ(ts, a, b),
        !has_pred(ts, a, b),
        is_link_node(ts, b, a),
        has_pred(ts, b, a),
        !has_succ(ts, b, a),
{
    lemma_count_dir_pos(ts, a, b);
    lemma_count_dir_pos(ts, b, a);
    let (f, k) = choose|f: int, k: int|
        0 <= f < ts.len() && 0 <= k < 3 && #[trigger] corner(ts[f], k) == a && corner(ts[f], k + 1) == b;
    let t = ts[f];
    let p = corner(t, k + 2);
    assert(face_link(t, a, k, b, p));
    assert(link_edge(ts, a, b, p));
    let k1 = (k + 1) % 3;
    lemma_corner_shift(t, k, 1);
    assert(face_link(t, b, k1, p, a));
    assert(link_edge(ts, b, p, a));
    if has_pred(ts, a, b) {
        let w = choose|w: int| link_edge(ts, a, w, b);
        let (g, j) = choose|g: int, j: int| 0 <= g < ts.len() && 0 <= j < 3 && #[trigger] face_link(ts[g], a, j, w, b);
        let j2 = (j + 2) % 3;
        lemma_corner_shift(ts[g], j, 2);
        assert(corner(ts[g], j + 3) == corner(ts[g], j));
        assert(corner(ts[g], j2) == b && corner(ts[g], j2 + 1) == a);
        assert(count_dir(ts, b, a) > 0);
    }
    if has_succ(ts, b, a) {
        let w = choose|w: int| link_edge(ts, b, a, w);
        let (g, j) = choose|g: int, j: int| 0 <= g < ts.len() && 0 <= j < 3 && #[trigger] face_link(ts[g], b, j, a, w);
        assert(corner(ts[g], j) == b && corner(ts[g], j + 1) == a);
        assert(count_dir(ts, b, a) > 0);
    }
}

proof fn lemma_starts_two(ts: Seq<Tri>, v: int, k: int, u1: int, u2: int)
    requires
        u1 != u2,
        0 <= u1,
        0 <= u2,
        is_link_node(ts, v, u1) && !has_pred(ts, v, u1),
        is_link_node(ts, v, u2) && !has_pred(ts, v, u2),
    ensures
        path_starts(ts, v, k) >= (if u1 < k {
            1int
        } else {
            0int
        }) + (if u2 < k {
            1int
        } else {
            0int
        }),
    decreases k,
{
    if k > 0 {
        lemma_starts_two(ts, v, k - 1, u1, u2);
    }
}

proof fn lemma_ends_two(ts: Seq<Tri>, v: int, k: int, u1: int, u2: int)
    requires
        u1 != u2,
        0 <= u1,
        0 <= u2,
        is_link_node(ts, v, u1) && !has_succ(ts, v, u1),
        is_link_node(ts, v, u2) && !has_succ(ts, v, u2),
    ensures
        path_ends(ts, v, k) >= (if u1 < k {
            1int
        } else {
            0int
        }) + (if u2 < k {
            1int
        } else {
            0int
        }),
    decreases k,
{
    if k > 0 {
        lemma_ends_two(ts, v, k - 1, u1, u2);
    }
}

/// A positive count of path starts has a witness.
pub proof fn lemma_start_exists(ts: Seq<Tri>, v: int, k: int)
    requires
        path_starts(ts, v, k) > 0,
    ensures
        exists|u: int| 0 <= u < k && #[trigger] is_link_node(ts, v, u) && !has_pred(ts, v, u),
    decreases k,
{
    if k > 0 {
        if path_starts(ts, v, k - 1) > 0 {
            lemma_start_exists(ts, v, k - 1);
            let u = choose|u: int| 0 <= u < k - 1 && #[trigger] is_link_node(ts, v, u) && !has_pred(ts, v, u);
        } else {
            assert(is_link_node(ts, v, k - 1));
        }
    }
}

/// When no vertex below `k` fails, each of them passes.
pub proof fn lemma_first_bad_none(ts: Seq<Tri>, n: int, mode: AuditMode, k: int, v: int)
    requires
        first_bad_vertex(ts, n, mode, k) is None,
        0 <= v < k,
    ensures
        vertex_verdict(ts, v, n, mode) is None,
    decreases k,
{
    if v < k - 1 {
        lemma_first_bad_none(ts, n, mode, k - 1, v);
    }
}

/// A vertex that a boundary edge touches has a non-cyclic link; if its
/// verdict is a pass, the audit is in boundary mode and the link is one
/// simple path.
proof fn lemma_open_link_is_path(ts: Seq<Tri>, n: int, mode: AuditMode, v: int, u: int)
    requires
        vertex_verdict(ts, v, n, mode) is None,
        0 <= u < n,
        is_link_node(ts, v, u),
        !has_pred(ts, v, u) || !has_succ(ts, v, u),
    ensures
        mode == AuditMode::Boundary,
        path_starts(ts, v, n) == 1,
        path_ends(ts, v, n) == 1,
{
    assert(!cyclic(ts, v, n));
}

/// The facts every step of the boundary argument uses.
pub open spec fn audited(n: int, ts: Seq<Tri>, mode: AuditMode) -> bool {
    &&& tris_ok(n, ts)
    &&& tris_distinct(ts)
    &&& forall|a: int, b: int| !#[trigger] is_faulty(n, ts, mode, a, b)
    &&& first_bad_vertex(ts, n, mode, n) is None
}

proof fn lemma_bnd_needs_boundary_mode(n: int, ts: Seq<Tri>, mode: AuditMode, a: int, b: int)
    requires
        audited(n, ts, mode),
        bnd(n, ts, a, b),
    ensures
        mode == AuditMode::Boundary,
{
    let lo = if a < b { a } else { b };
    let hi = if a < b { b } else { a };
    assert(a != b);
    assert(uses(ts, lo, hi) == 1);
    assert(!is_faulty(n, ts, mode, lo, hi));
}

proof fn lemma_bnd_function(n: int, ts: Seq<Tri>, mode: AuditMode, a: int, b1: int, b2: int)
    requires
        audited(n, ts, mode),
        bnd(n, ts, a, b1),
        bnd(n, ts, a, b2),
    ensures
        b1 == b2,
{
    if b1 != b2 {
        lemma_bnd_in_links(n, ts, a, b1);
        lemma_bnd_in_links(n, ts, a, b2);
        lemma_first_bad_none(ts, n, mode, n, a);
        lemma_open_link_is_path(ts, n, mode, a, b1);
        lemma_starts_two(ts, a, n, b1, b2);
    }
}

proof fn lemma_bnd_injective(n: int, ts: Seq<Tri>, mode: AuditMode, a1: int, a2: int, b: int)
    requires
        audited(n, ts, mode),
        bnd(n, ts, a1, b),
        bnd(n, ts, a2, b),
    ensures
        a1 == a2,
{
    if a1 != a2 {
        lemma_bnd_in_links(n, ts, a1, b);
        lemma_bnd_in_links(n, ts, a2, b);
        lemma_first_bad_none(ts, n, mode, n, b);
        lemma_open_link_is_path(ts, n, mode, b, a1);
        lemma_ends_two(ts, b, n, a1, a2);
    }
}

/// The link of `b` starts at `x` (no predecessor): so `b -> x` is a face
/// edge and `x -> b` is none.
pub proof fn lemma_start_gives_edge(ts: Seq<Tri>, b: int, x: int)
    requires
        is_link_node(ts, b, x),
        !has_pred(ts, b, x),
    ensures
        count_dir(ts, b, x) > 0,
        count_dir(ts, x, b) == 0,
        exists|f: int, k: int|
            0 <= f < ts.len() && 0 <= k < 3 && #[trigger] corner(ts[f], k) == b && corner(ts[f], k + 1) == x,
{
    let w = choose|w: int| link_edge(ts, b, x, w) || link_edge(ts, b, w, x);
    assert(link_edge(ts, b, x, w));
    let (f, k) = choose|f: int, k: int| 0 <= f < ts.len() && 0 <= k < 3 && #[trigger] face_link(ts[f], b, k, x, w);
    assert(corner(ts[f], k) == b && corner(ts[f], k + 1) == x);
    lemma_count_dir_pos(ts, b, x);
    lemma_count_dir_pos(ts, x, b);
    if count_dir(ts, x, b) > 0 {
        let (g, j) = choose|g: int, j: int|
            0 <= g < ts.len() && 0 <= j < 3 && #[trigger] corner(ts[g], j) == x && corner(ts[g], j + 1) == b;
        let j1 = (j + 1) % 3;
        lemma_corner_shift(ts[g], j, 1);
        assert(corner(ts[g], j + 3) == corner(ts[g], j));
        assert(face_link(ts[g], b, j1, corner(ts[g], j + 2), x));
        assert(link_edge(ts, b, corner(ts[g], j + 2), x));
    }
}

proof fn lemma_bnd_closed(n: int, ts: Seq<Tri>, mode: AuditMode, a: int, b: int)
    requires
        audited(n, ts, mode),
        bnd(n, ts, a, b),
    ensures
        exists|c: int| #[trigger] bnd(n, ts, b, c),
{
    lemma_bnd_in_links(n, ts, a, b);
    lemma_first_bad_none(ts, n, mode, n, b);
    lemma_open_link_is_path(ts, n, mode, b, a);
    lemma_start_exists(ts, b, n);
    let x = choose|x: int| 0 <= x < n && #[trigger] is_link_node(ts, b, x) && !has_pred(ts, b, x);
    lemma_start_gives_edge(ts, b, x);
    let (f, k) = choose|f: int, k: int|
        0 <= f < ts.len() && 0 <= k < 3 && #[trigger] corner(ts[f], k) == b && corner(ts[f], k + 1) == x;
    assert(b != x) by {
        assert(ts[f].0 != ts[f].1 && ts[f].1 != ts[f].2 && ts[f].0 != ts[f].2);
    }
    let lo = if b < x { b } else { x };
    let hi = if b < x { x } else { b };
    assert(!is_faulty(n, ts, mode, lo, hi));
    assert(bnd(n, ts, b, x));
}

/// Once the edge stage and the vertex stage pass, the boundary edges form
/// a permutation of the vertices they leave, and in closed mode there are
/// none.
pub proof fn lemma_audited_boundary(n: int, ts: Seq<Tri>, mode: AuditMode)
    requires
        audited(n, ts, mode),
    ensures
        perm_ok(n, ts),
        mode == AuditMode::Closed ==> forall|a: int, b: int| !#[trigger] bnd(n, ts, a, b),
{
    assert forall|a: int, b: int| #[trigger] bnd(n, ts, a, b) implies mode == AuditMode::Boundary by {
        lemma_bnd_needs_boundary_mode(n, ts, mode, a, b);
    }
    assert forall|a: int, b1: int, b2: int|
        #[trigger] bnd(n, ts, a, b1) && #[trigger] bnd(n, ts, a, b2) implies b1 == b2 by {
        lemma_bnd_function(n, ts, mode, a, b1, b2);
    }
    assert forall|a1: int, a2: int, b: int|
        #[trigger] bnd(n, ts, a1, b) && #[trigger] bnd(n, ts, a2, b) implies a1 == a2 by {
        lemma_bnd_injective(n, ts, mode, a1, a2, b);
    }
    assert forall|a: int, b: int| #[trigger] bnd(n, ts, a, b) implies exists|c: int| #[trigger] bnd(n, ts, b, c) by {
        lemma_bnd_closed(n, ts, mode, a, b);
    }
}

/// Once a mesh passes the edge and vertex stages, its boundary edges form
/// vertex-disjoint directed loops (a permutation of the vertices they
/// leave); a mesh that passes them in closed mode has no boundary edge.
pub proof fn law_audited_boundary_forms_loops(m: MeshV, mode: AuditMode)
    requires
        m.wf(),
        edge_stage(m.n(), m.tris(), mode) is None,
        first_bad_vertex(m.tris(), m.n(), mode, m.n()) is None,
    ensures
        perm_ok(m.n(), m.tris()),
        mode == AuditMode::Closed ==> forall|a: int, b: int| !#[trigger] bnd(m.n(), m.tris(), a, b),
{
    lemma_wf_tris(m);
    let n = m.n();
    let ts = m.tris();
    crate::edges::lemma_no_first_faulty(n, ts, mode);
    lemma_audited_boundary(n, ts, mode);
}

} // verus!
