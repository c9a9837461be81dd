//! The canonical boundary loops are unique, so the audit's report is a
//! function of the mesh.

use vstd::prelude::*;

use crate::analyze::{analysis, audit_report, final_report, loop_names};
use crate::model::lemma_wf_tris;
use crate::text::{lemma_sorted_distinct, lex_lt};
use crate::loops::{
    bnd, canonical_loops, law_audited_boundary_forms_loops, loops_disjoint, loops_follow,
    loops_min_first, loops_nonempty, loops_simple, loops_sorted, perm_ok,
};
use crate::sectors::vertex_report;
use crate::edges::edge_report;
use crate::connect::component_report;
use crate::types::{AuditMode, MeshV, ReportV, Tri};

verus! {

/// The position `t` steps after position `k` around a loop of length `len`.
pub open spec fn ahead(k: int, t: int, len: int) -> int {
    if k + t < len {
        k + t
    } else {
        k + t - len
    }
}

/// `p` is one boundary cycle: it is nonempty, each entry leads along a
/// boundary edge to the next (the last to the first), and no vertex repeats.
pub open spec fn cycle_ok(n: int, ts: Seq<Tri>, p: Seq<usize>) -> bool {
    &&& p.len() > 0
    &&& forall|k: int|
        0 <= k < p.len() ==> #[trigger] bnd(n, ts, p[k] as int, p[ahead(k, 1, p.len() as int)] as int)
    &&& forall|k1: int, k2: int|
        0 <= k1 < p.len() && 0 <= k2 < p.len() && k1 != k2 ==> #[trigger] p[k1] != #[trigger] p[k2]
}

/// At most one boundary edge leaves each vertex.
pub open spec fn bnd_functional(n: int, ts: Seq<Tri>) -> bool {
    forall|a: int, b1: int, b2: int|
        #[trigger] bnd(n, ts, a, b1) && #[trigger] bnd(n, ts, a, b2) ==> b1 == b2
}

/// `x` is one of the loops of `l`.
pub open spec fn occurs_in(l: Seq<Seq<usize>>, x: Seq<usize>) -> bool {
    exists|j: int| 0 <= j < l.len() && #[trigger] l[j] == x
}

/// Every loop of a canonical list is a boundary cycle.
proof fn lemma_loop_is_cycle(n: int, ts: Seq<Tri>, loops: Seq<Seq<usize>>, i: int)
    requires
        canonical_loops(n, ts, loops),
        0 <= i < loops.len(),
    ensures
        cycle_ok(n, ts, loops[i]),
{
    reveal(loops_nonempty);
    reveal(loops_follow);
    reveal(loops_simple);
    let p = loops[i];
    let len = p.len() as int;
    assert(len > 0);
    assert forall|k: int| 0 <= k < len implies #[trigger] bnd(
        n,
        ts,
        p[k] as int,
        p[ahead(k, 1, len)] as int,
    ) by {
        assert(bnd(n, ts, loops[i][k] as int, loops[i][(k + 1) % len] as int));
        if k < len - 1 {
            assert((k + 1) % len == k + 1) by (nonlinear_arith)
                requires
                    0 <= k < len - 1,
            ;
        } else {
            assert((k + 1) % len == 0) by (nonlinear_arith)
                requires
                    k == len - 1,
                    len > 0,
            ;
        }
    }
    assert forall|k1: int, k2: int|
        0 <= k1 < len && 0 <= k2 < len && k1 != k2 implies #[trigger] p[k1] != #[trigger] p[k2] by {
        assert(loops[i][k1] != loops[i][k2]);
    }
}

/// Two boundary cycles through one vertex agree step by step: if `p`
/// starts where `q` has position `k`, then `p`'s entry `t` is `q`'s entry
/// `t` steps after `k`, as far as both reach.
proof fn lemma_track(n: int, ts: Seq<Tri>, p: Seq<usize>, q: Seq<usize>, k: int, t: int)
    requires
        bnd_functional(n, ts),
        cycle_ok(n, ts, p),
        cycle_ok(n, ts, q),
        0 <= k < q.len(),
        p[0] == q[k],
        0 <= t < p.len(),
        t < q.len(),
    ensures
        p[t] == q[ahead(k, t, q.len() as int)],
    decreases t,
{
    if t > 0 {
        let lq = q.len() as int;
        lemma_track(n, ts, p, q, k, t - 1);
        let j = ahead(k, t - 1, lq);
        assert(bnd(n, ts, p[t - 1] as int, p[ahead(t - 1, 1, p.len() as int)] as int));
        assert(bnd(n, ts, q[j] as int, q[ahead(j, 1, lq)] as int));
        assert(ahead(j, 1, lq) == ahead(k, t, lq));
    }
}

/// Two boundary cycles through one vertex are rotations of each other:
/// equal in length, `p` reading `q` from position `k` on.
proof fn lemma_same_cycle(n: int, ts: Seq<Tri>, p: Seq<usize>, q: Seq<usize>, k: int)
    requires
        bnd_functional(n, ts),
        cycle_ok(n, ts, p),
        cycle_ok(n, ts, q),
        0 <= k < q.len(),
        p[0] == q[k],
    ensures
        p.len() == q.len(),
        forall|t: int| 0 <= t < p.len() ==> #[trigger] p[t] == q[ahead(k, t, q.len() as int)],
{
    let lp = p.len() as int;
    let lq = q.len() as int;
    if lp < lq {
        lemma_track(n, ts, p, q, k, lp - 1);
        let j = ahead(k, lp - 1, lq);
        assert(bnd(n, ts, p[lp - 1] as int, p[ahead(lp - 1, 1, lp)] as int));
        assert(bnd(n, ts, q[j] as int, q[ahead(j, 1, lq)] as int));
        assert(ahead(j, 1, lq) == ahead(k, lp, lq));
        assert(q[ahead(k, lp, lq)] == q[k]);
        assert(false);
    } else if lp > lq {
        lemma_track(n, ts, p, q, k, lq - 1);
        let j = ahead(k, lq - 1, lq);
        assert(bnd(n, ts, p[lq - 1] as int, p[ahead(lq - 1, 1, lp)] as int));
        assert(bnd(n, ts, q[j] as int, q[ahead(j, 1, lq)] as int));
        assert(ahead(j, 1, lq) == k);
        assert(p[lq] == p[0]);
        assert(false);
    }
    assert forall|t: int| 0 <= t < lp implies #[trigger] p[t] == q[ahead(k, t, lq)] by {
        lemma_track(n, ts, p, q, k, t);
    }
}

/// Every loop of one canonical list is a loop of the other.
proof fn lemma_loop_in_other(
    n: int,
    ts: Seq<Tri>,
    l1: Seq<Seq<usize>>,
    l2: Seq<Seq<usize>>,
    i: int,
)
    requires
        bnd_functional(n, ts),
        canonical_loops(n, ts, l1),
        canonical_loops(n, ts, l2),
        0 <= i < l1.len(),
    ensures
        occurs_in(l2, l1[i]),
{
    let p = l1[i];
    lemma_loop_is_cycle(n, ts, l1, i);
    let len = p.len() as int;
    assert(bnd(n, ts, p[0] as int, p[ahead(0, 1, len)] as int));
    let (j, k) = choose|j: int, k: int|
        0 <= j < l2.len() && 0 <= k < l2[j].len() && #[trigger] l2[j][k] == p[0] as int;
    let q = l2[j];
    lemma_loop_is_cycle(n, ts, l2, j);
    lemma_same_cycle(n, ts, p, q, k);
    if k > 0 {
        let t0 = len - k;
        assert(ahead(k, t0, len) == 0);
        assert(p[t0] == q[0]);
        reveal(loops_min_first);
        assert(l1[i][0] < l1[i][t0]);
        assert(l2[j][0] < l2[j][k]);
        assert(false);
    }
    assert forall|t: int| 0 <= t < len implies #[trigger] p[t] == q[t] by {
        assert(ahead(0, t, len) == t);
    }
    assert(p =~= q);
    assert(l2[j] == l1[i]);
}

/// Two loop lists ordered strictly by first vertex, each of whose loops
/// occurs in the other, agree at every position both reach.
proof fn lemma_match_at(l1: Seq<Seq<usize>>, l2: Seq<Seq<usize>>, t: int)
    requires
        loops_nonempty(l1),
        loops_nonempty(l2),
        loops_sorted(l1),
        loops_sorted(l2),
        forall|i: int| 0 <= i < l1.len() ==> occurs_in(l2, #[trigger] l1[i]),
        forall|j: int| 0 <= j < l2.len() ==> occurs_in(l1, #[trigger] l2[j]),
        0 <= t < l1.len(),
        t < l2.len(),
    ensures
        l1[t] == l2[t],
    decreases t,
{
    reveal(loops_nonempty);
    reveal(loops_sorted);
    assert forall|v: int| 0 <= v < t implies #[trigger] l1[v] == l2[v] by {
        lemma_match_at(l1, l2, v);
    }
    assert(occurs_in(l2, l1[t]));
    assert(occurs_in(l1, l2[t]));
    let u = choose|j: int| 0 <= j < l2.len() && #[trigger] l2[j] == l1[t];
    let w = choose|i: int| 0 <= i < l1.len() && #[trigger] l1[i] == l2[t];
    assert(l1[t].len() > 0 && l2[t].len() > 0);
    if u < t {
        assert(l1[u] == l2[u]);
        assert(l1[u][0] < l1[t][0]);
        assert(false);
    } else if u > t {
        assert(l2[t][0] < l2[u][0]);
        if w < t {
            assert(l1[w] == l2[w]);
            assert(l2[w][0] < l2[t][0]);
            assert(false);
        } else if w > t {
            assert(l1[t][0] < l1[w][0]);
            assert(false);
        } else {
            assert(false);
        }
    }
}

/// The boundary cycles have exactly one canonical listing: once the
/// boundary edges form a permutation of the vertices they leave, any two
/// loop lists that each list them canonically are equal.
pub proof fn law_canonical_loops_unique(
    n: int,
    ts: Seq<Tri>,
    l1: Seq<Seq<usize>>,
    l2: Seq<Seq<usize>>,
)
    requires
        perm_ok(n, ts),
        canonical_loops(n, ts, l1),
        canonical_loops(n, ts, l2),
    ensures
        l1 == l2,
{
    assert forall|i: int| 0 <= i < l1.len() implies occurs_in(l2, #[trigger] l1[i]) by {
        lemma_loop_in_other(n, ts, l1, l2, i);
    }
    assert forall|j: int| 0 <= j < l2.len() implies occurs_in(l1, #[trigger] l2[j]) by {
        lemma_loop_in_other(n, ts, l2, l1, j);
    }
    let m = if l1.len() < l2.len() {
        l1.len() as int
    } else {
        l2.len() as int
    };
    assert forall|t: int| 0 <= t < m implies #[trigger] l1[t] == l2[t] by {
        lemma_match_at(l1, l2, t);
    }
    reveal(loops_sorted);
    reveal(loops_nonempty);
    if l1.len() > l2.len() {
        let t = l2.len() as int;
        assert(occurs_in(l2, l1[t]));
        let u = choose|j: int| 0 <= j < l2.len() && #[trigger] l2[j] == l1[t];
        assert(l1[u] == l2[u]);
        assert(l1[u][0] < l1[t][0]);
        assert(false);
    } else if l2.len() > l1.len() {
        let t = l1.len() as int;
        assert(occurs_in(l1, l2[t]));
        let u = choose|i: int| 0 <= i < l1.len() && #[trigger] l1[i] == l2[t];
        assert(l1[u] == l2[u]);
        assert(l2[u][0] < l2[t][0]);
        assert(false);
    }
    assert(l1 =~= l2);
}

/// Position `k` of loop `i` holds `a`, and the next position (the first,
/// after the last) holds `b`: the loop steps along `a -> b` there.
pub open spec fn steps_along(loops: Seq<Seq<usize>>, i: int, k: int, a: int, b: int) -> bool {
    &&& 0 <= i < loops.len()
    &&& 0 <= k < loops[i].len()
    &&& loops[i][k] == a
    &&& loops[i][ahead(k, 1, loops[i].len() as int)] == b
}

/// The canonical loops partition the boundary edges: every loop has at
/// least three vertices, and every boundary edge is stepped along at
/// exactly one loop position.
pub proof fn law_loops_partition_boundary_edges(n: int, ts: Seq<Tri>, loops: Seq<Seq<usize>>)
    requires
        perm_ok(n, ts),
        canonical_loops(n, ts, loops),
    ensures
        forall|i: int| 0 <= i < loops.len() ==> (#[trigger] loops[i]).len() >= 3,
        forall|a: int, b: int| #[trigger] bnd(n, ts, a, b) ==> exists|i: int, k: int|
            #[trigger] steps_along(loops, i, k, a, b),
        forall|i1: int, k1: int, i2: int, k2: int, a: int, b: int|
            #[trigger] steps_along(loops, i1, k1, a, b) && #[trigger] steps_along(loops, i2, k2, a, b)
                ==> i1 == i2 && k1 == k2,
{
    assert forall|i: int| 0 <= i < loops.len() implies (#[trigger] loops[i]).len() >= 3 by {
        lemma_loop_is_cycle(n, ts, loops, i);
        let p = loops[i];
        let len = p.len() as int;
        assert(bnd(n, ts, p[0] as int, p[ahead(0, 1, len)] as int));
        if len == 2 {
            assert(bnd(n, ts, p[1] as int, p[ahead(1, 1, len)] as int));
        }
    }
    assert forall|a: int, b: int| #[trigger] bnd(n, ts, a, b) implies exists|i: int, k: int|
        #[trigger] steps_along(loops, i, k, a, b) by {
        let (i, k) = choose|i: int, k: int|
            0 <= i < loops.len() && 0 <= k < loops[i].len() && #[trigger] loops[i][k] == a;
        lemma_loop_is_cycle(n, ts, loops, i);
        let p = loops[i];
        assert(bnd(n, ts, p[k] as int, p[ahead(k, 1, p.len() as int)] as int));
        assert(steps_along(loops, i, k, a, b));
    }
    assert forall|i1: int, k1: int, i2: int, k2: int, a: int, b: int|
        #[trigger] steps_along(loops, i1, k1, a, b) && #[trigger] steps_along(loops, i2, k2, a, b)
            implies i1 == i2 && k1 == k2 by {
        reveal(loops_disjoint);
        reveal(loops_simple);
        assert(loops[i1][k1] == loops[i2][k2]);
    }
}

/// The audit gives one report per mesh: two reports that both meet the
/// audit's description of a well-formed mesh are equal.
pub proof fn law_audit_report_unique(m: MeshV, mode: AuditMode, r1: ReportV, r2: ReportV)
    requires
        m.wf(),
        audit_report(m, mode, r1),
        audit_report(m, mode, r2),
    ensures
        r1 == r2,
{
    if edge_report(m, mode) is None && vertex_report(m, mode) is None && component_report(
        m,
    ) is None {
        law_audited_boundary_forms_loops(m, mode);
        let l1 = choose|loops: Seq<Seq<usize>>|
            #[trigger] canonical_loops(m.n(), m.tris(), loops) && r1 == crate::analyze::final_report(
                m,
                mode,
                loops,
            );
        let l2 = choose|loops: Seq<Seq<usize>>|
            #[trigger] canonical_loops(m.n(), m.tris(), loops) && r2 == crate::analyze::final_report(
                m,
                mode,
                loops,
            );
        law_canonical_loops_unique(m.n(), m.tris(), l1, l2);
    }
}

/// Auditing a document gives one report: two reports that both meet the
/// description of auditing the same document in the same mode are equal.
pub proof fn law_analysis_unique(s: Seq<char>, mode: AuditMode, r1: ReportV, r2: ReportV)
    requires
        analysis(s, mode, r1),
        analysis(s, mode, r2),
    ensures
        r1 == r2,
{
    if let Ok(m) = crate::parse::parse_outcome(s) {
        law_audit_report_unique(m, mode, r1, r2);
    }
}

/// `l` lists the ids of the positions `lp` lists, all of them vertices.
pub open spec fn names_ok(m: MeshV, lp: Seq<Seq<usize>>, l: Seq<Seq<Seq<char>>>) -> bool {
    &&& l.len() == lp.len()
    &&& forall|i: int| 0 <= i < l.len() ==> (#[trigger] l[i]).len() == lp[i].len()
    &&& forall|i: int, k: int|
        0 <= i < lp.len() && 0 <= k < lp[i].len() ==> #[trigger] lp[i][k] < m.n() && l[i][k]
            == m.vertices[lp[i][k] as int]
}

proof fn lemma_names_ok(m: MeshV, lp: Seq<Seq<usize>>)
    requires
        canonical_loops(m.n(), m.tris(), lp),
    ensures
        names_ok(m, lp, loop_names(m, lp)),
{
    let l = loop_names(m, lp);
    assert forall|i: int, k: int| 0 <= i < lp.len() && 0 <= k < lp[i].len() implies #[trigger] lp[i][k]
        < m.n() && l[i][k] == m.vertices[lp[i][k] as int] by {
        lemma_loop_is_cycle(m.n(), m.tris(), lp, i);
        assert(bnd(m.n(), m.tris(), lp[i][k] as int, lp[i][ahead(k, 1, lp[i].len() as int)] as int));
    }
}

proof fn lemma_names_simple(m: MeshV, lp: Seq<Seq<usize>>, l: Seq<Seq<Seq<char>>>)
    requires
        m.wf(),
        names_ok(m, lp, l),
        loops_simple(lp),
        loops_disjoint(lp),
    ensures
        forall|i: int, k1: int, k2: int|
            0 <= i < l.len() && 0 <= k1 < l[i].len() && 0 <= k2 < l[i].len() && k1 != k2
                ==> #[trigger] l[i][k1] != #[trigger] l[i][k2],
        forall|i: int, j: int, k1: int, k2: int|
            0 <= i < l.len() && 0 <= j < l.len() && i != j && 0 <= k1 < l[i].len() && 0 <= k2
                < l[j].len() ==> #[trigger] l[i][k1] != #[trigger] l[j][k2],
{
    reveal(loops_simple);
    reveal(loops_disjoint);
    assert forall|i: int, k1: int, k2: int|
        0 <= i < l.len() && 0 <= k1 < l[i].len() && 0 <= k2 < l[i].len() && k1 != k2
            implies #[trigger] l[i][k1] != #[trigger] l[i][k2] by {
        assert(lp[i][k1] != lp[i][k2]);
        assert(lp[i][k1] < m.n() && lp[i][k2] < m.n());
        lemma_sorted_distinct(m.vertices, lp[i][k1] as int, lp[i][k2] as int);
    }
    assert forall|i: int, j: int, k1: int, k2: int|
        0 <= i < l.len() && 0 <= j < l.len() && i != j && 0 <= k1 < l[i].len() && 0 <= k2
            < l[j].len() implies #[trigger] l[i][k1] != #[trigger] l[j][k2] by {
        assert(lp[i][k1] != lp[j][k2]);
        assert(lp[i][k1] < m.n() && lp[j][k2] < m.n());
        lemma_sorted_distinct(m.vertices, lp[i][k1] as int, lp[j][k2] as int);
    }
}

proof fn lemma_names_ordered(m: MeshV, lp: Seq<Seq<usize>>, l: Seq<Seq<Seq<char>>>)
    requires
        m.wf(),
        names_ok(m, lp, l),
        loops_nonempty(lp),
        loops_min_first(lp),
        loops_sorted(lp),
    ensures
        forall|i: int, k: int|
            0 <= i < l.len() && 0 < k < l[i].len() ==> lex_lt(l[i][0], #[trigger] l[i][k]),
        forall|i: int, j: int|
            0 <= i < j < l.len() ==> lex_lt((#[trigger] l[i])[0], (#[trigger] l[j])[0]),
{
    reveal(loops_nonempty);
    reveal(loops_min_first);
    reveal(loops_sorted);
    assert forall|i: int, k: int| 0 <= i < l.len() && 0 < k < l[i].len() implies lex_lt(
        l[i][0],
        #[trigger] l[i][k],
    ) by {
        assert(lp[i][0] < lp[i][k]);
        assert(lp[i][0] < m.n() && lp[i][k] < m.n());
        assert(m.vertices[lp[i][0] as int] == l[i][0]);
    }
    assert forall|i: int, j: int| 0 <= i < j < l.len() implies lex_lt(
        (#[trigger] l[i])[0],
        (#[trigger] l[j])[0],
    ) by {
        assert(lp[i].len() > 0 && lp[j].len() > 0);
        assert(lp[i][0] < lp[j][0]);
        assert(lp[i][0] < m.n() && lp[j][0] < m.n());
        assert(m.vertices[lp[i][0] as int] == l[i][0]);
        assert(m.vertices[lp[j][0] as int] == l[j][0]);
    }
}

proof fn lemma_names_cover(m: MeshV, lp: Seq<Seq<usize>>, l: Seq<Seq<Seq<char>>>)
    requires
        names_ok(m, lp, l),
        perm_ok(m.n(), m.tris()),
        canonical_loops(m.n(), m.tris(), lp),
    ensures
        forall|i: int| 0 <= i < l.len() ==> (#[trigger] l[i]).len() >= 3,
        forall|a: int, b: int| #[trigger] bnd(m.n(), m.tris(), a, b) ==> exists|i: int, k: int|
            0 <= i < l.len() && 0 <= k < l[i].len() && #[trigger] l[i][k] == m.name(a)
                && l[i][ahead(k, 1, l[i].len() as int)] == m.name(b),
{
    law_loops_partition_boundary_edges(m.n(), m.tris(), lp);
    assert forall|i: int| 0 <= i < l.len() implies (#[trigger] l[i]).len() >= 3 by {
        assert(lp[i].len() >= 3);
    }
    assert forall|a: int, b: int| #[trigger] bnd(m.n(), m.tris(), a, b) implies exists|i: int, k: int|
        0 <= i < l.len() && 0 <= k < l[i].len() && #[trigger] l[i][k] == m.name(a)
            && l[i][ahead(k, 1, l[i].len() as int)] == m.name(b) by {
        let (i, k) = choose|i: int, k: int| #[trigger] steps_along(lp, i, k, a, b);
        let k1 = ahead(k, 1, lp[i].len() as int);
        assert(l[i][k] == m.vertices[lp[i][k] as int]);
        assert(l[i][k1] == m.vertices[lp[i][k1] as int]);
    }
}

/// The loops a boundary-mode report lists, read as ids: each loop has at
/// least three ids, all distinct, and starts at its smallest; the loops are
/// sorted by first id and share no id; and every boundary edge, oriented as
/// its one face runs, is a step of some loop.
pub proof fn law_reported_loops_in_ids(m: MeshV, r: ReportV)
    requires
        m.wf(),
        audit_report(m, AuditMode::Boundary, r),
    ensures
        r matches ReportV::BoundaryOk { boundary: l, .. } ==> {
            &&& forall|i: int| 0 <= i < l.len() ==> (#[trigger] l[i]).len() >= 3
            &&& forall|i: int, k1: int, k2: int|
                0 <= i < l.len() && 0 <= k1 < l[i].len() && 0 <= k2 < l[i].len() && k1 != k2
                    ==> #[trigger] l[i][k1] != #[trigger] l[i][k2]
            &&& forall|i: int, k: int|
                0 <= i < l.len() && 0 < k < l[i].len() ==> lex_lt(l[i][0], #[trigger] l[i][k])
            &&& forall|i: int, j: int|
                0 <= i < j < l.len() ==> lex_lt((#[trigger] l[i])[0], (#[trigger] l[j])[0])
            &&& forall|i: int, j: int, k1: int, k2: int|
                0 <= i < l.len() && 0 <= j < l.len() && i != j && 0 <= k1 < l[i].len() && 0 <= k2
                    < l[j].len() ==> #[trigger] l[i][k1] != #[trigger] l[j][k2]
            &&& forall|a: int, b: int| #[trigger] bnd(m.n(), m.tris(), a, b) ==> exists|i: int, k: int|
                0 <= i < l.len() && 0 <= k < l[i].len() && #[trigger] l[i][k] == m.name(a)
                    && l[i][ahead(k, 1, l[i].len() as int)] == m.name(b)
        },
{
    if let ReportV::BoundaryOk { boundary: l, .. } = r {
        lemma_wf_tris(m);
        law_audited_boundary_forms_loops(m, AuditMode::Boundary);
        let lp = choose|loops: Seq<Seq<usize>>|
            #[trigger] canonical_loops(m.n(), m.tris(), loops) && r == final_report(
                m,
                AuditMode::Boundary,
                loops,
            );
        let l = loop_names(m, lp);
        lemma_names_ok(m, lp);
        lemma_names_simple(m, lp, l);
        lemma_names_ordered(m, lp, l);
        lemma_names_cover(m, lp, l);
    }
}

} // verus!
