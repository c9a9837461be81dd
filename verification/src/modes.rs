//! How the two audit modes relate: the boundary audit only relaxes the
//! closed one.

use vstd::prelude::*;

use crate::analyze::{audit_report, final_report, loop_names};
use crate::edges::{edge_fault, is_faulty, lemma_no_first_faulty};
use crate::loops::{
    bnd, canonical_loops, law_audited_boundary_forms_loops, lemma_first_bad_none,
    lemma_start_exists, lemma_start_gives_edge, loops_follow, loops_nonempty, tris_distinct,
};
use crate::model::{count_dir, lemma_wf_tris, tris_ok, uses};
use crate::sectors::{cyclic, first_bad_vertex, has_pred, is_link_node, vertex_verdict};
use crate::types::{corner, AuditMode, MeshV, ReportV, Tri};

verus! {

/// A vertex whose fan passes the closed audit passes the boundary audit.
proof fn lemma_vertices_relax(ts: Seq<Tri>, n: int, k: int)
    requires
        first_bad_vertex(ts, n, AuditMode::Closed, k) is None,
    ensures
        first_bad_vertex(ts, n, AuditMode::Boundary, k) is None,
    decreases k,
{
    if k > 0 {
        lemma_vertices_relax(ts, n, k - 1);
        assert(vertex_verdict(ts, k - 1, n, AuditMode::Closed) is None);
    }
}

/// Without boundary edges every canonical loop list is empty.
pub proof fn lemma_no_loops(n: int, ts: Seq<Tri>, loops: Seq<Seq<usize>>)
    requires
        forall|a: int, b: int| !#[trigger] bnd(n, ts, a, b),
        canonical_loops(n, ts, loops),
    ensures
        loops.len() == 0,
{
    if loops.len() > 0 {
        reveal(loops_nonempty);
        reveal(loops_follow);
        assert(loops[0].len() > 0);
        assert(bnd(n, ts, loops[0][0] as int, loops[0][(0int + 1) % (loops[0].len() as int)] as int));
    }
}

/// A closed surface that passes the default audit passes the boundary
/// audit as well, with the same vertex, edge and face counts, the same
/// Euler characteristic and genus, and no boundary loop.
pub proof fn law_closed_pass_is_boundary_pass(
    m: MeshV,
    vertices: usize,
    edges: usize,
    faces: usize,
    euler: i64,
    genus: u32,
    r: ReportV,
)
    requires
        m.wf(),
        audit_report(
            m,
            AuditMode::Closed,
            ReportV::ClosedOk { vertices, edges, faces, euler, genus },
        ),
        audit_report(m, AuditMode::Boundary, r),
    ensures
        r == (ReportV::BoundaryOk {
            vertices,
            edges,
            faces,
            euler,
            genus,
            boundary: Seq::empty(),
        }),
{
    let n = m.n();
    let ts = m.tris();
    lemma_wf_tris(m);
    law_audited_boundary_forms_loops(m, AuditMode::Closed);
    lemma_no_first_faulty(n, ts, AuditMode::Closed);
    assert forall|a: int, b: int| !#[trigger] is_faulty(n, ts, AuditMode::Boundary, a, b) by {
        assert(!is_faulty(n, ts, AuditMode::Closed, a, b));
        if edge_fault(ts, a, b, AuditMode::Boundary) is Some {
            assert(edge_fault(ts, a, b, AuditMode::Closed) is Some);
        }
    }
    lemma_no_first_faulty(n, ts, AuditMode::Boundary);
    lemma_vertices_relax(ts, n, n);
    let l1 = choose|loops: Seq<Seq<usize>>|
        #[trigger] canonical_loops(n, ts, loops) && (ReportV::ClosedOk {
            vertices,
            edges,
            faces,
            euler,
            genus,
        }) == final_report(m, AuditMode::Closed, loops);
    let l2 = choose|loops: Seq<Seq<usize>>|
        #[trigger] canonical_loops(n, ts, loops) && r == final_report(m, AuditMode::Boundary, loops);
    lemma_no_loops(n, ts, l1);
    lemma_no_loops(n, ts, l2);
    assert(loop_names(m, l2) =~= Seq::empty());
}

/// Every vertex below `k` passing the closed audit means none fails.
proof fn lemma_vertices_tighten(ts: Seq<Tri>, n: int, k: int)
    requires
        forall|v: int| 0 <= v < k ==> #[trigger] vertex_verdict(ts, v, n, AuditMode::Closed) is None,
    ensures
        first_bad_vertex(ts, n, AuditMode::Closed, k) is None,
    decreases k,
{
    if k > 0 {
        lemma_vertices_tighten(ts, n, k - 1);
        assert(vertex_verdict(ts, k - 1, n, AuditMode::Closed) is None);
    }
}

/// With no boundary edge and a passing boundary edge stage, a vertex whose
/// fan passes the boundary audit has a cyclic link, so it passes the closed
/// audit: a path link would start at a one-face edge.
proof fn lemma_vertex_tightens(n: int, ts: Seq<Tri>, v: int)
    requires
        tris_ok(n, ts),
        tris_distinct(ts),
        forall|a: int, b: int| !#[trigger] bnd(n, ts, a, b),
        forall|a: int, b: int| !#[trigger] is_faulty(n, ts, AuditMode::Boundary, a, b),
        vertex_verdict(ts, v, n, AuditMode::Boundary) is None,
        0 <= v < n,
    ensures
        vertex_verdict(ts, v, n, AuditMode::Closed) is None,
{
    if !cyclic(ts, v, n) {
        lemma_start_exists(ts, v, n);
        let u = choose|u: int| 0 <= u < n && #[trigger] is_link_node(ts, v, u) && !has_pred(ts, v, u);
        lemma_start_gives_edge(ts, v, u);
        let (f, k) = choose|f: int, k: int|
            0 <= f < ts.len() && 0 <= k < 3 && #[trigger] corner(ts[f], k) == v && corner(ts[f], k + 1) == u;
        assert(v != u) by {
            assert(ts[f].0 != ts[f].1 && ts[f].1 != ts[f].2 && ts[f].0 != ts[f].2);
        }
        let lo = if v < u {
            v
        } else {
            u
        };
        let hi = if v < u {
            u
        } else {
            v
        };
        assert(!is_faulty(n, ts, AuditMode::Boundary, lo, hi));
        assert(uses(ts, lo, hi) == count_dir(ts, v, u));
        assert(bnd(n, ts, v, u));
    }
}

/// A surface that passes the boundary audit without any boundary loop
/// passes the closed audit, with the same vertex, edge and face counts,
/// the same Euler characteristic and the same genus.
pub proof fn law_loopless_boundary_pass_is_closed_pass(
    m: MeshV,
    vertices: usize,
    edges: usize,
    faces: usize,
    euler: i64,
    genus: u32,
    r: ReportV,
)
    requires
        m.wf(),
        audit_report(
            m,
            AuditMode::Boundary,
            ReportV::BoundaryOk { vertices, edges, faces, euler, genus, boundary: Seq::empty() },
        ),
        audit_report(m, AuditMode::Closed, r),
    ensures
        r == (ReportV::ClosedOk { vertices, edges, faces, euler, genus }),
{
    let n = m.n();
    let ts = m.tris();
    lemma_wf_tris(m);
    let l2 = choose|loops: Seq<Seq<usize>>|
        #[trigger] canonical_loops(n, ts, loops) && (ReportV::BoundaryOk {
            vertices,
            edges,
            faces,
            euler,
            genus,
            boundary: Seq::empty(),
        }) == final_report(m, AuditMode::Boundary, loops);
    assert(loop_names(m, l2).len() == l2.len());
    assert(l2.len() == 0);
    assert forall|a: int, b: int| !#[trigger] bnd(n, ts, a, b) by {
        if bnd(n, ts, a, b) {
            let (i, k) = choose|i: int, k: int|
                0 <= i < l2.len() && 0 <= k < l2[i].len() && #[trigger] l2[i][k] == a;
        }
    }
    lemma_no_first_faulty(n, ts, AuditMode::Boundary);
    assert forall|a: int, b: int| !#[trigger] is_faulty(n, ts, AuditMode::Closed, a, b) by {
        if is_faulty(n, ts, AuditMode::Closed, a, b) {
            assert(!is_faulty(n, ts, AuditMode::Boundary, a, b));
            assert(uses(ts, a, b) == 1);
            if count_dir(ts, a, b) == 1 {
                assert(bnd(n, ts, a, b));
            } else {
                assert(bnd(n, ts, b, a));
            }
        }
    }
    lemma_no_first_faulty(n, ts, AuditMode::Closed);
    assert forall|v: int| 0 <= v < n implies #[trigger] vertex_verdict(
        ts,
        v,
        n,
        AuditMode::Closed,
    ) is None by {
        lemma_first_bad_none(ts, n, AuditMode::Boundary, n, v);
        lemma_vertex_tightens(n, ts, v);
    }
    lemma_vertices_tighten(ts, n, n);
    let l1 = choose|loops: Seq<Seq<usize>>|
        #[trigger] canonical_loops(n, ts, loops) && r == final_report(m, AuditMode::Closed, loops);
    lemma_no_loops(n, ts, l1);
}

} // verus!
