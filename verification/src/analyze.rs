//! The whole audit: parse, then the edge, vertex and connectivity stages in
//! fixed priority, then the surface invariants.

use vstd::prelude::*;

use crate::connect::{
    audit_connected_idx, component_failure_of, component_report, faces_connected, has_vertex,
    law_connected_iff_faces_one_component, root_used,
};
use crate::edges::{audit_edges_idx, edge_count_idx, edge_failure_of, edge_report, num_edges};
use crate::loops::{
    boundary_loops_idx, canonical_loops, law_audited_boundary_forms_loops, lemma_first_bad_none,
    loops_sorted, loops_view,
};
use crate::model::{lemma_wf_tris, tris_ok};
use crate::parse::{parse, parse_outcome};
use crate::sectors::{
    audit_vertex_sectors_idx, face_link, first_bad_vertex, is_link_node, link_edge,
    vertex_failure_of, vertex_report, vertex_verdict,
};
use crate::types::{AuditMode, Mesh, MeshV, Report, ReportV, RejectV, Tri};

verus! {

/// The Euler characteristic `V - E + F` of a mesh.
pub open spec fn euler_char(m: MeshV) -> int {
    m.n() - num_edges(m.tris()) + m.faces.len()
}

/// The ids of the vertices of each loop.
pub open spec fn loop_names(m: MeshV, loops: Seq<Seq<usize>>) -> Seq<Seq<Seq<char>>> {
    Seq::new(loops.len(), |i: int| Seq::new(loops[i].len(), |k: int| m.vertices[loops[i][k] as int]))
}

/// The verdict of the last stage: for a connected orientable surface
/// `χ = 2 - 2g - b` with `b` boundary loops; when `2 - χ - b` is not a
/// non-negative even number no genus exists and the invariant fails.
pub open spec fn final_report(m: MeshV, mode: AuditMode, loops: Seq<Seq<usize>>) -> ReportV {
    let v = m.n() as usize;
    let e = num_edges(m.tris()) as usize;
    let f = m.faces.len() as usize;
    let chi = euler_char(m);
    let b = loops.len() as int;
    let twice_genus = 2 - chi - b;
    if twice_genus < 0 || twice_genus % 2 != 0 {
        ReportV::TopologyFailed {
            vertices: v,
            edges: e,
            faces: f,
            euler: chi as i64,
            boundary_count: b as usize,
        }
    } else if mode == AuditMode::Closed {
        ReportV::ClosedOk {
            vertices: v,
            edges: e,
            faces: f,
            euler: chi as i64,
            genus: (twice_genus / 2) as u32,
        }
    } else {
        ReportV::BoundaryOk {
            vertices: v,
            edges: e,
            faces: f,
            euler: chi as i64,
            genus: (twice_genus / 2) as u32,
            boundary: loop_names(m, loops),
        }
    }
}

/// `r` is the report the fixed-priority audit gives on mesh `m`: the edge
/// stage's failure, else the vertex stage's, else the connectivity stage's,
/// else the surface verdict over the canonical boundary loops.
pub open spec fn audit_report(m: MeshV, mode: AuditMode, r: ReportV) -> bool {
    match edge_report(m, mode) {
        Some(f) => r == ReportV::EdgeFailed(f),
        None => match vertex_report(m, mode) {
            Some((id, k)) => r == ReportV::VertexFailed { id, sectors: k as usize },
            None => match component_report(m) {
                Some(id) => r == ReportV::ComponentFailed { id },
                None => exists|loops: Seq<Seq<usize>>|
                    #[trigger] canonical_loops(m.n(), m.tris(), loops) && r == final_report(
                        m,
                        mode,
                        loops,
                    ),
            },
        },
    }
}

/// `r` is the report of auditing document `s`: its rejection, or the audit
/// of the (well-formed) mesh it describes.
pub open spec fn analysis(s: Seq<char>, mode: AuditMode, r: ReportV) -> bool {
    match parse_outcome(s) {
        Err(e) => r == ReportV::Rejected(e),
        Ok(m) => m.wf() && audit_report(m, mode, r),
    }
}

/// The ids of the vertices of each loop.
fn names_of_loops(mesh: &Mesh, loops: &Vec<Vec<usize>>) -> (r: Vec<Vec<String>>)
    requires
        forall|i: int, k: int|
            0 <= i < loops@.len() && 0 <= k < loops@[i]@.len() ==> #[trigger] loops@[i]@[k]
                < mesh.vertices.len(),
    ensures
        r.deep_view() == loop_names(mesh@, loops_view(loops@)),
{
    let ghost m = mesh@;
    let mut r: Vec<Vec<String>> = Vec::new();
    let mut i: usize = 0;
    while i < loops.len()
        invariant
            m == mesh@,
            forall|i2: int, k: int|
                0 <= i2 < loops@.len() && 0 <= k < loops@[i2]@.len() ==> #[trigger] loops@[i2]@[k]
                    < mesh.vertices.len(),
            i <= loops.len(),
            r.len() == i,
            forall|j: int| 0 <= j < i ==> (#[trigger] r@[j]).deep_view() == loop_names(m, loops_view(loops@))[j],
        decreases loops.len() - i,
    {
        let l = &loops[i];
        let mut names: Vec<String> = Vec::new();
        let mut k: usize = 0;
        while k < l.len()
            invariant
                m == mesh@,
                l == loops@[i as int],
                forall|i2: int, k2: int|
                    0 <= i2 < loops@.len() && 0 <= k2 < loops@[i2]@.len() ==> #[trigger] loops@[i2]@[k2]
                        < mesh.vertices.len(),
                i < loops.len(),
                k <= l.len(),
                names.len() == k,
                forall|j: int| 0 <= j < k ==> (#[trigger] names@[j])@ == m.vertices[l@[j] as int],
            decreases l.len() - k,
        {
            let x = l[k];
            proof {
                assert(loops@[i as int]@[k as int] < mesh.vertices.len());
                assert(m.vertices[x as int] == mesh.vertices@[x as int]@);
            }
            names.push(mesh.vertices[x].clone());
            k = k + 1;
        }
        proof {
            assert(names.deep_view() =~= loop_names(m, loops_view(loops@))[i as int]);
        }
        r.push(names);
        i = i + 1;
    }
    proof {
        assert(r.deep_view() =~= loop_names(m, loops_view(loops@)));
    }
    r
}

/// The surface verdict once every combinatorial stage has passed.
fn euler_report(mesh: &Mesh, ts: &Vec<Tri>, mode: AuditMode, loops: Vec<Vec<usize>>) -> (r: Report)
    requires
        mesh@.wf(),
        ts@ == mesh@.tris(),
        loops.len() <= mesh.vertices.len(),
        forall|i: int, k: int|
            0 <= i < loops@.len() && 0 <= k < loops@[i]@.len() ==> #[trigger] loops@[i]@[k]
                < mesh.vertices.len(),
    ensures
        r@ == final_report(mesh@, mode, loops_view(loops@)),
{
    proof {
        lemma_wf_tris(mesh@);
    }
    let v = mesh.vertices.len();
    let f = mesh.faces.len();
    let e = edge_count_idx(ts);
    proof {
        crate::edges::lemma_num_edges_bound(ts@);
    }
    let euler: i64 = v as i64 - e as i64 + f as i64;
    let boundaries = loops.len() as i64;
    let twice_genus = 2 - euler - boundaries;
    if twice_genus < 0 || twice_genus % 2 != 0 {
        return Report::TopologyFailed {
            vertices: v,
            edges: e,
            faces: f,
            euler,
            boundary_count: loops.len(),
        };
    }
    let genus = (twice_genus / 2) as u32;
    match mode {
        AuditMode::Closed => Report::ClosedOk { vertices: v, edges: e, faces: f, euler, genus },
        AuditMode::Boundary => {
            let boundary = names_of_loops(mesh, &loops);
            Report::BoundaryOk { vertices: v, edges: e, faces: f, euler, genus, boundary }
        },
    }
}

/// A vertex whose verdict passes lies on some face.
proof fn lemma_passing_vertex_used(ts: Seq<Tri>, n: int, mode: AuditMode, v: int)
    requires
        vertex_verdict(ts, v, n, mode) is None,
    ensures
        exists|f: int| 0 <= f < ts.len() && #[trigger] has_vertex(ts[f], v),
{
    let u = choose|u: int| 0 <= u < n && is_link_node(ts, v, u);
    let w = choose|w: int| link_edge(ts, v, u, w) || link_edge(ts, v, w, u);
    let (a, b) = if link_edge(ts, v, u, w) {
        (u, w)
    } else {
        (w, u)
    };
    let (f, k) = choose|f: int, k: int| 0 <= f < ts.len() && 0 <= k < 3 && #[trigger] face_link(ts[f], v, k, a, b);
    assert(has_vertex(ts[f], v));
}

/// A strictly increasing list of loop starts below `n` has at most `n`
/// loops.
proof fn lemma_loop_count(loops: Seq<Seq<usize>>, n: int, i: int)
    requires
        loops_sorted(loops),
        forall|j: int| 0 <= j < loops.len() ==> (#[trigger] loops[j]).len() > 0 && loops[j][0] < n,
        0 <= i < loops.len(),
    ensures
        loops[i][0] >= i,
    decreases i,
{
    reveal(loops_sorted);
    if i > 0 {
        lemma_loop_count(loops, n, i - 1);
        assert(loops[i - 1][0] < loops[i][0]);
    }
}

/// A canonical loop list of a mesh has at most one loop per vertex.
proof fn lemma_loops_at_most_n(m: MeshV, loops: Seq<Seq<usize>>)
    requires
        canonical_loops(m.n(), m.tris(), loops),
    ensures
        loops.len() <= m.n(),
{
    let n = m.n();
    if loops.len() > n {
        assert forall|j: int| 0 <= j < loops.len() implies (#[trigger] loops[j]).len() > 0 && loops[j][0] < n by {
            reveal(crate::loops::loops_nonempty);
            reveal(crate::loops::loops_follow);
            assert(crate::loops::bnd(
                n,
                m.tris(),
                loops[j][0] as int,
                loops[j][(0int + 1) % (loops[j].len() as int)] as int,
            ));
        }
        lemma_loop_count(loops, n, n);
    }
}

/// The surface verdict over a list of loops meets `χ = 2 - 2g - b`.
proof fn lemma_final_report_formula(m: MeshV, mode: AuditMode, loops: Seq<Seq<usize>>, r: ReportV)
    requires
        m.wf(),
        loops.len() <= m.n(),
        mode == AuditMode::Closed ==> loops.len() == 0,
        r == final_report(m, mode, loops),
    ensures
        r matches ReportV::ClosedOk { vertices, edges, faces, euler, genus } ==> euler == vertices
            - edges + faces && euler == 2 - 2 * genus,
        r matches ReportV::BoundaryOk { vertices, edges, faces, euler, genus, boundary } ==> euler
            == vertices - edges + faces && euler == 2 - 2 * genus - boundary.len(),
        r matches ReportV::TopologyFailed { vertices, edges, faces, euler, boundary_count } ==> euler
            == vertices - edges + faces && !(exists|g: int|
            g >= 0 && #[trigger] (2 * g) == 2 - euler - boundary_count),
{
    lemma_wf_tris(m);
    crate::edges::lemma_num_edges_bound(m.tris());
    let v = m.n();
    let e = num_edges(m.tris()) as int;
    let f = m.faces.len() as int;
    let b = loops.len() as int;
    assert(0 <= e <= 3 * f);
    assert(v + 3 * f <= u32::MAX);
    assert(loop_names(m, loops).len() == loops.len());
    let chi = euler_char(m);
    assert(chi == v - e + f);
    let tg = 2 - chi - b;
    if !(tg < 0 || tg % 2 != 0) {
        assert(tg == 2 * (tg / 2));
        assert(0 <= tg / 2 <= u32::MAX);
    } else {
        assert forall|g: int| g >= 0 implies #[trigger] (2 * g) != tg by {
            if 2 * g == tg {
                assert((2 * g) % 2 == 0);
            }
        }
    }
}

/// The surface verdict solves `χ = 2 - 2g - b` for the genus `g`, with
/// `χ = V - E + F` and `b` the number of boundary loops (none on a closed
/// surface): a success reports a genus that satisfies it, and
/// `TopologyFailed` comes exactly when no non-negative integer does.
pub proof fn law_genus_solves_euler(s: Seq<char>, mode: AuditMode, r: ReportV)
    requires
        analysis(s, mode, r),
    ensures
        r matches ReportV::ClosedOk { vertices, edges, faces, euler, genus } ==> euler == vertices
            - edges + faces && euler == 2 - 2 * genus,
        r matches ReportV::BoundaryOk { vertices, edges, faces, euler, genus, boundary } ==> euler
            == vertices - edges + faces && euler == 2 - 2 * genus - boundary.len(),
        r matches ReportV::TopologyFailed { vertices, edges, faces, euler, boundary_count } ==> euler
            == vertices - edges + faces && !(exists|g: int|
            g >= 0 && #[trigger] (2 * g) == 2 - euler - boundary_count),
{
    if let Ok(m) = parse_outcome(s) {
        if edge_report(m, mode) is None && vertex_report(m, mode) is None && component_report(
            m,
        ) is None {
            let loops = choose|loops: Seq<Seq<usize>>|
                #[trigger] canonical_loops(m.n(), m.tris(), loops) && r == final_report(
                    m,
                    mode,
                    loops,
                );
            lemma_loops_at_most_n(m, loops);
            if mode == AuditMode::Closed {
                law_audited_boundary_forms_loops(m, mode);
                crate::modes::lemma_no_loops(m.n(), m.tris(), loops);
            }
            lemma_final_report_formula(m, mode, loops, r);
        }
    }
}

/// Run the full audit under an explicit boundary policy.
#[verifier::rlimit(40)]
pub fn analyze_with(input: &str, mode: AuditMode) -> (r: Report)
    ensures
        analysis(input@, mode, r@),
        (r@ is ClosedOk || r@ is BoundaryOk) ==> (parse_outcome(input@) matches Ok(m)
            && faces_connected(m.tris())),
{
    let mesh = match parse(input) {
        Ok(mesh) => mesh,
        Err(reject) => {
            return Report::Rejected(reject);
        },
    };
    let ghost m = mesh@;
    let ts = mesh.index_faces();
    proof {
        lemma_wf_tris(m);
    }
    let n = mesh.vertices.len();
    if let Err(failure) = edge_failure_of(&mesh, audit_edges_idx(n, &ts, mode), Ghost(mode)) {
        return Report::EdgeFailed(failure);
    }
    if let Err((id, sectors)) = vertex_failure_of(
        &mesh,
        audit_vertex_sectors_idx(n, &ts, mode),
        Ghost(mode),
    ) {
        return Report::VertexFailed { id, sectors };
    }
    proof {
        lemma_first_bad_none(ts@, n as int, mode, n as int, 0);
        lemma_passing_vertex_used(ts@, n as int, mode, 0);
        assert(root_used(n as int, ts@));
    }
    if let Err(id) = component_failure_of(&mesh, audit_connected_idx(n, &ts)) {
        return Report::ComponentFailed { id };
    }
    proof {
        law_audited_boundary_forms_loops(m, mode);
        law_connected_iff_faces_one_component(m, mode);
    }
    match boundary_loops_idx(n, &ts) {
        Ok(loops) => {
            proof {
                let lv = loops_view(loops@);
                assert(canonical_loops(n as int, ts@, lv));
                if lv.len() > n {
                    assert forall|j: int| 0 <= j < lv.len() implies (#[trigger] lv[j]).len() > 0 && lv[j][0] < n by {
                        reveal(crate::loops::loops_nonempty);
                        assert(lv[j] == loops@[j]@);
                    }
                    lemma_loop_count(lv, n as int, n as int);
                    assert(lv[n as int] == loops@[n as int]@);
                }
            }
            euler_report(&mesh, &ts, mode, loops)
        },
        Err(v) => {
            proof {
                assert(false);
            }
            Report::VertexFailed { id: mesh.vertices[v].clone(), sectors: 1 }
        },
    }
}

/// Run the fixed-priority closed audit:
/// parse → edges → vertex links → edge connectivity → invariants.
pub fn analyze(input: &str) -> (r: Report)
    ensures
        analysis(input@, AuditMode::Closed, r@),
        (r@ is ClosedOk || r@ is BoundaryOk) ==> (parse_outcome(input@) matches Ok(m)
            && faces_connected(m.tris())),
{
    analyze_with(input, AuditMode::Closed)
}

/// Run the fixed-priority closed audit, but accept legal boundary edges.
pub fn analyze_boundary(input: &str) -> (r: Report)
    ensures
        analysis(input@, AuditMode::Boundary, r@),
        (r@ is ClosedOk || r@ is BoundaryOk) ==> (parse_outcome(input@) matches Ok(m)
            && faces_connected(m.tris())),
{
    analyze_with(input, AuditMode::Boundary)
}

/// The boundary-mode audit under the name the command line front end and
/// the test suite use.
pub fn analyze_with_boundary(input: &str) -> (r: Report)
    ensures
        analysis(input@, AuditMode::Boundary, r@),
        (r@ is ClosedOk || r@ is BoundaryOk) ==> (parse_outcome(input@) matches Ok(m)
            && faces_connected(m.tris())),
{
    analyze_with(input, AuditMode::Boundary)
}

} // verus!
