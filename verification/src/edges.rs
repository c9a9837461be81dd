//! Stage 1: every undirected edge must be used by exactly two faces in
//! opposite directions (or, in boundary mode, may be used by one face).

use vstd::prelude::*;

use crate::model::{count_dir, counts_at, tris_ok, uses};
use crate::text::lex_lt;
use crate::types::{corner, AuditMode, EdgeFailure, EdgeFailureV, EdgeFault, Mesh, MeshV, Tri};

verus! {

/// The fault of the undirected edge `{a, b}`, if any, judged from its
/// directed use counts.
pub open spec fn edge_fault(ts: Seq<Tri>, a: int, b: int, mode: AuditMode) -> Option<EdgeFault> {
    let u = uses(ts, a, b);
    if u == 0 {
        None
    } else if u == 1 {
        if mode == AuditMode::Boundary {
            None
        } else {
            Some(EdgeFault::Boundary)
        }
    } else if u == 2 && count_dir(ts, a, b) == 1 && count_dir(ts, b, a) == 1 {
        None
    } else if u == 2 {
        Some(EdgeFault::Misoriented)
    } else {
        Some(EdgeFault::Nonmanifold)
    }
}

/// The pair `a < b` of positions names a faulty undirected edge.
pub open spec fn is_faulty(n: int, ts: Seq<Tri>, mode: AuditMode, a: int, b: int) -> bool {
    &&& 0 <= a < b < n
    &&& edge_fault(ts, a, b, mode) is Some
}

/// Lexicographic order on position pairs; for a sorted vertex list this is
/// the order of `(smaller id, larger id)`.
pub open spec fn pair_before(a: int, b: int, c: int, d: int) -> bool {
    a < c || (a == c && b < d)
}

/// `(a, b)` is the least faulty pair.
pub open spec fn first_faulty(n: int, ts: Seq<Tri>, mode: AuditMode, a: int, b: int) -> bool {
    &&& is_faulty(n, ts, mode, a, b)
    &&& forall|c: int, d: int| #[trigger] is_faulty(n, ts, mode, c, d) ==> !pair_before(c, d, a, b)
}

/// The witness of the edge stage: the least faulty pair, if there is one.
pub open spec fn edge_stage(n: int, ts: Seq<Tri>, mode: AuditMode) -> Option<(int, int)> {
    if exists|a: int, b: int| first_faulty(n, ts, mode, a, b) {
        let (a, b) = choose|a: int, b: int| first_faulty(n, ts, mode, a, b);
        Some((a, b))
    } else {
        None
    }
}

/// A faulty pair has a least faulty pair below it.
pub proof fn lemma_first_faulty_exists(n: int, ts: Seq<Tri>, mode: AuditMode, a: int, b: int)
    requires
        is_faulty(n, ts, mode, a, b),
    ensures
        exists|c: int, d: int| first_faulty(n, ts, mode, c, d),
    decreases a, b,
{
    if !first_faulty(n, ts, mode, a, b) {
        let (c, d) = choose|c: int, d: int| #[trigger] is_faulty(n, ts, mode, c, d) && pair_before(c, d, a, b);
        lemma_first_faulty_exists(n, ts, mode, c, d);
    }
}

/// The edge stage finds nothing exactly when no pair is faulty.
pub proof fn lemma_no_first_faulty(n: int, ts: Seq<Tri>, mode: AuditMode)
    ensures
        edge_stage(n, ts, mode) is None <==> forall|a: int, b: int| !#[trigger] is_faulty(n, ts, mode, a, b),
{
    if exists|a: int, b: int| #[trigger] is_faulty(n, ts, mode, a, b) {
        let (a, b) = choose|a: int, b: int| #[trigger] is_faulty(n, ts, mode, a, b);
        lemma_first_faulty_exists(n, ts, mode, a, b);
    }
}

/// The edge stage's verdict on a mesh, with ids.
pub open spec fn edge_report(m: MeshV, mode: AuditMode) -> Option<EdgeFailureV> {
    let ts = m.tris();
    match edge_stage(m.n(), ts, mode) {
        Some((a, b)) => Some(
            EdgeFailureV {
                a: m.name(a),
                b: m.name(b),
                uses: uses(ts, a, b) as usize,
                fault: edge_fault(ts, a, b, mode)->0,
            },
        ),
        None => None,
    }
}

/// The edge witness is the least faulty undirected edge in the order of
/// ids: its two ids are increasing, and no faulty edge has a smaller
/// smaller id, or the same smaller id and a smaller larger id.
pub proof fn law_edge_witness_least_by_id(m: MeshV, mode: AuditMode)
    requires
        m.wf(),
    ensures
        edge_report(m, mode) matches Some(f) ==> {
            &&& lex_lt(f.a, f.b)
            &&& forall|a: int, b: int|
                #[trigger] is_faulty(m.n(), m.tris(), mode, a, b) ==> !lex_lt(m.name(a), f.a) && (
                m.name(a) == f.a ==> !lex_lt(m.name(b), f.b))
        },
{
    if let Some((a0, b0)) = edge_stage(m.n(), m.tris(), mode) {
        let ts = m.tris();
        let n = m.n();
        assert(first_faulty(n, ts, mode, a0, b0));
        assert(lex_lt(m.name(a0), m.name(b0)));
        assert forall|a: int, b: int| #[trigger] is_faulty(n, ts, mode, a, b) implies !lex_lt(
            m.name(a),
            m.name(a0),
        ) && (m.name(a) == m.name(a0) ==> !lex_lt(m.name(b), m.name(b0))) by {
            assert(!pair_before(a, b, a0, b0));
            if lex_lt(m.name(a), m.name(a0)) {
                crate::types::lemma_position_order(m, a, a0);
            }
            if m.name(a) == m.name(a0) {
                if a != a0 {
                    crate::text::lemma_sorted_distinct(m.vertices, a, a0);
                }
                if lex_lt(m.name(b), m.name(b0)) {
                    crate::types::lemma_position_order(m, b, b0);
                }
            }
        }
    }
}

/// A reported edge failure is classified by how many faces use the edge:
/// one use is a boundary edge, two uses a misoriented pair, three or more a
/// non-manifold edge; and a misoriented pair runs both uses the same way.
pub proof fn law_edge_fault_by_uses(m: MeshV, mode: AuditMode)
    requires
        m.wf(),
    ensures
        edge_report(m, mode) matches Some(f) ==> {
            &&& f.uses >= 1
            &&& (f.fault == EdgeFault::Boundary <==> f.uses == 1)
            &&& (f.fault == EdgeFault::Misoriented <==> f.uses == 2)
            &&& (f.fault == EdgeFault::Nonmanifold <==> f.uses >= 3)
        },
        edge_stage(m.n(), m.tris(), mode) matches Some((a, b)) ==> (uses(m.tris(), a, b) == 2
            ==> count_dir(m.tris(), a, b) != 1),
{
    if let Some((a, b)) = edge_stage(m.n(), m.tris(), mode) {
        let ts = m.tris();
        assert(first_faulty(m.n(), ts, mode, a, b));
        crate::model::lemma_uses_bound(ts, a, b);
        crate::model::lemma_wf_tris(m);
        assert(uses(ts, a, b) <= 3 * ts.len());
        assert(edge_fault(ts, a, b, mode) is Some);
    }
}

/// The edge stage on the index model: the least faulty pair with its use
/// count and fault, or `None` when every edge is sound.
pub fn audit_edges_idx(n: usize, ts: &Vec<Tri>, mode: AuditMode) -> (r: Option<
    (usize, usize, usize, EdgeFault),
>)
    requires
        tris_ok(n as int, ts@),
        n + 3 * ts.len() <= u32::MAX,
    ensures
        r is None <==> edge_stage(n as int, ts@, mode) is None,
        r is None <==> forall|a: int, b: int| !is_faulty(n as int, ts@, mode, a, b),
        r matches Some((a, b, u, fault)) ==> {
            &&& edge_stage(n as int, ts@, mode) == Some((a as int, b as int))
            &&& first_faulty(n as int, ts@, mode, a as int, b as int)
            &&& u == uses(ts@, a as int, b as int)
            &&& Some(fault) == edge_fault(ts@, a as int, b as int, mode)
        },
{
    let mut a: usize = 0;
    while a < n
        invariant
            tris_ok(n as int, ts@),
            n + 3 * ts.len() <= u32::MAX,
            a <= n,
            forall|c: int, d: int| 0 <= c < a ==> !#[trigger] is_faulty(n as int, ts@, mode, c, d),
        decreases n - a,
    {
        let (fwd, bwd) = counts_at(n, ts, a);
        let mut b: usize = a + 1;
        while b < n
            invariant
                tris_ok(n as int, ts@),
                n + 3 * ts.len() <= u32::MAX,
                a < n,
                a + 1 <= b <= n,
                fwd.len() == n,
                bwd.len() == n,
                forall|x: int| 0 <= x < n ==> #[trigger] fwd@[x] == count_dir(ts@, a as int, x),
                forall|x: int| 0 <= x < n ==> #[trigger] bwd@[x] == count_dir(ts@, x, a as int),
                forall|c: int, d: int| 0 <= c < a ==> !#[trigger] is_faulty(n as int, ts@, mode, c, d),
                forall|d: int| d < b ==> !#[trigger] is_faulty(n as int, ts@, mode, a as int, d),
            decreases n - b,
        {
            let f = fwd[b];
            let k = bwd[b];
            proof {
                crate::model::lemma_uses_bound(ts@, a as int, b as int);
            }
            let u = f + k;
            let fault: Option<EdgeFault> = if u == 0 {
                None
            } else if u == 1 {
                match mode {
                    AuditMode::Boundary => None,
                    AuditMode::Closed => Some(EdgeFault::Boundary),
                }
            } else if u == 2 && f == 1 && k == 1 {
                None
            } else if u == 2 {
                Some(EdgeFault::Misoriented)
            } else {
                Some(EdgeFault::Nonmanifold)
            };
            proof {
                assert(fault == edge_fault(ts@, a as int, b as int, mode));
            }
            match fault {
                Some(flt) => {
                    proof {
                        assert(is_faulty(n as int, ts@, mode, a as int, b as int));
                        assert(first_faulty(n as int, ts@, mode, a as int, b as int)) by {
                            assert forall|c: int, d: int| #[trigger]
                                is_faulty(n as int, ts@, mode, c, d) implies !pair_before(
                                c,
                                d,
                                a as int,
                                b as int,
                            ) by {
                                if c < a {
                                    assert(!is_faulty(n as int, ts@, mode, c, d));
                                } else if c == a && d < b {
                                    assert(!is_faulty(n as int, ts@, mode, a as int, d));
                                }
                            }
                        }
                        let (p0, p1) = choose|p0: int, p1: int| first_faulty(n as int, ts@, mode, p0, p1);
                        assert(first_faulty(n as int, ts@, mode, p0, p1));
                        if (p0, p1) != (a as int, b as int) {
                            assert(!pair_before(p0, p1, a as int, b as int));
                            assert(!pair_before(a as int, b as int, p0, p1));
                        }
                    }
                    return Some((a, b, u, flt));
                },
                None => {},
            }
            b = b + 1;
        }
        proof {
            assert forall|c: int, d: int| 0 <= c < a + 1 implies !#[trigger] is_faulty(
                n as int,
                ts@,
                mode,
                c,
                d,
            ) by {
                if c == a {
                    assert(!is_faulty(n as int, ts@, mode, a as int, d));
                }
            }
        }
        a = a + 1;
    }
    None
}

/// The undirected edge, as (smaller position, larger position), of face
/// edge slot `s`: corner `s % 3` to the next corner of face `s / 3`.
pub open spec fn slot_edge(ts: Seq<Tri>, s: int) -> (int, int) {
    let t = ts[s / 3];
    let x = corner(t, s % 3);
    let y = corner(t, s % 3 + 1);
    if x <= y {
        (x, y)
    } else {
        (y, x)
    }
}

/// No earlier slot holds the same undirected edge.
pub open spec fn first_slot(ts: Seq<Tri>, s: int) -> bool {
    forall|r: int| 0 <= r < s ==> #[trigger] slot_edge(ts, r) != slot_edge(ts, s)
}

/// Number of distinct undirected edges among the first `k` face edge slots.
pub open spec fn edge_total(ts: Seq<Tri>, k: int) -> nat
    decreases k,
{
    if k <= 0 {
        0
    } else {
        edge_total(ts, k - 1) + if first_slot(ts, k - 1) {
            1nat
        } else {
            0nat
        }
    }
}

/// Number of distinct undirected edges of a face list.
pub open spec fn num_edges(ts: Seq<Tri>) -> nat {
    edge_total(ts, 3 * ts.len() as int)
}

/// The undirected edges of the first `k` face edge slots.
pub open spec fn slot_edges_upto(ts: Seq<Tri>, k: int) -> Set<(int, int)> {
    Set::new(|e: (int, int)| exists|r: int| 0 <= r < k && #[trigger] slot_edge(ts, r) == e)
}

/// The sides of the faces, each as (smaller position, larger position).
pub open spec fn face_sides(ts: Seq<Tri>) -> Set<(int, int)> {
    Set::new(
        |e: (int, int)|
            exists|f: int, k: int|
                0 <= f < ts.len() && 0 <= k < 3 && #[trigger] crate::connect::und_edge(ts[f], k) == e,
    )
}

proof fn lemma_edge_total_set(ts: Seq<Tri>, k: int)
    requires
        0 <= k,
    ensures
        slot_edges_upto(ts, k).finite(),
        edge_total(ts, k) == slot_edges_upto(ts, k).len(),
    decreases k,
{
    if k == 0 {
        assert(slot_edges_upto(ts, 0) =~= Set::<(int, int)>::empty());
    } else {
        lemma_edge_total_set(ts, k - 1);
        let prev = slot_edges_upto(ts, k - 1);
        let e = slot_edge(ts, k - 1);
        assert(slot_edges_upto(ts, k) =~= prev.insert(e));
        if first_slot(ts, k - 1) {
            assert(!prev.contains(e));
        } else {
            let r = choose|r: int| 0 <= r < k - 1 && #[trigger] slot_edge(ts, r) == e;
            assert(prev.contains(e));
        }
    }
}

/// The edge count `E` is the number of distinct undirected face sides.
pub proof fn law_edge_count_is_distinct_sides(ts: Seq<Tri>)
    ensures
        face_sides(ts).finite(),
        num_edges(ts) == face_sides(ts).len(),
{
    let n3 = 3 * ts.len() as int;
    lemma_edge_total_set(ts, n3);
    assert forall|e: (int, int)| slot_edges_upto(ts, n3).contains(e) <==> face_sides(ts).contains(e) by {
        if slot_edges_upto(ts, n3).contains(e) {
            let r = choose|r: int| 0 <= r < n3 && #[trigger] slot_edge(ts, r) == e;
            let f = r / 3;
            let k = r % 3;
            assert(0 <= f < ts.len() && 0 <= k < 3) by (nonlinear_arith)
                requires
                    0 <= r < 3 * ts.len(),
                    f == r / 3,
                    k == r % 3,
            ;
            assert(crate::connect::und_edge(ts[f], k) == e);
        }
        if face_sides(ts).contains(e) {
            let (f, k) = choose|f: int, k: int|
                0 <= f < ts.len() && 0 <= k < 3 && #[trigger] crate::connect::und_edge(ts[f], k) == e;
            let r = 3 * f + k;
            assert(r / 3 == f && r % 3 == k && 0 <= r < n3) by (nonlinear_arith)
                requires
                    r == 3 * f + k,
                    0 <= f < ts.len(),
                    0 <= k < 3,
                    n3 == 3 * ts.len(),
            ;
            assert(slot_edge(ts, r) == e);
        }
    }
    assert(slot_edges_upto(ts, n3) =~= face_sides(ts));
}

proof fn lemma_edge_total_bound(ts: Seq<Tri>, k: int)
    requires
        k >= 0,
    ensures
        edge_total(ts, k) <= k,
    decreases k,
{
    if k > 0 {
        lemma_edge_total_bound(ts, k - 1);
    }
}

pub proof fn lemma_num_edges_bound(ts: Seq<Tri>)
    ensures
        num_edges(ts) <= 3 * ts.len(),
{
    lemma_edge_total_bound(ts, 3 * ts.len() as int);
}

/// The undirected edge of one face edge slot.
fn slot_edge_exec(ts: &Vec<Tri>, s: usize) -> (r: (usize, usize))
    requires
        s < 3 * ts.len(),
    ensures
        r.0 as int == slot_edge(ts@, s as int).0,
        r.1 as int == slot_edge(ts@, s as int).1,
{
    let t = ts[s / 3];
    let (x, y) = if s % 3 == 0 {
        (t.0, t.1)
    } else if s % 3 == 1 {
        (t.1, t.2)
    } else {
        (t.2, t.0)
    };
    if x <= y {
        (x, y)
    } else {
        (y, x)
    }
}

/// Number of distinct undirected edges of the index model.
pub fn edge_count_idx(ts: &Vec<Tri>) -> (r: usize)
    requires
        3 * ts.len() <= u32::MAX,
    ensures
        r == num_edges(ts@),
{
    let slots = 3 * ts.len();
    let mut total: usize = 0;
    let mut s: usize = 0;
    while s < slots
        invariant
            slots == 3 * ts.len(),
            3 * ts.len() <= u32::MAX,
            s <= slots,
            total == edge_total(ts@, s as int),
        decreases slots - s,
    {
        let e = slot_edge_exec(ts, s);
        let mut first = true;
        let mut r: usize = 0;
        while r < s
            invariant
                slots == 3 * ts.len(),
                s < slots,
                r <= s,
                e.0 as int == slot_edge(ts@, s as int).0,
                e.1 as int == slot_edge(ts@, s as int).1,
                first == forall|q: int| 0 <= q < r ==> #[trigger] slot_edge(ts@, q) != slot_edge(
                    ts@,
                    s as int,
                ),
            decreases s - r,
        {
            let o = slot_edge_exec(ts, r);
            if o.0 == e.0 && o.1 == e.1 {
                first = false;
            }
            proof {
                if first {
                    assert forall|q: int| 0 <= q < r + 1 implies #[trigger] slot_edge(ts@, q)
                        != slot_edge(ts@, s as int) by {
                        if q < r {
                        }
                    }
                } else {
                    if o.0 == e.0 && o.1 == e.1 {
                        assert(slot_edge(ts@, r as int) == slot_edge(ts@, s as int));
                    }
                }
            }
            r = r + 1;
        }
        proof {
            lemma_edge_total_bound(ts@, s as int);
        }
        if first {
            total = total + 1;
        }
        s = s + 1;
    }
    total
}

/// Stage 1 in the default closed mode: every undirected edge must be used by
/// exactly two directed faces, and the two uses must traverse it in opposite
/// directions.
///
/// The witness is the lexicographically smallest faulty undirected edge
/// (ordered by smaller endpoint id, then larger).
pub fn audit_edges(mesh: &Mesh) -> (r: Result<(), EdgeFailure>)
    requires
        mesh@.wf(),
    ensures
        r is Ok <==> edge_report(mesh@, AuditMode::Closed) is None,
        r matches Err(f) ==> edge_report(mesh@, AuditMode::Closed) == Some(f@),
{
    audit_edges_with(mesh, AuditMode::Closed)
}

/// Edge audit with an explicit boundary policy.
pub fn audit_edges_with(mesh: &Mesh, mode: AuditMode) -> (r: Result<(), EdgeFailure>)
    requires
        mesh@.wf(),
    ensures
        r is Ok <==> edge_report(mesh@, mode) is None,
        r is Ok <==> forall|a: int, b: int| !is_faulty(mesh@.n(), mesh@.tris(), mode, a, b),
        r matches Err(f) ==> edge_report(mesh@, mode) == Some(f@),
{
    let ts = mesh.index_faces();
    proof {
        crate::model::lemma_wf_tris(mesh@);
    }
    edge_failure_of(mesh, audit_edges_idx(mesh.vertices.len(), &ts, mode), Ghost(mode))
}

/// Turns the index-level edge verdict into the reported [`EdgeFailure`].
pub fn edge_failure_of(
    mesh: &Mesh,
    r: Option<(usize, usize, usize, EdgeFault)>,
    Ghost(mode): Ghost<AuditMode>,
) -> (out: Result<(), EdgeFailure>)
    requires
        mesh@.wf(),
        r is None <==> edge_stage(mesh@.n(), mesh@.tris(), mode) is None,
        r matches Some((a, b, u, fault)) ==> {
            &&& edge_stage(mesh@.n(), mesh@.tris(), mode) == Some((a as int, b as int))
            &&& first_faulty(mesh@.n(), mesh@.tris(), mode, a as int, b as int)
            &&& u == uses(mesh@.tris(), a as int, b as int)
            &&& Some(fault) == edge_fault(mesh@.tris(), a as int, b as int, mode)
        },
    ensures
        out is Ok <==> edge_report(mesh@, mode) is None,
        out matches Err(f) ==> edge_report(mesh@, mode) == Some(f@),
{
    match r {
        None => Ok(()),
        Some((a, b, u, fault)) => {
            proof {
                assert(a < mesh.vertices.len() && b < mesh.vertices.len());
                assert(mesh@.vertices[a as int] == mesh.vertices@[a as int]@);
                assert(mesh@.vertices[b as int] == mesh.vertices@[b as int]@);
            }
            Err(
                EdgeFailure {
                    a: mesh.vertices[a].clone(),
                    b: mesh.vertices[b].clone(),
                    uses: u,
                    fault,
                },
            )
        },
    }
}

/// Number of distinct undirected edges in the parsed mesh.
pub fn edge_count(mesh: &Mesh) -> (r: usize)
    requires
        mesh@.wf(),
    ensures
        r == num_edges(mesh@.tris()),
{
    let ts = mesh.index_faces();
    proof {
        crate::model::lemma_wf_tris(mesh@);
    }
    edge_count_idx(&ts)
}

} // verus!
