//! Stage 3: all faces must belong to one edge-connected component.

use vstd::prelude::*;

use crate::edges::edge_report;
use crate::graph::{
    closed_under, is_walk, lemma_one_root_connects, lemma_reach_refl, lemma_reach_step,
    lemma_reach_sym, lemma_reach_trans, list_rel, lists_ok, mark_reachable, reachable, step_ok,
};
use crate::loops::lemma_first_bad_none;
use crate::model::lemma_wf_tris;
use crate::sectors::{
    face_link, is_link_node, law_zero_sectors_iff_on_no_face, link_adj, link_edge, link_nodes,
    sectors, vertex_report, vertex_verdict,
};
use crate::types::AuditMode;
use crate::model::tris_ok;
use crate::text::lex_lt;
use crate::types::{corner, Mesh, MeshV, Tri};

verus! {

/// The undirected edge from corner `k` to corner `k + 1` of `t`, as
/// (smaller position, larger position).
pub open spec fn und_edge(t: Tri, k: int) -> (int, int) {
    let x = corner(t, k);
    let y = corner(t, k + 1);
    if x <= y {
        (x, y)
    } else {
        (y, x)
    }
}

/// Faces `f` and `g` share an undirected edge.
pub open spec fn shares_edge(ts: Seq<Tri>, f: int, g: int) -> bool {
    &&& 0 <= f < ts.len()
    &&& 0 <= g < ts.len()
    &&& exists|k: int, l: int|
        0 <= k < 3 && 0 <= l < 3 && #[trigger] und_edge(ts[f], k) == #[trigger] und_edge(ts[g], l)
}

/// Edge adjacency between faces.
pub open spec fn face_adj(ts: Seq<Tri>) -> spec_fn(int, int) -> bool {
    |f: int, g: int| shares_edge(ts, f, g)
}

/// Face `t` has `u` as a corner.
pub open spec fn has_vertex(t: Tri, u: int) -> bool {
    t.0 == u || t.1 == u || t.2 == u
}

/// The first face, among the first `k`, that has vertex 0.
pub open spec fn first_face_with_root(ts: Seq<Tri>, k: int) -> Option<int>
    decreases k,
{
    if k <= 0 {
        None
    } else {
        match first_face_with_root(ts, k - 1) {
            Some(f) => Some(f),
            None => if has_vertex(ts[k - 1], 0) {
                Some(k - 1)
            } else {
                None
            },
        }
    }
}

/// The face the connectivity search starts from: the first face having
/// the smallest vertex.
pub open spec fn start_face(ts: Seq<Tri>) -> int {
    first_face_with_root(ts, ts.len() as int)->0
}

/// Vertex `u` lies on a face edge-connected to the start face.
pub open spec fn reached(ts: Seq<Tri>, u: int) -> bool {
    exists|g: int|
        0 <= g < ts.len() && #[trigger] reachable(face_adj(ts), start_face(ts), g) && has_vertex(
            ts[g],
            u,
        )
}

/// The first vertex below `k` that is not reached.
pub open spec fn first_unreached(ts: Seq<Tri>, k: int) -> Option<int>
    decreases k,
{
    if k <= 0 {
        None
    } else {
        match first_unreached(ts, k - 1) {
            Some(u) => Some(u),
            None => if !reached(ts, k - 1) {
                Some(k - 1)
            } else {
                None
            },
        }
    }
}

/// The connectivity stage's verdict on a mesh: the id of the smallest
/// vertex outside the start face's component.
pub open spec fn component_report(m: MeshV) -> Option<Seq<char>> {
    match first_unreached(m.tris(), m.n()) {
        Some(u) => Some(m.name(u)),
        None => None,
    }
}

/// The smallest vertex lies on some face, as the search needs.
pub open spec fn root_used(n: int, ts: Seq<Tri>) -> bool {
    n > 0 && exists|f: int| 0 <= f < ts.len() && #[trigger] has_vertex(ts[f], 0)
}

proof fn lemma_first_face_with_root(ts: Seq<Tri>, k: int)
    requires
        0 <= k <= ts.len(),
    ensures
        first_face_with_root(ts, k) is None <==> forall|f: int| 0 <= f < k ==> !#[trigger] has_vertex(ts[f], 0),
        first_face_with_root(ts, k) matches Some(f) ==> 0 <= f < k && has_vertex(ts[f], 0) && forall|
            g: int,
        | 0 <= g < f ==> !#[trigger] has_vertex(ts[g], 0),
    decreases k,
{
    if k > 0 {
        lemma_first_face_with_root(ts, k - 1);
    }
}

proof fn lemma_first_face_stable(ts: Seq<Tri>, k: int, m: int)
    requires
        k <= m,
        first_face_with_root(ts, k) is Some,
    ensures
        first_face_with_root(ts, m) == first_face_with_root(ts, k),
    decreases m - k,
{
    if k < m {
        lemma_first_face_stable(ts, k, m - 1);
    }
}

proof fn lemma_first_unreached_stable(ts: Seq<Tri>, k: int, m: int)
    requires
        k <= m,
        first_unreached(ts, k) is Some,
    ensures
        first_unreached(ts, m) == first_unreached(ts, k),
    decreases m - k,
{
    if k < m {
        lemma_first_unreached_stable(ts, k, m - 1);
    }
}

/// The first unreached vertex below `k` lies below `k`, is unreached, and
/// every vertex before it is reached.
proof fn lemma_first_unreached_least(ts: Seq<Tri>, k: int)
    ensures
        first_unreached(ts, k) matches Some(u) ==> {
            &&& 0 <= u < k
            &&& !reached(ts, u)
            &&& forall|v: int| 0 <= v < u ==> #[trigger] reached(ts, v)
        },
        first_unreached(ts, k) is None ==> forall|v: int| 0 <= v < k ==> #[trigger] reached(ts, v),
    decreases k,
{
    if k > 0 {
        lemma_first_unreached_least(ts, k - 1);
    }
}

/// The component witness is the unreached vertex with the smallest id:
/// every vertex with a smaller id lies on a face edge-connected to the
/// start face.
pub proof fn law_component_witness_least_by_id(m: MeshV)
    requires
        m.wf(),
    ensures
        component_report(m) matches Some(id) ==> forall|v: int|
            0 <= v < m.n() && #[trigger] lex_lt(m.name(v), id) ==> reached(m.tris(), v),
{
    lemma_first_unreached_least(m.tris(), m.n());
    if let Some(u) = first_unreached(m.tris(), m.n()) {
        assert forall|v: int| 0 <= v < m.n() && #[trigger] lex_lt(m.name(v), m.name(u)) implies reached(
            m.tris(),
            v,
        ) by {
            crate::types::lemma_position_order(m, v, u);
        }
    }
}

/// Whether two faces share an undirected edge.
fn faces_share_edge(t1: Tri, t2: Tri) -> (r: bool)
    ensures
        r == exists|k: int, l: int|
            0 <= k < 3 && 0 <= l < 3 && #[trigger] und_edge(t1, k) == #[trigger] und_edge(t2, l),
{
    let e1 = [und_exec(t1, 0), und_exec(t1, 1), und_exec(t1, 2)];
    let e2 = [und_exec(t2, 0), und_exec(t2, 1), und_exec(t2, 2)];
    let mut k: usize = 0;
    while k < 3
        invariant
            k <= 3,
            forall|i: int| 0 <= i < 3 ==> (#[trigger] e1@[i]).0 == und_edge(t1, i).0 && e1@[i].1 == und_edge(t1, i).1,
            forall|i: int| 0 <= i < 3 ==> (#[trigger] e2@[i]).0 == und_edge(t2, i).0 && e2@[i].1 == und_edge(t2, i).1,
            forall|a: int, b: int|
                0 <= a < k && 0 <= b < 3 ==> #[trigger] und_edge(t1, a) != #[trigger] und_edge(t2, b),
        decreases 3 - k,
    {
        let mut l: usize = 0;
        while l < 3
            invariant
                k < 3,
                l <= 3,
                forall|i: int| 0 <= i < 3 ==> (#[trigger] e1@[i]).0 == und_edge(t1, i).0 && e1@[i].1 == und_edge(t1, i).1,
                forall|i: int| 0 <= i < 3 ==> (#[trigger] e2@[i]).0 == und_edge(t2, i).0 && e2@[i].1 == und_edge(t2, i).1,
                forall|a: int, b: int|
                    0 <= a < k && 0 <= b < 3 ==> #[trigger] und_edge(t1, a) != #[trigger] und_edge(t2, b),
                forall|b: int| 0 <= b < l ==> und_edge(t1, k as int) != #[trigger] und_edge(t2, b),
            decreases 3 - l,
        {
            if e1[k].0 == e2[l].0 && e1[k].1 == e2[l].1 {
                proof {
                    assert(e1@[k as int] == e1[k as int]);
                    assert(und_edge(t1, k as int) == und_edge(t2, l as int));
                }
                return true;
            }
            proof {
                assert(e1@[k as int] == e1[k as int]);
                assert(e2@[l as int] == e2[l as int]);
            }
            l = l + 1;
        }
        k = k + 1;
    }
    false
}

/// The undirected edge from corner `k` to the next corner.
fn und_exec(t: Tri, k: usize) -> (r: (usize, usize))
    requires
        k < 3,
    ensures
        r.0 as int == und_edge(t, k as int).0,
        r.1 as int == und_edge(t, k as int).1,
{
    let (x, y) = if k == 0 {
        (t.0, t.1)
    } else if k == 1 {
        (t.1, t.2)
    } else {
        (t.2, t.0)
    };
    if x <= y {
        (x, y)
    } else {
        (y, x)
    }
}

/// The connectivity stage on the index model: the smallest vertex that no
/// face edge-connected to the start face touches.
pub fn audit_connected_idx(n: usize, ts: &Vec<Tri>) -> (r: Option<usize>)
    requires
        tris_ok(n as int, ts@),
        root_used(n as int, ts@),
    ensures
        r is None <==> first_unreached(ts@, n as int) is None,
        r matches Some(u) ==> first_unreached(ts@, n as int) == Some(u as int) && u < n,
{
    let nf = ts.len();
    // the start face
    let mut start: usize = 0;
    while start < nf && !(ts[start].0 == 0 || ts[start].1 == 0 || ts[start].2 == 0)
        invariant
            start <= nf,
            nf == ts.len(),
            first_face_with_root(ts@, start as int) is None,
        decreases nf - start,
    {
        start = start + 1;
    }
    proof {
        lemma_first_face_with_root(ts@, start as int);
        if start == nf {
            let f = choose|f: int| 0 <= f < ts@.len() && #[trigger] has_vertex(ts@[f], 0);
            assert(false);
        }
        assert(first_face_with_root(ts@, start + 1) == Some(start as int));
        lemma_first_face_stable(ts@, start + 1, nf as int);
        assert(start_face(ts@) == start);
    }
    // face adjacency lists
    let mut g: Vec<Vec<usize>> = Vec::new();
    let mut f: usize = 0;
    while f < nf
        invariant
            nf == ts.len(),
            f <= nf,
            g.len() == f,
            forall|a: int, k: int| 0 <= a < f && 0 <= k < g@[a]@.len() ==> #[trigger] g@[a]@[k] < nf,
            forall|a: int, b: int| 0 <= a < f ==> #[trigger] list_rel(g@, a, b) == shares_edge(ts@, a, b),
        decreases nf - f,
    {
        let mut row: Vec<usize> = Vec::new();
        let mut h: usize = 0;
        while h < nf
            invariant
                nf == ts.len(),
                f < nf,
                h <= nf,
                forall|k: int| 0 <= k < row@.len() ==> #[trigger] row@[k] < h,
                forall|b: int|
                    0 <= b < h ==> (shares_edge(ts@, f as int, b) <==> exists|k: int|
                        0 <= k < row@.len() && #[trigger] row@[k] as int == b),
                forall|b: int| #![trigger row@.contains(b as usize)] 0 <= b < nf && row@.contains(b as usize) ==> b < h,
            decreases nf - h,
        {
            let ghost row0 = row@;
            if faces_share_edge(ts[f], ts[h]) {
                row.push(h);
                proof {
                    assert(row@[row@.len() - 1] == h);
                    assert forall|b: int|
                        0 <= b < h + 1 implies (shares_edge(ts@, f as int, b) <==> exists|k: int|
                            0 <= k < row@.len() && #[trigger] row@[k] as int == b) by {
                        if exists|k: int| 0 <= k < row0.len() && #[trigger] row0[k] as int == b {
                            let k = choose|k: int| 0 <= k < row0.len() && #[trigger] row0[k] as int == b;
                            assert(row@[k] == row0[k]);
                        }
                        if exists|k: int| 0 <= k < row@.len() && #[trigger] row@[k] as int == b {
                            let k = choose|k: int| 0 <= k < row@.len() && #[trigger] row@[k] as int == b;
                            if k < row0.len() {
                                assert(row0[k] == row@[k]);
                            }
                        }
                    }
                }
            } else {
                proof {
                    assert forall|b: int|
                        0 <= b < h + 1 implies (shares_edge(ts@, f as int, b) <==> exists|k: int|
                            0 <= k < row@.len() && #[trigger] row@[k] as int == b) by {
                        if b == h {
                            if exists|k: int| 0 <= k < row@.len() && #[trigger] row@[k] as int == b {
                                let k = choose|k: int| 0 <= k < row@.len() && #[trigger] row@[k] as int == b;
                                assert(row@[k] < h);
                            }
                        }
                    }
                }
            }
            h = h + 1;
        }
        let ghost g0 = g@;
        g.push(row);
        proof {
            assert forall|a: int, b: int| 0 <= a < f + 1 implies #[trigger] list_rel(g@, a, b) == shares_edge(ts@, a, b) by {
                if a < f {
                    assert(g@[a] == g0[a]);
                    assert(list_rel(g0, a, b) == list_rel(g@, a, b));
                } else {
                    if list_rel(g@, a, b) {
                        let k = choose|k: int| 0 <= k < g@[a]@.len() && #[trigger] g@[a]@[k] as int == b;
                        assert(g@[a]@[k] < nf);
                    }
                }
            }
            assert forall|a: int, k: int| 0 <= a < f + 1 && 0 <= k < g@[a]@.len() implies #[trigger] g@[a]@[k] < nf by {
                if a < f {
                    assert(g@[a] == g0[a]);
                }
            }
        }
        f = f + 1;
    }
    // search from the start face
    let mut visited: Vec<bool> = Vec::new();
    let mut i: usize = 0;
    while i < nf
        invariant
            i <= nf,
            visited.len() == i,
            forall|k: int| 0 <= k < i ==> !#[trigger] visited@[k],
        decreases nf - i,
    {
        visited.push(false);
        i = i + 1;
    }
    let ghost rel = face_adj(ts@);
    proof {
        assert forall|a: int, b: int| #[trigger] rel(a, b) == list_rel(g@, a, b) by {
            if 0 <= a < nf {
                assert(list_rel(g@, a, b) == shares_edge(ts@, a, b));
            }
        }
        assert(lists_ok(g@, nf as int));
        assert(closed_under(rel, visited@));
    }
    mark_reachable(&g, start, &mut visited, Ghost(rel));
    // vertices on reached faces
    let mut hit: Vec<bool> = Vec::new();
    let mut i: usize = 0;
    while i < n
        invariant
            i <= n,
            hit.len() == i,
            forall|k: int| 0 <= k < i ==> !#[trigger] hit@[k],
        decreases n - i,
    {
        hit.push(false);
        i = i + 1;
    }
    let mut f: usize = 0;
    while f < nf
        invariant
            tris_ok(n as int, ts@),
            nf == ts.len(),
            f <= nf,
            visited.len() == nf,
            hit.len() == n,
            start_face(ts@) == start,
            forall|x: int| 0 <= x < nf ==> (#[trigger] visited@[x] <==> reachable(rel, start as int, x)),
            rel == face_adj(ts@),
            forall|u: int|
                0 <= u < n ==> (#[trigger] hit@[u] <==> exists|h: int|
                    0 <= h < f && visited@[h] && #[trigger] has_vertex(ts@[h], u)),
        decreases nf - f,
    {
        if visited[f] {
            let t = ts[f];
            let ghost h0 = hit@;
            hit.set(t.0, true);
            hit.set(t.1, true);
            hit.set(t.2, true);
            proof {
                assert forall|u: int|
                    0 <= u < n implies (#[trigger] hit@[u] <==> exists|h: int|
                        0 <= h < f + 1 && visited@[h] && #[trigger] has_vertex(ts@[h], u)) by {
                    if has_vertex(t, u) {
                        assert(has_vertex(ts@[f as int], u));
                    } else {
                        assert(hit@[u] == h0[u]);
                    }
                }
            }
        } else {
            proof {
                assert forall|u: int|
                    0 <= u < n implies (#[trigger] hit@[u] <==> exists|h: int|
                        0 <= h < f + 1 && visited@[h] && #[trigger] has_vertex(ts@[h], u)) by {
                    if exists|h: int| 0 <= h < f + 1 && visited@[h] && #[trigger] has_vertex(ts@[h], u) {
                        let h = choose|h: int| 0 <= h < f + 1 && visited@[h] && #[trigger] has_vertex(ts@[h], u);
                        assert(h != f);
                    }
                }
            }
        }
        f = f + 1;
    }
    proof {
        assert forall|u: int| 0 <= u < n implies #[trigger] hit@[u] == reached(ts@, u) by {
            if hit@[u] {
                let h = choose|h: int| 0 <= h < nf && visited@[h] && #[trigger] has_vertex(ts@[h], u);
                assert(reachable(face_adj(ts@), start_face(ts@), h));
            }
            if reached(ts@, u) {
                let h = choose|h: int|
                    0 <= h < ts@.len() && #[trigger] reachable(face_adj(ts@), start_face(ts@), h)
                        && has_vertex(ts@[h], u);
                assert(visited@[h]);
            }
        }
    }
    let mut u: usize = 0;
    while u < n
        invariant
            u <= n,
            hit.len() == n,
            forall|x: int| 0 <= x < n ==> #[trigger] hit@[x] == reached(ts@, x),
            first_unreached(ts@, u as int) is None,
        decreases n - u,
    {
        if !hit[u] {
            proof {
                assert(first_unreached(ts@, u + 1) == Some(u as int));
                lemma_first_unreached_stable(ts@, u + 1, n as int);
            }
            return Some(u);
        }
        u = u + 1;
    }
    None
}

/// Stage 3: all faces must belong to one edge-connected component. Witness:
/// smallest vertex id outside the component holding the smallest vertex
/// overall.
pub fn audit_connected(mesh: &Mesh) -> (r: Result<(), String>)
    requires
        mesh@.wf(),
        root_used(mesh@.n(), mesh@.tris()),
    ensures
        r is Ok <==> component_report(mesh@) is None,
        r matches Err(id) ==> component_report(mesh@) == Some(id@),
{
    let ts = mesh.index_faces();
    proof {
        crate::model::lemma_wf_tris(mesh@);
    }
    component_failure_of(mesh, audit_connected_idx(mesh.vertices.len(), &ts))
}

/// Turns the index-level component verdict into the reported id.
pub fn component_failure_of(mesh: &Mesh, r: Option<usize>) -> (out: Result<(), String>)
    requires
        mesh@.wf(),
        r is None <==> first_unreached(mesh@.tris(), mesh@.n()) is None,
        r matches Some(u) ==> first_unreached(mesh@.tris(), mesh@.n()) == Some(u as int) && u
            < mesh@.n(),
    ensures
        out is Ok <==> component_report(mesh@) is None,
        out matches Err(id) ==> component_report(mesh@) == Some(id@),
{
    match r {
        None => Ok(()),
        Some(u) => {
            proof {
                assert(mesh@.vertices[u as int] == mesh.vertices@[u as int]@);
            }
            Err(mesh.vertices[u].clone())
        },
    }
}

/// The undirected edge `{a, b}` as (smaller, larger).
pub open spec fn ord_pair(a: int, b: int) -> (int, int) {
    if a <= b {
        (a, b)
    } else {
        (b, a)
    }
}

/// Face `t` has the undirected edge `e`.
pub open spec fn has_edge(t: Tri, e: (int, int)) -> bool {
    exists|k: int| 0 <= k < 3 && #[trigger] und_edge(t, k) == e
}

/// Two faces with a common undirected edge reach each other.
proof fn lemma_common_edge(ts: Seq<Tri>, f: int, g: int, e: (int, int))
    requires
        0 <= f < ts.len(),
        0 <= g < ts.len(),
        has_edge(ts[f], e),
        has_edge(ts[g], e),
    ensures
        reachable(face_adj(ts), f, g),
{
    let k = choose|k: int| 0 <= k < 3 && #[trigger] und_edge(ts[f], k) == e;
    let l = choose|l: int| 0 <= l < 3 && #[trigger] und_edge(ts[g], l) == e;
    assert(shares_edge(ts, f, g));
    lemma_reach_refl(face_adj(ts), f);
    lemma_reach_step(face_adj(ts), f, f, g);
}

/// A link edge `a -> b` at `u` comes from a face holding both `{u, a}`
/// and `{u, b}`.
proof fn lemma_link_face(ts: Seq<Tri>, u: int, a: int, b: int) -> (f: int)
    requires
        link_edge(ts, u, a, b),
    ensures
        0 <= f < ts.len(),
        has_edge(ts[f], ord_pair(u, a)),
        has_edge(ts[f], ord_pair(u, b)),
{
    let (f, k) = choose|f: int, k: int| 0 <= f < ts.len() && 0 <= k < 3 && #[trigger] face_link(ts[f], u, k, a, b);
    let t = ts[f];
    assert(und_edge(t, k) == ord_pair(u, a));
    if k == 0 {
        assert(und_edge(t, 2) == ord_pair(u, b));
    } else if k == 1 {
        assert(und_edge(t, 0) == ord_pair(u, b));
    } else {
        assert(und_edge(t, 1) == ord_pair(u, b));
    }
    f
}

/// A face on `u` holds an edge `{u, s}` whose end `s` is a link node of `u`.
proof fn lemma_face_link_node(n: int, ts: Seq<Tri>, u: int, f: int) -> (s: int)
    requires
        tris_ok(n, ts),
        0 <= f < ts.len(),
        has_vertex(ts[f], u),
    ensures
        0 <= s < n,
        is_link_node(ts, u, s),
        has_edge(ts[f], ord_pair(u, s)),
{
    let t = ts[f];
    let k: int = if t.0 == u {
        0
    } else if t.1 == u {
        1
    } else {
        2
    };
    let s = corner(t, k + 1);
    let p = corner(t, k + 2);
    assert(face_link(t, u, k, s, p));
    assert(link_edge(ts, u, s, p));
    assert(und_edge(t, k) == ord_pair(u, s));
    s
}

/// Along a walk in the link of `u`, every face holding `{u, w}` for a
/// walk node `w` is reached from a face holding `{u, p[0]}`.
proof fn lemma_link_walk(ts: Seq<Tri>, u: int, p: Seq<int>, f1: int, i: int, f2: int)
    requires
        is_walk(link_adj(ts, u), p),
        0 <= f1 < ts.len(),
        has_edge(ts[f1], ord_pair(u, p[0])),
        0 <= i < p.len(),
        0 <= f2 < ts.len(),
        has_edge(ts[f2], ord_pair(u, p[i])),
    ensures
        reachable(face_adj(ts), f1, f2),
    decreases i,
{
    if i == 0 {
        lemma_common_edge(ts, f1, f2, ord_pair(u, p[0]));
    } else {
        assert(step_ok(link_adj(ts, u), p, i - 1));
        let f3 = if link_edge(ts, u, p[i - 1], p[i]) {
            lemma_link_face(ts, u, p[i - 1], p[i])
        } else {
            let g = lemma_link_face(ts, u, p[i], p[i - 1]);
            g
        };
        lemma_link_walk(ts, u, p, f1, i - 1, f3);
        lemma_common_edge(ts, f3, f2, ord_pair(u, p[i]));
        lemma_reach_trans(face_adj(ts), f1, f3, f2);
    }
}

/// The faces around a vertex whose fan passes form one fan: any two
/// faces on it reach each other through shared edges.
proof fn lemma_fan_connected(n: int, ts: Seq<Tri>, mode: AuditMode, u: int, h: int, g: int)
    requires
        tris_ok(n, ts),
        0 <= u < n,
        vertex_verdict(ts, u, n, mode) is None,
        0 <= h < ts.len(),
        0 <= g < ts.len(),
        has_vertex(ts[h], u),
        has_vertex(ts[g], u),
    ensures
        reachable(face_adj(ts), h, g),
{
    let sh = lemma_face_link_node(n, ts, u, h);
    let sg = lemma_face_link_node(n, ts, u, g);
    let rel = link_adj(ts, u);
    let nodes = link_nodes(ts, u, n);
    assert(sectors(ts, u, n) == 1);
    assert forall|a: int, b: int| #[trigger] rel(a, b) implies rel(b, a) by {}
    assert(nodes[sh] && nodes[sg]);
    lemma_one_root_connects(rel, nodes, sh, sg);
    let p = choose|p: Seq<int>| #[trigger] is_walk(rel, p) && p[0] == sh && p.last() == sg;
    lemma_link_walk(ts, u, p, h, p.len() - 1, g);
}

/// Every two faces are joined by a chain of faces, each sharing an
/// undirected edge with the next.
pub open spec fn faces_connected(ts: Seq<Tri>) -> bool {
    forall|f: int, g: int|
        0 <= f < ts.len() && 0 <= g < ts.len() ==> #[trigger] reachable(face_adj(ts), f, g)
}

/// Vertex `v` lies on some face.
pub open spec fn on_a_face(ts: Seq<Tri>, v: int) -> bool {
    exists|f: int| 0 <= f < ts.len() && #[trigger] has_vertex(ts[f], v)
}

/// Every vertex below `k` reached means no first unreached one.
proof fn lemma_all_reached(ts: Seq<Tri>, k: int)
    requires
        forall|v: int| 0 <= v < k ==> #[trigger] reached(ts, v),
    ensures
        first_unreached(ts, k) is None,
    decreases k,
{
    if k > 0 {
        lemma_all_reached(ts, k - 1);
        assert(reached(ts, k - 1));
    }
}

/// Once a mesh passes the edge and vertex stages, it passes the
/// connectivity stage exactly when its faces form one component under
/// sharing an undirected edge; faces that only touch at a vertex are not
/// connected.
pub proof fn law_connected_iff_faces_one_component(m: MeshV, mode: AuditMode)
    requires
        m.wf(),
        edge_report(m, mode) is None,
        vertex_report(m, mode) is None,
    ensures
        component_report(m) is None <==> forall|f: int, g: int|
            0 <= f < m.faces.len() && 0 <= g < m.faces.len() ==> #[trigger] reachable(
                face_adj(m.tris()),
                f,
                g,
            ),
{
    let n = m.n();
    let ts = m.tris();
    lemma_wf_tris(m);
    let rel = face_adj(ts);
    assert forall|a: int, b: int| #[trigger] rel(a, b) implies rel(b, a) by {
        if rel(a, b) {
            let (k, l) = choose|k: int, l: int|
                0 <= k < 3 && 0 <= l < 3 && #[trigger] und_edge(ts[a], k) == #[trigger] und_edge(ts[b], l);
            assert(und_edge(ts[b], l) == und_edge(ts[a], k));
        }
    }
    assert forall|v: int| 0 <= v < n implies #[trigger] on_a_face(ts, v) by {
        lemma_first_bad_none(ts, n, mode, n, v);
        law_zero_sectors_iff_on_no_face(ts, n, mode, v);
    }
    if component_report(m) is None {
        lemma_first_unreached_least(ts, n);
        let st = start_face(ts);
        assert forall|f: int| 0 <= f < ts.len() implies #[trigger] reachable(rel, st, f) by {
            let u = ts[f].0 as int;
            assert(has_vertex(ts[f], u));
            assert(reached(ts, u));
            let h = choose|h: int|
                0 <= h < ts.len() && #[trigger] reachable(rel, st, h) && has_vertex(ts[h], u);
            lemma_first_bad_none(ts, n, mode, n, u);
            lemma_fan_connected(n, ts, mode, u, h, f);
            lemma_reach_trans(rel, st, h, f);
        }
        assert forall|f: int, g: int| 0 <= f < m.faces.len() && 0 <= g < m.faces.len() implies #[trigger] reachable(
            rel,
            f,
            g,
        ) by {
            assert(reachable(rel, st, f));
            assert(reachable(rel, st, g));
            lemma_reach_sym(rel, st, f);
            lemma_reach_trans(rel, f, st, g);
        }
    } else {
        if forall|f: int, g: int|
            0 <= f < m.faces.len() && 0 <= g < m.faces.len() ==> #[trigger] reachable(rel, f, g) {
            if n > 0 {
                assert(on_a_face(ts, 0));
                lemma_first_face_with_root(ts, ts.len() as int);
                let st = start_face(ts);
                assert(0 <= st < ts.len());
                assert forall|v: int| 0 <= v < n implies #[trigger] reached(ts, v) by {
                    assert(on_a_face(ts, v));
                    let g = choose|g: int| 0 <= g < ts.len() && #[trigger] has_vertex(ts[g], v);
                    assert(reachable(rel, st, g));
                }
            }
            lemma_all_reached(ts, n);
        }
    }
}

/// Vertex `v` lies on a face edge-connected to a face on the smallest
/// vertex.
pub open spec fn joined_to_root(ts: Seq<Tri>, v: int) -> bool {
    exists|h: int, g: int|
        0 <= h < ts.len() && 0 <= g < ts.len() && #[trigger] has_vertex(ts[h], 0)
            && #[trigger] has_vertex(ts[g], v) && reachable(face_adj(ts), h, g)
}

/// Once the vertex stage passes, the component witness is a vertex that no
/// face on the smallest vertex reaches through shared edges, while every
/// vertex with a smaller id lies on a face that one does reach; so the
/// witness is never the smallest vertex itself.
#[verifier::rlimit(30)]
pub proof fn law_component_witness_separated(m: MeshV, mode: AuditMode)
    requires
        m.wf(),
        vertex_report(m, mode) is None,
    ensures
        component_report(m) matches Some(id) ==> exists|u: int|
            0 < u < m.n() && #[trigger] m.name(u) == id && !joined_to_root(m.tris(), u) && forall|
                v: int,
            | 0 <= v < m.n() && lex_lt(#[trigger] m.name(v), id) ==> joined_to_root(m.tris(), v),
{
    if let Some(u) = first_unreached(m.tris(), m.n()) {
        let n = m.n();
        let ts = m.tris();
        let rel = face_adj(ts);
        lemma_wf_tris(m);
        lemma_first_unreached_least(ts, n);
        lemma_first_bad_none(ts, n, mode, n, 0);
        law_zero_sectors_iff_on_no_face(ts, n, mode, 0);
        assert(on_a_face(ts, 0));
        lemma_first_face_with_root(ts, ts.len() as int);
        let st = start_face(ts);
        assert(0 <= st < ts.len() && has_vertex(ts[st], 0));
        lemma_reach_refl(rel, st);
        if u == 0 {
            assert(reached(ts, 0));
        }
        if joined_to_root(ts, u) {
            let (h, g) = choose|h: int, g: int|
                0 <= h < ts.len() && 0 <= g < ts.len() && #[trigger] has_vertex(ts[h], 0)
                    && #[trigger] has_vertex(ts[g], u) && reachable(rel, h, g);
            lemma_fan_connected(n, ts, mode, 0, st, h);
            lemma_reach_trans(rel, st, h, g);
            assert(reached(ts, u));
        }
        assert forall|v: int| 0 <= v < n && lex_lt(#[trigger] m.name(v), m.name(u)) implies joined_to_root(
            ts,
            v,
        ) by {
            crate::types::lemma_position_order(m, v, u);
            assert(reached(ts, v));
            let g = choose|g: int|
                0 <= g < ts.len() && #[trigger] reachable(rel, st, g) && has_vertex(ts[g], v);
            assert(has_vertex(ts[st], 0) && has_vertex(ts[g], v));
        }
        assert(m.name(u) == m.name(u));
    }
}

} // verus!
