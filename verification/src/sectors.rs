//! Stage 2: the faces around every vertex must form one fan. The link of
//! vertex `v` has, for every face corner at `v`, an edge from the corner's
//! successor to its predecessor; in closed mode the link must be one cycle,
//! in boundary mode one cycle or one simple path.

use vstd::prelude::*;

use crate::graph::{count_components, list_rel, lists_ok, reachable, root_count};
use crate::model::tris_ok;
use crate::text::lex_lt;
use crate::types::{corner, AuditMode, Mesh, MeshV, Tri};

verus! {

/// Face `t` has vertex `v` at corner `k`, whose successor is `s` and
/// predecessor `p`: it contributes the link edge `s -> p` at `v`.
pub open spec fn face_link(t: Tri, v: int, k: int, s: int, p: int) -> bool {
    &&& corner(t, k) == v
    &&& corner(t, k + 1) == s
    &&& corner(t, k + 2) == p
}

/// One of the first `i` faces contributes the link edge `s -> p` at `v`.
pub open spec fn link_edge_upto(ts: Seq<Tri>, v: int, i: int, s: int, p: int) -> bool {
    exists|f: int, k: int| 0 <= f < i && 0 <= k < 3 && #[trigger] face_link(ts[f], v, k, s, p)
}

/// The link of `v` has the directed edge `s -> p`.
pub open spec fn link_edge(ts: Seq<Tri>, v: int, s: int, p: int) -> bool {
    link_edge_upto(ts, v, ts.len() as int, s, p)
}

/// Link edges of `v` taken without direction (the fan adjacency).
pub open spec fn link_adj(ts: Seq<Tri>, v: int) -> spec_fn(int, int) -> bool {
    |a: int, b: int| link_edge(ts, v, a, b) || link_edge(ts, v, b, a)
}

/// `u` is an endpoint of some link edge of `v`.
pub open spec fn is_link_node(ts: Seq<Tri>, v: int, u: int) -> bool {
    exists|w: int| link_edge(ts, v, u, w) || link_edge(ts, v, w, u)
}

/// `u` has an outgoing link edge at `v`.
pub open spec fn has_succ(ts: Seq<Tri>, v: int, u: int) -> bool {
    exists|w: int| link_edge(ts, v, u, w)
}

/// `u` has an incoming link edge at `v`.
pub open spec fn has_pred(ts: Seq<Tri>, v: int, u: int) -> bool {
    exists|w: int| link_edge(ts, v, w, u)
}

/// Some link node of `v` has two distinct successors or two distinct
/// predecessors (the fan forks).
pub open spec fn forked(ts: Seq<Tri>, v: int) -> bool {
    (exists|s: int, p1: int, p2: int|
        p1 != p2 && link_edge(ts, v, s, p1) && link_edge(ts, v, s, p2)) || (exists|
        p: int,
        s1: int,
        s2: int,
    | s1 != s2 && link_edge(ts, v, s1, p) && link_edge(ts, v, s2, p))
}

/// The link nodes of `v` among positions `0..n`.
pub open spec fn link_nodes(ts: Seq<Tri>, v: int, n: int) -> Seq<bool> {
    Seq::new(n as nat, |u: int| is_link_node(ts, v, u))
}

/// Number of fan sectors at `v`: connected components of its link.
pub open spec fn sectors(ts: Seq<Tri>, v: int, n: int) -> nat {
    root_count(link_adj(ts, v), link_nodes(ts, v, n), n)
}

/// Every link node has a successor and a predecessor. For a link that does
/// not fork this says each node has exactly one of each: the link is a
/// union of cycles.
pub open spec fn cyclic(ts: Seq<Tri>, v: int, n: int) -> bool {
    forall|u: int| 0 <= u < n && #[trigger] is_link_node(ts, v, u) ==> has_succ(ts, v, u) && has_pred(ts, v, u)
}

/// Number of link nodes below `k` without a predecessor (path starts).
pub open spec fn path_starts(ts: Seq<Tri>, v: int, k: int) -> nat
    decreases k,
{
    if k <= 0 {
        0
    } else {
        path_starts(ts, v, k - 1) + if is_link_node(ts, v, k - 1) && !has_pred(ts, v, k - 1) {
            1nat
        } else {
            0nat
        }
    }
}

/// Number of link nodes below `k` without a successor (path ends).
pub open spec fn path_ends(ts: Seq<Tri>, v: int, k: int) -> nat
    decreases k,
{
    if k <= 0 {
        0
    } else {
        path_ends(ts, v, k - 1) + if is_link_node(ts, v, k - 1) && !has_succ(ts, v, k - 1) {
            1nat
        } else {
            0nat
        }
    }
}

/// The verdict on vertex `v`: `None` when its faces form an admissible
/// fan, else the sector count to report. A vertex on no face has 0
/// sectors; several sectors report their number; a forked link, or a
/// non-cyclic link in closed mode, or in boundary mode a link that is
/// neither cyclic nor one simple path (exactly one start and one end),
/// reports 1.
pub open spec fn vertex_verdict(ts: Seq<Tri>, v: int, n: int, mode: AuditMode) -> Option<nat> {
    if !(exists|u: int| 0 <= u < n && is_link_node(ts, v, u)) {
        Some(0)
    } else if sectors(ts, v, n) != 1 {
        Some(sectors(ts, v, n))
    } else if forked(ts, v) {
        Some(1)
    } else if cyclic(ts, v, n) {
        None
    } else if mode == AuditMode::Closed {
        Some(1)
    } else if path_starts(ts, v, n) == 1 && path_ends(ts, v, n) == 1 {
        None
    } else {
        Some(1)
    }
}

/// The first vertex below `k` whose verdict is a failure.
pub open spec fn first_bad_vertex(ts: Seq<Tri>, n: int, mode: AuditMode, k: int) -> Option<int>
    decreases k,
{
    if k <= 0 {
        None
    } else {
        match first_bad_vertex(ts, n, mode, k - 1) {
            Some(v) => Some(v),
            None => if vertex_verdict(ts, k - 1, n, mode) is Some {
                Some(k - 1)
            } else {
                None
            },
        }
    }
}

/// The vertex stage's verdict on a mesh: the first failing vertex's id and
/// sector count.
pub open spec fn vertex_report(m: MeshV, mode: AuditMode) -> Option<(Seq<char>, nat)> {
    let ts = m.tris();
    match first_bad_vertex(ts, m.n(), mode, m.n()) {
        Some(v) => Some((m.name(v), vertex_verdict(ts, v, m.n(), mode)->0)),
        None => None,
    }
}

/// The lists and marks describe exactly the link relation `e`: `out` lists
/// successors, `inc` predecessors, `adj` both, `node` the endpoints.
pub open spec fn link_matches(
    adj: Seq<Vec<usize>>,
    out: Seq<Vec<usize>>,
    inc: Seq<Vec<usize>>,
    node: Seq<bool>,
    n: int,
    e: spec_fn(int, int) -> bool,
) -> bool {
    &&& lists_ok(adj, n)
    &&& lists_ok(out, n)
    &&& lists_ok(inc, n)
    &&& node.len() == n
    &&& forall|a: int, b: int| #[trigger] e(a, b) ==> 0 <= a < n && 0 <= b < n
    &&& forall|a: int, b: int| #[trigger] list_rel(out, a, b) == e(a, b)
    &&& forall|a: int, b: int| #[trigger] list_rel(inc, b, a) == e(a, b)
    &&& forall|a: int, b: int| #[trigger] list_rel(adj, a, b) == (e(a, b) || e(b, a))
    &&& forall|u: int|
        0 <= u < n ==> (#[trigger] node[u] <==> exists|w: int| #[trigger] touches(e, u, w))
}

/// `u` and `w` are joined by an edge of `e`, in either direction.
pub open spec fn touches(e: spec_fn(int, int) -> bool, u: int, w: int) -> bool {
    e(u, w) || e(w, u)
}

fn push_at(g: &mut Vec<Vec<usize>>, i: usize, x: usize)
    requires
        i < old(g).len(),
    ensures
        final(g).len() == old(g).len(),
        final(g)@[i as int]@ == old(g)@[i as int]@.push(x),
        forall|j: int| 0 <= j < final(g).len() && j != i ==> #[trigger] final(g)@[j] == old(g)@[j],
{
    g[i].push(x);
}

proof fn lemma_push_rel(g0: Seq<Vec<usize>>, g1: Seq<Vec<usize>>, i: int, x: usize)
    requires
        0 <= i < g0.len(),
        g1.len() == g0.len(),
        g1[i]@ == g0[i]@.push(x),
        forall|j: int| 0 <= j < g1.len() && j != i ==> #[trigger] g1[j] == g0[j],
    ensures
        forall|a: int, b: int| #[trigger] list_rel(g1, a, b) == (list_rel(g0, a, b) || (a == i && b == x)),
{
    assert forall|a: int, b: int| #[trigger] list_rel(g1, a, b) == (list_rel(g0, a, b) || (a == i
        && b == x)) by {
        if a == i {
            if list_rel(g1, a, b) {
                let k = choose|k: int| 0 <= k < g1[a]@.len() && #[trigger] g1[a]@[k] as int == b;
                if k < g0[a]@.len() {
                    assert(g0[a]@[k] == g1[a]@[k]);
                }
            }
            if list_rel(g0, a, b) {
                let k = choose|k: int| 0 <= k < g0[a]@.len() && #[trigger] g0[a]@[k] as int == b;
                assert(g1[a]@[k] == g0[a]@[k]);
            }
            if a == i && b == x {
                assert(g1[a]@[g0[a]@.len() as int] == x);
            }
        } else if 0 <= a < g1.len() {
            assert(g1[a] == g0[a]);
        }
    }
}

/// Adds the link edge `s -> p` to the lists and marks.
fn add_link(
    adj: &mut Vec<Vec<usize>>,
    out: &mut Vec<Vec<usize>>,
    inc: &mut Vec<Vec<usize>>,
    node: &mut Vec<bool>,
    n: usize,
    s: usize,
    p: usize,
    Ghost(e): Ghost<spec_fn(int, int) -> bool>,
)
    requires
        link_matches(old(adj)@, old(out)@, old(inc)@, old(node)@, n as int, e),
        s < n,
        p < n,
    ensures
        link_matches(
            final(adj)@,
            final(out)@,
            final(inc)@,
            final(node)@,
            n as int,
            |a: int, b: int| e(a, b) || (a == s && b == p),
        ),
{
    let ghost adj0 = adj@;
    let ghost out0 = out@;
    let ghost inc0 = inc@;
    let ghost node0 = node@;
    push_at(out, s, p);
    push_at(inc, p, s);
    let ghost adj1 = adj@;
    push_at(adj, s, p);
    let ghost adj2 = adj@;
    push_at(adj, p, s);
    node.set(s, true);
    node.set(p, true);
    proof {
        let e2 = |a: int, b: int| e(a, b) || (a == s && b == p);
        lemma_push_rel(out0, out@, s as int, p);
        lemma_push_rel(inc0, inc@, p as int, s);
        lemma_push_rel(adj1, adj2, s as int, p);
        lemma_push_rel(adj2, adj@, p as int, s);
        assert forall|a: int, k: int| 0 <= a < n && 0 <= k < out@[a]@.len() implies #[trigger] out@[a]@[k]
            < n by {
            if a == s && k == out0[a]@.len() {
            } else if a == s {
                assert(out@[a]@[k] == out0[a]@[k]);
            } else {
                assert(out@[a] == out0[a]);
            }
        }
        assert forall|a: int, k: int| 0 <= a < n && 0 <= k < inc@[a]@.len() implies #[trigger] inc@[a]@[k]
            < n by {
            if a == p && k == inc0[a]@.len() {
            } else if a == p {
                assert(inc@[a]@[k] == inc0[a]@[k]);
            } else {
                assert(inc@[a] == inc0[a]);
            }
        }
        assert forall|a: int, k: int| 0 <= a < n && 0 <= k < adj2[a]@.len() implies #[trigger] adj2[a]@[k]
            < n by {
            if a == s && k == adj1[a]@.len() {
            } else if a == s {
                assert(adj2[a]@[k] == adj1[a]@[k]);
            } else {
                assert(adj2[a] == adj1[a]);
            }
        }
        assert forall|a: int, k: int| 0 <= a < n && 0 <= k < adj@[a]@.len() implies #[trigger] adj@[a]@[k]
            < n by {
            if a == p && k == adj2[a]@.len() {
            } else if a == p {
                assert(adj@[a]@[k] == adj2[a]@[k]);
            } else {
                assert(adj@[a] == adj2[a]);
            }
        }
        assert forall|u: int| 0 <= u < n implies (#[trigger] node@[u] <==> exists|w: int| #[trigger] touches(e2, u, w)) by {
            if u == s {
                assert(touches(e2, s as int, p as int));
            } else if u == p {
                assert(touches(e2, p as int, s as int));
            } else {
                assert(node@[u] == node0[u]);
                if exists|w: int| #[trigger] touches(e2, u, w) {
                    let w = choose|w: int| #[trigger] touches(e2, u, w);
                    assert(touches(e, u, w));
                }
                if node0[u] {
                    let w = choose|w: int| #[trigger] touches(e, u, w);
                    assert(touches(e2, u, w));
                }
            }
        }
        assert(link_matches(adj@, out@, inc@, node@, n as int, e2));
    }
}

/// Corner `k` of face `t`, for `k < 3`.
fn corner_exec(t: Tri, k: usize) -> (r: usize)
    requires
        k < 3,
    ensures
        r as int == corner(t, k as int),
{
    if k == 0 {
        t.0
    } else if k == 1 {
        t.1
    } else {
        t.2
    }
}

/// The link of vertex `v` as successor, predecessor and fan adjacency
/// lists plus the set of link nodes.
fn build_link(n: usize, ts: &Vec<Tri>, v: usize) -> (r: (
    Vec<Vec<usize>>,
    Vec<Vec<usize>>,
    Vec<Vec<usize>>,
    Vec<bool>,
))
    requires
        tris_ok(n as int, ts@),
    ensures
        link_matches(
            r.0@,
            r.1@,
            r.2@,
            r.3@,
            n as int,
            |a: int, b: int| link_edge(ts@, v as int, a, b),
        ),
{
    let mut adj: Vec<Vec<usize>> = Vec::new();
    let mut out: Vec<Vec<usize>> = Vec::new();
    let mut inc: Vec<Vec<usize>> = Vec::new();
    let mut node: Vec<bool> = Vec::new();
    let mut i: usize = 0;
    while i < n
        invariant
            i <= n,
            adj.len() == i,
            out.len() == i,
            inc.len() == i,
            node.len() == i,
            forall|j: int| 0 <= j < i ==> (#[trigger] adj@[j])@.len() == 0,
            forall|j: int| 0 <= j < i ==> (#[trigger] out@[j])@.len() == 0,
            forall|j: int| 0 <= j < i ==> (#[trigger] inc@[j])@.len() == 0,
            forall|j: int| 0 <= j < i ==> !#[trigger] node@[j],
        decreases n - i,
    {
        adj.push(Vec::new());
        out.push(Vec::new());
        inc.push(Vec::new());
        node.push(false);
        i = i + 1;
    }
    let ghost e0 = |a: int, b: int| link_edge_upto(ts@, v as int, 0, a, b);
    proof {
        assert forall|a: int, b: int| #[trigger] list_rel(out@, a, b) == e0(a, b) by {
            if list_rel(out@, a, b) {
                let k = choose|k: int| 0 <= k < out@[a]@.len() && #[trigger] out@[a]@[k] as int == b;
            }
        }
        assert forall|a: int, b: int| #[trigger] list_rel(inc@, b, a) == e0(a, b) by {
            if list_rel(inc@, b, a) {
                let k = choose|k: int| 0 <= k < inc@[b]@.len() && #[trigger] inc@[b]@[k] as int == a;
            }
        }
        assert forall|a: int, b: int| #[trigger] list_rel(adj@, a, b) == (e0(a, b) || e0(b, a)) by {
            if list_rel(adj@, a, b) {
                let k = choose|k: int| 0 <= k < adj@[a]@.len() && #[trigger] adj@[a]@[k] as int == b;
            }
        }
        assert(link_matches(adj@, out@, inc@, node@, n as int, e0));
    }
    let mut f: usize = 0;
    while f < ts.len()
        invariant
            tris_ok(n as int, ts@),
            f <= ts.len(),
            link_matches(
                adj@,
                out@,
                inc@,
                node@,
                n as int,
                |a: int, b: int| link_edge_upto(ts@, v as int, f as int, a, b),
            ),
        decreases ts.len() - f,
    {
        let t = ts[f];
        let ghost ef = |a: int, b: int| link_edge_upto(ts@, v as int, f as int, a, b);
        let ghost mut e = ef;
        let mut k: usize = 0;
        while k < 3
            invariant
                tris_ok(n as int, ts@),
                f < ts.len(),
                t == ts@[f as int],
                k <= 3,
                ef == (|a: int, b: int| link_edge_upto(ts@, v as int, f as int, a, b)),
                link_matches(adj@, out@, inc@, node@, n as int, e),
                forall|a: int, b: int|
                    #[trigger] e(a, b) == (ef(a, b) || exists|j: int|
                        0 <= j < k && #[trigger] face_link(t, v as int, j, a, b)),
            decreases 3 - k,
        {
            let c = corner_exec(t, k);
            if c == v {
                let s = corner_exec(t, (k + 1) % 3);
                let p = corner_exec(t, (k + 2) % 3);
                proof {
                    assert(corner(t, (k + 1) % 3) == corner(t, k + 1));
                    assert(corner(t, (k + 2) % 3) == corner(t, k + 2));
                    assert(s < n && p < n);
                }
                add_link(&mut adj, &mut out, &mut inc, &mut node, n, s, p, Ghost(e));
                proof {
                    let e_old = e;
                    e = |a: int, b: int| e_old(a, b) || (a == s && b == p);
                    assert(face_link(t, v as int, k as int, s as int, p as int));
                    assert forall|a: int, b: int|
                        #[trigger] e(a, b) == (ef(a, b) || exists|j: int|
                            0 <= j < k + 1 && #[trigger] face_link(t, v as int, j, a, b)) by {
                        if exists|j: int| 0 <= j < k + 1 && #[trigger] face_link(t, v as int, j, a, b) {
                            let j = choose|j: int| 0 <= j < k + 1 && #[trigger] face_link(t, v as int, j, a, b);
                            if j == k {
                                assert(a == s && b == p);
                            }
                        }
                    }
                }
            } else {
                proof {
                    assert forall|a: int, b: int|
                        #[trigger] e(a, b) == (ef(a, b) || exists|j: int|
                            0 <= j < k + 1 && #[trigger] face_link(t, v as int, j, a, b)) by {
                        if exists|j: int| 0 <= j < k + 1 && #[trigger] face_link(t, v as int, j, a, b) {
                            let j = choose|j: int| 0 <= j < k + 1 && #[trigger] face_link(t, v as int, j, a, b);
                            assert(j != k);
                        }
                    }
                }
            }
            k = k + 1;
        }
        proof {
            let e1 = |a: int, b: int| link_edge_upto(ts@, v as int, f + 1, a, b);
            assert forall|a: int, b: int| #[trigger] e(a, b) == e1(a, b) by {
                if e1(a, b) {
                    let (g, j) = choose|g: int, j: int|
                        0 <= g < f + 1 && 0 <= j < 3 && #[trigger] face_link(ts@[g], v as int, j, a, b);
                    if g < f {
                        assert(ef(a, b));
                    } else {
                        assert(face_link(t, v as int, j, a, b));
                    }
                }
                if ef(a, b) {
                    let (g, j) = choose|g: int, j: int|
                        0 <= g < f && 0 <= j < 3 && #[trigger] face_link(ts@[g], v as int, j, a, b);
                    assert(face_link(ts@[g], v as int, j, a, b));
                }
                if exists|j: int| 0 <= j < 3 && #[trigger] face_link(t, v as int, j, a, b) {
                    let j = choose|j: int| 0 <= j < 3 && #[trigger] face_link(t, v as int, j, a, b);
                    assert(face_link(ts@[f as int], v as int, j, a, b));
                }
            }
            assert(e =~= e1);
        }
        f = f + 1;
    }
    proof {
        let e_end = |a: int, b: int| link_edge_upto(ts@, v as int, f as int, a, b);
        let e_all = |a: int, b: int| link_edge(ts@, v as int, a, b);
        assert(e_end =~= e_all);
    }
    (adj, out, inc, node)
}

/// Whether some list holds two different entries.
fn list_forks(g: &Vec<Vec<usize>>) -> (r: bool)
    ensures
        r == exists|a: int, j1: int, j2: int|
            0 <= a < g@.len() && 0 <= j1 < g@[a]@.len() && 0 <= j2 < g@[a]@.len()
                && #[trigger] g@[a]@[j1] != #[trigger] g@[a]@[j2],
{
    let mut a: usize = 0;
    while a < g.len()
        invariant
            a <= g.len(),
            forall|x: int, j1: int, j2: int|
                0 <= x < a && 0 <= j1 < g@[x]@.len() && 0 <= j2 < g@[x]@.len() ==> #[trigger] g@[x]@[j1]
                    == #[trigger] g@[x]@[j2],
        decreases g.len() - a,
    {
        let mut j: usize = 0;
        while j < g[a].len()
            invariant
                a < g.len(),
                j <= g@[a as int]@.len(),
                forall|x: int, j1: int, j2: int|
                    0 <= x < a && 0 <= j1 < g@[x]@.len() && 0 <= j2 < g@[x]@.len() ==> #[trigger] g@[x]@[j1]
                        == #[trigger] g@[x]@[j2],
                forall|j1: int| 0 <= j1 < j ==> #[trigger] g@[a as int]@[j1] == g@[a as int]@[0],
            decreases g@[a as int]@.len() - j,
        {
            if g[a][j] != g[a][0] {
                proof {
                    assert(g@[a as int]@[j as int] != g@[a as int]@[0]);
                }
                return true;
            }
            j = j + 1;
        }
        proof {
            assert forall|x: int, j1: int, j2: int|
                0 <= x < a + 1 && 0 <= j1 < g@[x]@.len() && 0 <= j2 < g@[x]@.len() implies #[trigger] g@[x]@[j1]
                    == #[trigger] g@[x]@[j2] by {
                if x == a {
                    assert(g@[a as int]@[j1] == g@[a as int]@[0]);
                    assert(g@[a as int]@[j2] == g@[a as int]@[0]);
                }
            }
        }
        a = a + 1;
    }
    false
}

/// The verdict on one vertex ([`vertex_verdict`]).
pub fn vertex_verdict_idx(n: usize, ts: &Vec<Tri>, v: usize, mode: AuditMode) -> (r: Option<usize>)
    requires
        tris_ok(n as int, ts@),
    ensures
        r is None <==> vertex_verdict(ts@, v as int, n as int, mode) is None,
        r matches Some(k) ==> vertex_verdict(ts@, v as int, n as int, mode) == Some(k as nat),
{
    let (adj, out, inc, node) = build_link(n, ts, v);
    let ghost e = |a: int, b: int| link_edge(ts@, v as int, a, b);
    proof {
        assert(link_matches(adj@, out@, inc@, node@, n as int, e));
        assert forall|u: int| 0 <= u < n implies #[trigger] node@[u] == is_link_node(ts@, v as int, u) by {
            if node@[u] {
                let w = choose|w: int| #[trigger] touches(e, u, w);
                assert(link_edge(ts@, v as int, u, w) || link_edge(ts@, v as int, w, u));
            }
            if is_link_node(ts@, v as int, u) {
                let w = choose|w: int| link_edge(ts@, v as int, u, w) || link_edge(ts@, v as int, w, u);
                assert(touches(e, u, w));
            }
        }
        assert forall|u: int| 0 <= u < n implies #[trigger] has_succ(ts@, v as int, u) == (out@[u]@.len() > 0) by {
            if has_succ(ts@, v as int, u) {
                let w = choose|w: int| link_edge(ts@, v as int, u, w);
                assert(e(u, w));
                assert(list_rel(out@, u, w));
            }
            if out@[u]@.len() > 0 {
                assert(list_rel(out@, u, out@[u]@[0] as int));
                assert(e(u, out@[u]@[0] as int));
            }
        }
        assert forall|u: int| 0 <= u < n implies #[trigger] has_pred(ts@, v as int, u) == (inc@[u]@.len() > 0) by {
            if has_pred(ts@, v as int, u) {
                let w = choose|w: int| link_edge(ts@, v as int, w, u);
                assert(e(w, u));
                assert(list_rel(inc@, u, w));
            }
            if inc@[u]@.len() > 0 {
                assert(list_rel(inc@, u, inc@[u]@[0] as int));
                assert(e(inc@[u]@[0] as int, u));
            }
        }
    }
    // is there any link node at all?
    let mut any = false;
    let mut u: usize = 0;
    while u < n
        invariant
            u <= n,
            node.len() == n,
            any == exists|x: int| 0 <= x < u && #[trigger] node@[x],
        decreases n - u,
    {
        if node[u] {
            any = true;
        }
        u = u + 1;
    }
    if !any {
        proof {
            assert forall|x: int| 0 <= x < n implies !is_link_node(ts@, v as int, x) by {
                assert(!node@[x]);
            }
        }
        return Some(0);
    }
    proof {
        let x = choose|x: int| 0 <= x < n && #[trigger] node@[x];
        assert(is_link_node(ts@, v as int, x));
    }
    let ghost rel = link_adj(ts@, v as int);
    proof {
        assert forall|a: int, b: int| #[trigger] rel(a, b) == list_rel(adj@, a, b) by {
            assert(list_rel(adj@, a, b) == (e(a, b) || e(b, a)));
        }
        assert(node@ =~= link_nodes(ts@, v as int, n as int));
    }
    let count = count_components(&adj, &node, Ghost(rel));
    if count != 1 {
        return Some(count);
    }
    let fork = list_forks(&out) || list_forks(&inc);
    proof {
        if fork {
            if exists|a: int, j1: int, j2: int|
                0 <= a < out@.len() && 0 <= j1 < out@[a]@.len() && 0 <= j2 < out@[a]@.len()
                    && #[trigger] out@[a]@[j1] != #[trigger] out@[a]@[j2] {
                let (a, j1, j2) = choose|a: int, j1: int, j2: int|
                    0 <= a < out@.len() && 0 <= j1 < out@[a]@.len() && 0 <= j2 < out@[a]@.len()
                        && #[trigger] out@[a]@[j1] != #[trigger] out@[a]@[j2];
                assert(list_rel(out@, a, out@[a]@[j1] as int));
                assert(list_rel(out@, a, out@[a]@[j2] as int));
                assert(e(a, out@[a]@[j1] as int) && e(a, out@[a]@[j2] as int));
            } else {
                let (a, j1, j2) = choose|a: int, j1: int, j2: int|
                    0 <= a < inc@.len() && 0 <= j1 < inc@[a]@.len() && 0 <= j2 < inc@[a]@.len()
                        && #[trigger] inc@[a]@[j1] != #[trigger] inc@[a]@[j2];
                assert(list_rel(inc@, a, inc@[a]@[j1] as int));
                assert(list_rel(inc@, a, inc@[a]@[j2] as int));
                assert(e(inc@[a]@[j1] as int, a) && e(inc@[a]@[j2] as int, a));
            }
            assert(forked(ts@, v as int));
        } else {
            if forked(ts@, v as int) {
                if exists|s: int, p1: int, p2: int|
                    p1 != p2 && link_edge(ts@, v as int, s, p1) && link_edge(ts@, v as int, s, p2) {
                    let (s, p1, p2) = choose|s: int, p1: int, p2: int|
                        p1 != p2 && link_edge(ts@, v as int, s, p1) && link_edge(ts@, v as int, s, p2);
                    assert(e(s, p1) && e(s, p2));
                    assert(list_rel(out@, s, p1));
                    assert(list_rel(out@, s, p2));
                    let j1 = choose|j: int| 0 <= j < out@[s]@.len() && #[trigger] out@[s]@[j] as int == p1;
                    let j2 = choose|j: int| 0 <= j < out@[s]@.len() && #[trigger] out@[s]@[j] as int == p2;
                    assert(out@[s]@[j1] != out@[s]@[j2]);
                } else {
                    let (p, s1, s2) = choose|p: int, s1: int, s2: int|
                        s1 != s2 && link_edge(ts@, v as int, s1, p) && link_edge(ts@, v as int, s2, p);
                    assert(e(s1, p) && e(s2, p));
                    assert(list_rel(inc@, p, s1));
                    assert(list_rel(inc@, p, s2));
                    let j1 = choose|j: int| 0 <= j < inc@[p]@.len() && #[trigger] inc@[p]@[j] as int == s1;
                    let j2 = choose|j: int| 0 <= j < inc@[p]@.len() && #[trigger] inc@[p]@[j] as int == s2;
                    assert(inc@[p]@[j1] != inc@[p]@[j2]);
                }
            }
        }
    }
    if fork {
        return Some(1);
    }
    // cyclic link, and path starts and ends
    let mut cyc = true;
    let mut starts: usize = 0;
    let mut ends: usize = 0;
    let mut u: usize = 0;
    while u < n
        invariant
            u <= n,
            node.len() == n,
            out.len() == n,
            inc.len() == n,
            forall|x: int| 0 <= x < n ==> #[trigger] node@[x] == is_link_node(ts@, v as int, x),
            forall|x: int| 0 <= x < n ==> #[trigger] has_succ(ts@, v as int, x) == (out@[x]@.len() > 0),
            forall|x: int| 0 <= x < n ==> #[trigger] has_pred(ts@, v as int, x) == (inc@[x]@.len() > 0),
            cyc == forall|x: int|
                0 <= x < u && #[trigger] is_link_node(ts@, v as int, x) ==> has_succ(ts@, v as int, x)
                    && has_pred(ts@, v as int, x),
            starts == path_starts(ts@, v as int, u as int),
            ends == path_ends(ts@, v as int, u as int),
            starts <= u,
            ends <= u,
        decreases n - u,
    {
        proof {
            assert(node@[u as int] == is_link_node(ts@, v as int, u as int));
            assert(has_succ(ts@, v as int, u as int) == (out@[u as int]@.len() > 0));
            assert(has_pred(ts@, v as int, u as int) == (inc@[u as int]@.len() > 0));
        }
        if node[u] && (out[u].len() == 0 || inc[u].len() == 0) {
            cyc = false;
        }
        if node[u] && inc[u].len() == 0 {
            starts = starts + 1;
        }
        if node[u] && out[u].len() == 0 {
            ends = ends + 1;
        }
        u = u + 1;
    }
    if cyc {
        return None;
    }
    match mode {
        AuditMode::Closed => Some(1),
        AuditMode::Boundary => {
            if starts == 1 && ends == 1 {
                None
            } else {
                Some(1)
            }
        },
    }
}

proof fn lemma_first_bad_vertex_stable(ts: Seq<Tri>, n: int, mode: AuditMode, k: int, m: int)
    requires
        k <= m,
        first_bad_vertex(ts, n, mode, k) is Some,
    ensures
        first_bad_vertex(ts, n, mode, m) == first_bad_vertex(ts, n, mode, k),
    decreases m - k,
{
    if k < m {
        lemma_first_bad_vertex_stable(ts, n, mode, k, m - 1);
    }
}

/// The first failing vertex below `k` lies below `k`, fails, and every
/// vertex before it passes.
proof fn lemma_first_bad_vertex_least(ts: Seq<Tri>, n: int, mode: AuditMode, k: int)
    ensures
        first_bad_vertex(ts, n, mode, k) matches Some(w) ==> {
            &&& 0 <= w < k
            &&& vertex_verdict(ts, w, n, mode) is Some
            &&& forall|v: int| 0 <= v < w ==> #[trigger] vertex_verdict(ts, v, n, mode) is None
        },
    decreases k,
{
    if k > 0 {
        lemma_first_bad_vertex_least(ts, n, mode, k - 1);
        if first_bad_vertex(ts, n, mode, k - 1) is None {
            assert forall|v: int| 0 <= v < k - 1 implies #[trigger] vertex_verdict(ts, v, n, mode) is None by {
                crate::loops::lemma_first_bad_none(ts, n, mode, k - 1, v);
            }
        }
    }
}

/// The vertex witness is the failing vertex with the smallest id: every
/// vertex with a smaller id passes.
pub proof fn law_vertex_witness_least_by_id(m: MeshV, mode: AuditMode)
    requires
        m.wf(),
    ensures
        vertex_report(m, mode) matches Some((id, k)) ==> forall|v: int|
            0 <= v < m.n() && #[trigger] lex_lt(m.name(v), id) ==> vertex_verdict(
                m.tris(),
                v,
                m.n(),
                mode,
            ) is None,
{
    lemma_first_bad_vertex_least(m.tris(), m.n(), mode, m.n());
    if let Some(w) = first_bad_vertex(m.tris(), m.n(), mode, m.n()) {
        assert forall|v: int| 0 <= v < m.n() && #[trigger] lex_lt(m.name(v), m.name(w)) implies vertex_verdict(
            m.tris(),
            v,
            m.n(),
            mode,
        ) is None by {
            crate::types::lemma_position_order(m, v, w);
        }
    }
}

/// A vertex reports zero sectors exactly when it lies on no face.
pub proof fn law_zero_sectors_iff_on_no_face(ts: Seq<Tri>, n: int, mode: AuditMode, v: int)
    requires
        tris_ok(n, ts),
        0 <= v < n,
    ensures
        vertex_verdict(ts, v, n, mode) == Some(0nat) <==> forall|f: int|
            0 <= f < ts.len() ==> !#[trigger] crate::connect::has_vertex(ts[f], v),
{
    if exists|f: int| 0 <= f < ts.len() && #[trigger] crate::connect::has_vertex(ts[f], v) {
        let f = choose|f: int| 0 <= f < ts.len() && #[trigger] crate::connect::has_vertex(ts[f], v);
        let t = ts[f];
        let k: int = if t.0 == v {
            0
        } else if t.1 == v {
            1
        } else {
            2
        };
        assert(corner(t, k) == v);
        let sc = corner(t, k + 1);
        let pc = corner(t, k + 2);
        assert(face_link(t, v, k, sc, pc));
        assert(link_edge(ts, v, sc, pc));
        assert(0 <= sc < n);
        assert(is_link_node(ts, v, sc));
        assert(link_nodes(ts, v, n)[sc]);
        crate::graph::lemma_root_count_pos(link_adj(ts, v), link_nodes(ts, v, n), n, sc);
    } else {
        assert forall|u: int| 0 <= u < n implies !#[trigger] is_link_node(ts, v, u) by {
            if is_link_node(ts, v, u) {
                let w = choose|w: int| link_edge(ts, v, u, w) || link_edge(ts, v, w, u);
                let (a, b) = if link_edge(ts, v, u, w) {
                    (u, w)
                } else {
                    (w, u)
                };
                let (f, k) = choose|f: int, k: int|
                    0 <= f < ts.len() && 0 <= k < 3 && #[trigger] face_link(ts[f], v, k, a, b);
                assert(crate::connect::has_vertex(ts[f], v));
            }
        }
    }
}

/// A vertex passes exactly when its faces form one admissible fan: it lies
/// on a face, any two nodes of its link are joined through link edges, no
/// link node has two successors or two predecessors, and either every link
/// node has a successor and a predecessor (a cycle) or, in boundary mode
/// only, exactly one node lacks a predecessor and one lacks a successor (a
/// path).
pub proof fn law_vertex_pass_is_fan(ts: Seq<Tri>, n: int, mode: AuditMode, v: int)
    requires
        tris_ok(n, ts),
        0 <= v < n,
    ensures
        vertex_verdict(ts, v, n, mode) is None <==> {
            &&& exists|u: int| 0 <= u < n && #[trigger] is_link_node(ts, v, u)
            &&& forall|x: int, y: int|
                0 <= x < n && 0 <= y < n && #[trigger] is_link_node(ts, v, x) && #[trigger] is_link_node(
                    ts,
                    v,
                    y,
                ) ==> reachable(link_adj(ts, v), x, y)
            &&& forall|a: int, p1: int, p2: int|
                #[trigger] link_edge(ts, v, a, p1) && #[trigger] link_edge(ts, v, a, p2) ==> p1 == p2
            &&& forall|s1: int, s2: int, a: int|
                #[trigger] link_edge(ts, v, s1, a) && #[trigger] link_edge(ts, v, s2, a) ==> s1 == s2
            &&& (cyclic(ts, v, n) || (mode == AuditMode::Boundary && path_starts(ts, v, n) == 1
                && path_ends(ts, v, n) == 1))
        },
{
    let rel = link_adj(ts, v);
    let nodes = link_nodes(ts, v, n);
    assert forall|a: int, b: int| #[trigger] rel(a, b) implies rel(b, a) by {}
    if exists|u: int| 0 <= u < n && #[trigger] is_link_node(ts, v, u) {
        let u = choose|u: int| 0 <= u < n && #[trigger] is_link_node(ts, v, u);
        assert(nodes[u]);
        crate::graph::lemma_root_count_pos(rel, nodes, n, u);
        if sectors(ts, v, n) >= 2 {
            let (r1, r2) = crate::graph::lemma_two_roots(rel, nodes, n);
            assert(nodes[r1] && nodes[r2]);
            assert(is_link_node(ts, v, r1) && is_link_node(ts, v, r2));
        } else {
            assert forall|x: int, y: int|
                0 <= x < n && 0 <= y < n && #[trigger] is_link_node(ts, v, x) && #[trigger] is_link_node(
                    ts,
                    v,
                    y,
                ) implies reachable(rel, x, y) by {
                assert(nodes[x] && nodes[y]);
                crate::graph::lemma_one_root_connects(rel, nodes, x, y);
            }
        }
    }
}

/// The vertex stage on the index model: the first failing vertex and its
/// reported sector count.
pub fn audit_vertex_sectors_idx(n: usize, ts: &Vec<Tri>, mode: AuditMode) -> (r: Option<
    (usize, usize),
>)
    requires
        tris_ok(n as int, ts@),
    ensures
        r is None <==> first_bad_vertex(ts@, n as int, mode, n as int) is None,
        r matches Some((v, k)) ==> first_bad_vertex(ts@, n as int, mode, n as int) == Some(v as int)
            && vertex_verdict(ts@, v as int, n as int, mode) == Some(k as nat) && v < n,
{
    let mut v: usize = 0;
    while v < n
        invariant
            tris_ok(n as int, ts@),
            v <= n,
            first_bad_vertex(ts@, n as int, mode, v as int) is None,
        decreases n - v,
    {
        match vertex_verdict_idx(n, ts, v, mode) {
            Some(k) => {
                proof {
                    assert(first_bad_vertex(ts@, n as int, mode, v + 1) == Some(v as int));
                    lemma_first_bad_vertex_stable(ts@, n as int, mode, v + 1, n as int);
                }
                return Some((v, k));
            },
            None => {},
        }
        v = v + 1;
    }
    None
}

/// Stage 2: in closed mode the faces incident on every vertex must form one
/// cyclic fan. In boundary mode that fan may instead be one simple path.
///
/// For a directed face `(x, y, z)` the link edge at vertex `v` points from
/// `v`'s successor to `v`'s predecessor. Opposite face-edge uses glue the
/// matching link endpoints. Boundary vertices therefore have a path link;
/// interior vertices have a cycle link.
pub fn audit_vertex_sectors(mesh: &Mesh) -> (r: Result<(), (String, usize)>)
    requires
        mesh@.wf(),
    ensures
        r is Ok <==> vertex_report(mesh@, AuditMode::Closed) is None,
        r matches Err((id, k)) ==> vertex_report(mesh@, AuditMode::Closed) == Some((id@, k as nat)),
{
    audit_vertex_sectors_with(mesh, AuditMode::Closed)
}

/// Vertex-link audit with an explicit boundary policy.
pub fn audit_vertex_sectors_with(mesh: &Mesh, mode: AuditMode) -> (r: Result<(), (String, usize)>)
    requires
        mesh@.wf(),
    ensures
        r is Ok <==> vertex_report(mesh@, mode) is None,
        r matches Err((id, k)) ==> vertex_report(mesh@, mode) == Some((id@, k as nat)),
{
    let ts = mesh.index_faces();
    proof {
        crate::model::lemma_wf_tris(mesh@);
    }
    vertex_failure_of(mesh, audit_vertex_sectors_idx(mesh.vertices.len(), &ts, mode), Ghost(mode))
}

/// Turns the index-level vertex verdict into the reported id and count.
pub fn vertex_failure_of(
    mesh: &Mesh,
    r: Option<(usize, usize)>,
    Ghost(mode): Ghost<AuditMode>,
) -> (out: Result<(), (String, usize)>)
    requires
        mesh@.wf(),
        r is None <==> first_bad_vertex(mesh@.tris(), mesh@.n(), mode, mesh@.n()) is None,
        r matches Some((v, k)) ==> first_bad_vertex(mesh@.tris(), mesh@.n(), mode, mesh@.n()) == Some(
            v as int,
        ) && vertex_verdict(mesh@.tris(), v as int, mesh@.n(), mode) == Some(k as nat) && v
            < mesh@.n(),
    ensures
        out is Ok <==> vertex_report(mesh@, mode) is None,
        out matches Err((id, k)) ==> vertex_report(mesh@, mode) == Some((id@, k as nat)),
{
    match r {
        None => Ok(()),
        Some((v, k)) => {
            proof {
                assert(mesh@.vertices[v as int] == mesh.vertices@[v as int]@);
            }
            Err((mesh.vertices[v].clone(), k))
        },
    }
}

} // verus!
