//! Reachability in finite graphs on `0..n`, a depth-first search that
//! computes it, and the count of connected components.

use vstd::prelude::*;

verus! {

/// Step `i` of `p` follows `rel`.
pub open spec fn step_ok(rel: spec_fn(int, int) -> bool, p: Seq<int>, i: int) -> bool {
    rel(p[i], p[i + 1])
}

/// `p` is a nonempty walk: each step follows `rel`.
pub open spec fn is_walk(rel: spec_fn(int, int) -> bool, p: Seq<int>) -> bool {
    &&& p.len() > 0
    &&& forall|i: int| 0 <= i < p.len() - 1 ==> #[trigger] step_ok(rel, p, i)
}

/// Some walk leads from `a` to `b` (in zero or more steps).
pub open spec fn reachable(rel: spec_fn(int, int) -> bool, a: int, b: int) -> bool {
    exists|p: Seq<int>| #[trigger] is_walk(rel, p) && p[0] == a && p.last() == b
}

pub proof fn lemma_reach_refl(rel: spec_fn(int, int) -> bool, a: int)
    ensures
        reachable(rel, a, a),
{
    let p = seq![a];
    assert(is_walk(rel, p));
}

pub proof fn lemma_reach_step(rel: spec_fn(int, int) -> bool, a: int, b: int, c: int)
    requires
        reachable(rel, a, b),
        rel(b, c),
    ensures
        reachable(rel, a, c),
{
    let p = choose|p: Seq<int>| #[trigger] is_walk(rel, p) && p[0] == a && p.last() == b;
    let q = p.push(c);
    assert forall|i: int| 0 <= i < q.len() - 1 implies #[trigger] step_ok(rel, q, i) by {
        if i < p.len() - 1 {
            assert(step_ok(rel, p, i));
        }
    }
    assert(is_walk(rel, q));
}

pub proof fn lemma_reach_trans(rel: spec_fn(int, int) -> bool, a: int, b: int, c: int)
    requires
        reachable(rel, a, b),
        reachable(rel, b, c),
    ensures
        reachable(rel, a, c),
{
    let p = choose|p: Seq<int>| #[trigger] is_walk(rel, p) && p[0] == a && p.last() == b;
    let q = choose|q: Seq<int>| #[trigger] is_walk(rel, q) && q[0] == b && q.last() == c;
    let w = p + q.drop_first();
    assert forall|i: int| 0 <= i < w.len() - 1 implies #[trigger] step_ok(rel, w, i) by {
        if i < p.len() - 1 {
            assert(step_ok(rel, p, i));
        } else {
            let j = i - p.len() + 1;
            assert(step_ok(rel, q, j));
            assert(w[i] == q[j]);
            assert(w[i + 1] == q[j + 1]);
        }
    }
    assert(is_walk(rel, w));
    if q.len() == 1 {
        assert(w =~= p);
    } else {
        assert(w.last() == q.last());
    }
}

/// In a symmetric relation reachability is symmetric.
pub proof fn lemma_reach_sym(rel: spec_fn(int, int) -> bool, a: int, b: int)
    requires
        forall|x: int, y: int| #[trigger] rel(x, y) ==> rel(y, x),
        reachable(rel, a, b),
    ensures
        reachable(rel, b, a),
{
    let p = choose|p: Seq<int>| #[trigger] is_walk(rel, p) && p[0] == a && p.last() == b;
    let q = p.reverse();
    assert forall|i: int| 0 <= i < q.len() - 1 implies #[trigger] step_ok(rel, q, i) by {
        let j = p.len() - 2 - i;
        assert(step_ok(rel, p, j));
        assert(q[i] == p[j + 1]);
        assert(q[i + 1] == p[j]);
    }
    assert(is_walk(rel, q));
}

/// Every member of a set closed under `rel` reaches only members.
pub proof fn lemma_closed_reach(
    rel: spec_fn(int, int) -> bool,
    s: spec_fn(int) -> bool,
    a: int,
    b: int,
)
    requires
        s(a),
        forall|x: int, y: int| s(x) && #[trigger] rel(x, y) ==> s(y),
        reachable(rel, a, b),
    ensures
        s(b),
{
    let p = choose|p: Seq<int>| #[trigger] is_walk(rel, p) && p[0] == a && p.last() == b;
    lemma_walk_in_set(rel, s, p, p.len() - 1);
}

proof fn lemma_walk_in_set(rel: spec_fn(int, int) -> bool, s: spec_fn(int) -> bool, p: Seq<int>, i: int)
    requires
        is_walk(rel, p),
        s(p[0]),
        forall|x: int, y: int| s(x) && #[trigger] rel(x, y) ==> s(y),
        0 <= i < p.len(),
    ensures
        s(p[i]),
    decreases i,
{
    if i > 0 {
        lemma_walk_in_set(rel, s, p, i - 1);
        assert(step_ok(rel, p, i - 1));
    }
}

/// The relation given by adjacency lists: `a -> b` when `b` is listed at `a`.
pub open spec fn list_rel(g: Seq<Vec<usize>>, a: int, b: int) -> bool {
    &&& 0 <= a < g.len()
    &&& exists|k: int| 0 <= k < g[a]@.len() && #[trigger] g[a]@[k] as int == b
}

/// Adjacency lists over `0..n` whose entries all lie in `0..n`.
pub open spec fn lists_ok(g: Seq<Vec<usize>>, n: int) -> bool {
    &&& g.len() == n
    &&& forall|a: int, k: int| 0 <= a < n && 0 <= k < g[a]@.len() ==> #[trigger] g[a]@[k] < n
}

/// A marking that is closed under `rel`.
pub open spec fn closed_under(rel: spec_fn(int, int) -> bool, vis: Seq<bool>) -> bool {
    forall|a: int, b: int|
        0 <= a < vis.len() && vis[a] && #[trigger] rel(a, b) ==> 0 <= b < vis.len() && vis[b]
}

/// Number of unmarked positions.
pub open spec fn count_false(s: Seq<bool>) -> nat
    decreases s.len(),
{
    if s.len() == 0 {
        0
    } else {
        count_false(s.drop_last()) + if s.last() {
            0nat
        } else {
            1nat
        }
    }
}

pub proof fn lemma_count_false_set(s: Seq<bool>, i: int)
    requires
        0 <= i < s.len(),
        !s[i],
    ensures
        count_false(s.update(i, true)) + 1 == count_false(s),
    decreases s.len(),
{
    let t = s.update(i, true);
    if i < s.len() - 1 {
        assert(t.drop_last() =~= s.drop_last().update(i, true));
        lemma_count_false_set(s.drop_last(), i);
    } else {
        assert(t.drop_last() =~= s.drop_last());
    }
}

/// Every listed neighbour of a visited, finished node is visited.
pub open spec fn frontier_ok(
    rel: spec_fn(int, int) -> bool,
    vis: Seq<bool>,
    old_vis: Seq<bool>,
    stack: Seq<usize>,
    skip: int,
) -> bool {
    forall|a: int, b: int|
        0 <= a < vis.len() && 0 <= b < vis.len() && vis[a] && !old_vis[a] && #[trigger] rel(a, b)
            && !stack.contains(a as usize) && a != skip ==> vis[b]
}

/// Marks every position reachable from `start`, keeping earlier marks.
pub fn mark_reachable(
    g: &Vec<Vec<usize>>,
    start: usize,
    visited: &mut Vec<bool>,
    Ghost(rel): Ghost<spec_fn(int, int) -> bool>,
)
    requires
        lists_ok(g@, old(visited).len() as int),
        start < old(visited).len(),
        forall|a: int, b: int| #[trigger] rel(a, b) == list_rel(g@, a, b),
        closed_under(rel, old(visited)@),
    ensures
        final(visited).len() == old(visited).len(),
        forall|x: int|
            0 <= x < final(visited).len() ==> (#[trigger] final(visited)@[x] <==> old(visited)@[x]
                || reachable(rel, start as int, x)),
        closed_under(rel, final(visited)@),
{
    let ghost old_vis = visited@;
    let ghost n = visited.len() as int;
    if visited[start] {
        proof {
            let s = |y: int| 0 <= y < n && old_vis[y];
            assert forall|x: int, y: int| s(x) && #[trigger] rel(x, y) implies s(y) by {}
            assert forall|x: int| 0 <= x < n && reachable(rel, start as int, x) implies old_vis[x] by {
                lemma_closed_reach(rel, s, start as int, x);
            }
        }
        return ;
    }
    proof {
        lemma_reach_refl(rel, start as int);
    }
    visited.set(start, true);
    let mut stack: Vec<usize> = Vec::new();
    stack.push(start);
    proof {
        assert(stack@[0] == start);
        assert(frontier_ok(rel, visited@, old_vis, stack@, -1)) by {
            assert forall|a: int, b: int|
                0 <= a < n && 0 <= b < n && visited@[a] && !old_vis[a] && #[trigger] rel(a, b)
                    && !stack@.contains(a as usize) && a != -1 implies visited@[b] by {
                if a != start as int {
                    assert(old_vis[a]);
                }
            }
        }
    }
    while stack.len() > 0
        invariant
            lists_ok(g@, n),
            visited.len() == n,
            forall|a: int, b: int| #[trigger] rel(a, b) == list_rel(g@, a, b),
            closed_under(rel, old_vis),
            old_vis.len() == n,
            0 <= start < n,
            visited@[start as int],
            forall|x: int| 0 <= x < n && old_vis[x] ==> #[trigger] visited@[x],
            forall|x: int|
                0 <= x < n && #[trigger] visited@[x] ==> old_vis[x] || reachable(
                    rel,
                    start as int,
                    x,
                ),
            forall|k: int|
                0 <= k < stack.len() ==> #[trigger] stack@[k] < n && visited@[stack@[k] as int]
                    && !old_vis[stack@[k] as int],
            frontier_ok(rel, visited@, old_vis, stack@, -1),
        decreases count_false(visited@), stack.len(),
    {
        let ghost cf0 = count_false(visited@);
        let ghost sl0 = stack.len();
        let ghost st_before = stack@;
        let a = stack.pop().unwrap();
        let ghost ag = a as int;
        proof {
            assert(stack@ =~= st_before.drop_last());
            assert(a == st_before[st_before.len() - 1]);
            assert(a < n && visited@[ag] && !old_vis[ag]);
            assert(reachable(rel, start as int, ag));
            assert(frontier_ok(rel, visited@, old_vis, stack@, ag)) by {
                assert forall|a2: int, b: int|
                    0 <= a2 < n && 0 <= b < n && visited@[a2] && !old_vis[a2] && #[trigger] rel(a2, b)
                        && !stack@.contains(a2 as usize) && a2 != ag implies visited@[b] by {
                    if st_before.contains(a2 as usize) {
                        let k = choose|k: int| 0 <= k < st_before.len() && st_before[k] == a2 as usize;
                        assert(k != st_before.len() - 1);
                        assert(stack@[k] == a2 as usize);
                    }
                }
            }
        }
        let mut j: usize = 0;
        while j < g[a].len()
            invariant
                lists_ok(g@, n),
                visited.len() == n,
                forall|a: int, b: int| #[trigger] rel(a, b) == list_rel(g@, a, b),
                closed_under(rel, old_vis),
                old_vis.len() == n,
                0 <= start < n,
                visited@[start as int],
                0 <= ag < n,
                ag == a,
                visited@[ag],
                !old_vis[ag],
                reachable(rel, start as int, ag),
                j <= g@[ag]@.len(),
                forall|k: int| 0 <= k < j ==> #[trigger] visited@[g@[ag]@[k] as int],
                forall|x: int| 0 <= x < n && old_vis[x] ==> #[trigger] visited@[x],
                forall|x: int|
                    0 <= x < n && #[trigger] visited@[x] ==> old_vis[x] || reachable(
                        rel,
                        start as int,
                        x,
                    ),
                forall|k: int|
                    0 <= k < stack.len() ==> #[trigger] stack@[k] < n && visited@[stack@[k] as int]
                        && !old_vis[stack@[k] as int],
                frontier_ok(rel, visited@, old_vis, stack@, ag),
                count_false(visited@) <= cf0,
                count_false(visited@) == cf0 ==> stack.len() + 1 == sl0,
            decreases g@[ag]@.len() - j,
        {
            let b = g[a][j];
            proof {
                assert(g@[ag]@[j as int] < n);
            }
            if !visited[b] {
                proof {
                    assert(g@[ag]@[j as int] as int == b as int);
                    assert(list_rel(g@, ag, b as int));
                    assert(rel(ag, b as int));
                    lemma_reach_step(rel, start as int, ag, b as int);
                    lemma_count_false_set(visited@, b as int);
                }
                let ghost st0 = stack@;
                let ghost v0 = visited@;
                visited.set(b, true);
                stack.push(b);
                proof {
                    assert(visited@ == v0.update(b as int, true));
                    assert(frontier_ok(rel, visited@, old_vis, stack@, ag)) by {
                        assert forall|a2: int, b2: int|
                            0 <= a2 < n && 0 <= b2 < n && visited@[a2] && !old_vis[a2] && #[trigger] rel(
                                a2,
                                b2,
                            ) && !stack@.contains(a2 as usize) && a2 != ag implies visited@[b2] by {
                            if a2 != b as int {
                                if st0.contains(a2 as usize) {
                                    let k = choose|k: int| 0 <= k < st0.len() && st0[k] == a2 as usize;
                                    assert(stack@[k] == a2 as usize);
                                }
                                assert(v0[a2]);
                                assert(v0[b2]);
                            } else {
                                assert(stack@[stack.len() - 1] == b);
                            }
                        }
                    }
                    assert forall|k: int|
                        0 <= k < stack.len() implies #[trigger] stack@[k] < n && visited@[stack@[k] as int]
                            && !old_vis[stack@[k] as int] by {
                        if k < st0.len() {
                            assert(stack@[k] == st0[k]);
                        }
                    }
                    assert forall|k: int| 0 <= k < j + 1 implies #[trigger] visited@[g@[ag]@[k] as int] by {
                        if k < j {
                            assert(v0[g@[ag]@[k] as int]);
                        }
                    }
                }
            }
            j = j + 1;
        }
        proof {
            assert(frontier_ok(rel, visited@, old_vis, stack@, -1)) by {
                assert forall|a2: int, b2: int|
                    0 <= a2 < n && 0 <= b2 < n && visited@[a2] && !old_vis[a2] && #[trigger] rel(a2, b2)
                        && !stack@.contains(a2 as usize) && a2 != -1 implies visited@[b2] by {
                    if a2 == ag {
                        assert(list_rel(g@, ag, b2));
                        let k = choose|k: int| 0 <= k < g@[ag]@.len() && #[trigger] g@[ag]@[k] as int == b2;
                        assert(visited@[g@[ag]@[k] as int]);
                    }
                }
            }
        }
    }
    proof {
        assert forall|a2: int, b2: int|
            0 <= a2 < visited@.len() && visited@[a2] && #[trigger] rel(a2, b2) implies 0 <= b2
                < visited@.len() && visited@[b2] by {
            assert(list_rel(g@, a2, b2));
            let k = choose|k: int| 0 <= k < g@[a2]@.len() && #[trigger] g@[a2]@[k] as int == b2;
            assert(g@[a2]@[k] < n);
            if old_vis[a2] {
                assert(old_vis[b2]);
            } else {
                assert(!stack@.contains(a2 as usize));
            }
        }
        let vis = visited@;
        let s = |y: int| 0 <= y < n && vis[y];
        assert forall|x: int, y: int| s(x) && #[trigger] rel(x, y) implies s(y) by {}
        assert forall|x: int| 0 <= x < n && reachable(rel, start as int, x) implies vis[x] by {
            lemma_closed_reach(rel, s, start as int, x);
        }
    }
}

/// `u` is a marked node from which no earlier marked node is reachable:
/// the first node of its component.
pub open spec fn is_root(rel: spec_fn(int, int) -> bool, nodes: Seq<bool>, u: int) -> bool {
    &&& 0 <= u < nodes.len()
    &&& nodes[u]
    &&& forall|w: int| 0 <= w < u && #[trigger] nodes[w] ==> !reachable(rel, w, u)
}

/// Number of component roots among the first `k` positions.
pub open spec fn root_count(rel: spec_fn(int, int) -> bool, nodes: Seq<bool>, k: int) -> nat
    decreases k,
{
    if k <= 0 {
        0
    } else {
        root_count(rel, nodes, k - 1) + if is_root(rel, nodes, k - 1) {
            1nat
        } else {
            0nat
        }
    }
}

/// The root count never falls as more positions are counted.
pub proof fn lemma_root_count_mono(rel: spec_fn(int, int) -> bool, nodes: Seq<bool>, j: int, k: int)
    requires
        j <= k,
    ensures
        root_count(rel, nodes, j) <= root_count(rel, nodes, k),
    decreases k - j,
{
    if j < k {
        lemma_root_count_mono(rel, nodes, j, k - 1);
    }
}

/// A marked node below `k` makes the count of components below `k`
/// positive: the first node of its component is a root.
pub proof fn lemma_root_count_pos(rel: spec_fn(int, int) -> bool, nodes: Seq<bool>, k: int, u: int)
    requires
        0 <= u < k <= nodes.len(),
        nodes[u],
    ensures
        root_count(rel, nodes, k) > 0,
    decreases u,
{
    if is_root(rel, nodes, u) {
        lemma_root_count_mono(rel, nodes, u + 1, k);
    } else {
        let w = choose|w: int| 0 <= w < u && #[trigger] nodes[w] && reachable(rel, w, u);
        lemma_root_count_pos(rel, nodes, k, w);
    }
}

/// The smallest marked node that `x` reaches, found below the candidate
/// `c`.
proof fn least_reached(rel: spec_fn(int, int) -> bool, nodes: Seq<bool>, x: int, c: int) -> (r: int)
    requires
        0 <= c < nodes.len(),
        nodes[c],
        reachable(rel, x, c),
    ensures
        0 <= r < nodes.len(),
        nodes[r],
        reachable(rel, x, r),
        forall|w: int| 0 <= w < r && #[trigger] nodes[w] ==> !reachable(rel, x, w),
    decreases c,
{
    if exists|w: int| 0 <= w < c && #[trigger] nodes[w] && reachable(rel, x, w) {
        let w = choose|w: int| 0 <= w < c && #[trigger] nodes[w] && reachable(rel, x, w);
        least_reached(rel, nodes, x, w)
    } else {
        c
    }
}

/// With a symmetric relation and at most one component root, any two
/// marked nodes reach each other.
pub proof fn lemma_one_root_connects(rel: spec_fn(int, int) -> bool, nodes: Seq<bool>, x: int, y: int)
    requires
        forall|a: int, b: int| #[trigger] rel(a, b) ==> rel(b, a),
        root_count(rel, nodes, nodes.len() as int) <= 1,
        0 <= x < nodes.len(),
        nodes[x],
        0 <= y < nodes.len(),
        nodes[y],
    ensures
        reachable(rel, x, y),
{
    lemma_reach_refl(rel, x);
    lemma_reach_refl(rel, y);
    let rx = least_reached(rel, nodes, x, x);
    let ry = least_reached(rel, nodes, y, y);
    assert forall|w: int| 0 <= w < rx && #[trigger] nodes[w] implies !reachable(rel, w, rx) by {
        if reachable(rel, w, rx) {
            lemma_reach_sym(rel, w, rx);
            lemma_reach_trans(rel, x, rx, w);
        }
    }
    assert forall|w: int| 0 <= w < ry && #[trigger] nodes[w] implies !reachable(rel, w, ry) by {
        if reachable(rel, w, ry) {
            lemma_reach_sym(rel, w, ry);
            lemma_reach_trans(rel, y, ry, w);
        }
    }
    assert(is_root(rel, nodes, rx));
    assert(is_root(rel, nodes, ry));
    if rx != ry {
        let (a, b) = if rx < ry {
            (rx, ry)
        } else {
            (ry, rx)
        };
        lemma_root_count_mono(rel, nodes, 0, a);
        lemma_root_count_mono(rel, nodes, a + 1, b);
        lemma_root_count_mono(rel, nodes, b + 1, nodes.len() as int);
        assert(false);
    }
    lemma_reach_sym(rel, y, ry);
    lemma_reach_trans(rel, x, rx, y);
}

/// A positive root count below `k` has a root below `k`.
proof fn lemma_some_root(rel: spec_fn(int, int) -> bool, nodes: Seq<bool>, k: int) -> (r: int)
    requires
        root_count(rel, nodes, k) >= 1,
    ensures
        0 <= r < k,
        is_root(rel, nodes, r),
    decreases k,
{
    if root_count(rel, nodes, k - 1) >= 1 {
        lemma_some_root(rel, nodes, k - 1)
    } else {
        k - 1
    }
}

/// With two or more roots there are two distinct ones, the later not
/// reachable from the earlier.
pub proof fn lemma_two_roots(rel: spec_fn(int, int) -> bool, nodes: Seq<bool>, k: int) -> (r: (int, int))
    requires
        root_count(rel, nodes, k) >= 2,
    ensures
        0 <= r.0 < r.1 < k,
        is_root(rel, nodes, r.0),
        is_root(rel, nodes, r.1),
        !reachable(rel, r.0, r.1),
    decreases k,
{
    if root_count(rel, nodes, k - 1) >= 2 {
        lemma_two_roots(rel, nodes, k - 1)
    } else {
        let a = lemma_some_root(rel, nodes, k - 1);
        (a, k - 1)
    }
}

/// Number of connected components among the marked nodes, for a
/// symmetric adjacency.
pub fn count_components(
    g: &Vec<Vec<usize>>,
    nodes: &Vec<bool>,
    Ghost(rel): Ghost<spec_fn(int, int) -> bool>,
) -> (r: usize)
    requires
        lists_ok(g@, nodes.len() as int),
        forall|a: int, b: int| #[trigger] rel(a, b) == list_rel(g@, a, b),
    ensures
        r == root_count(rel, nodes@, nodes.len() as int),
        r <= nodes.len(),
{
    let n = nodes.len();
    let mut visited: Vec<bool> = Vec::new();
    let mut i: usize = 0;
    while i < n
        invariant
            i <= n,
            visited.len() == i,
            forall|k: int| 0 <= k < i ==> !#[trigger] visited@[k],
        decreases n - i,
    {
        visited.push(false);
        i = i + 1;
    }
    let mut count: usize = 0;
    let mut u: usize = 0;
    while u < n
        invariant
            n == nodes.len(),
            u <= n,
            visited.len() == n,
            lists_ok(g@, n as int),
            forall|a: int, b: int| #[trigger] rel(a, b) == list_rel(g@, a, b),
            closed_under(rel, visited@),
            forall|x: int|
                0 <= x < n ==> (#[trigger] visited@[x] <==> exists|w: int|
                    0 <= w < u && nodes@[w] && #[trigger] reachable(rel, w, x)),
            count == root_count(rel, nodes@, u as int),
            count <= u,
        decreases n - u,
    {
        let ghost vis0 = visited@;
        if nodes[u] && !visited[u] {
            proof {
                assert forall|w: int| 0 <= w < u && #[trigger] nodes@[w] implies !reachable(
                    rel,
                    w,
                    u as int,
                ) by {
                    if reachable(rel, w, u as int) {
                        assert(visited@[u as int]);
                    }
                }
                assert(is_root(rel, nodes@, u as int));
            }
            count = count + 1;
            mark_reachable(g, u, &mut visited, Ghost(rel));
            proof {
                assert forall|x: int|
                    0 <= x < n implies (#[trigger] visited@[x] <==> exists|w: int|
                        0 <= w < u + 1 && nodes@[w] && #[trigger] reachable(rel, w, x)) by {
                    if visited@[x] {
                        if !vis0[x] {
                            assert(reachable(rel, u as int, x));
                        }
                    }
                    if exists|w: int| 0 <= w < u + 1 && nodes@[w] && #[trigger] reachable(rel, w, x) {
                        let w = choose|w: int|
                            0 <= w < u + 1 && nodes@[w] && #[trigger] reachable(rel, w, x);
                        if w < u {
                            assert(vis0[x]);
                        }
                    }
                }
            }
        } else {
            proof {
                if nodes@[u as int] {
                    assert(vis0[u as int]);
                    let w = choose|w: int| 0 <= w < u && nodes@[w] && #[trigger] reachable(rel, w, u as int);
                    assert(!is_root(rel, nodes@, u as int));
                } else {
                    assert(!is_root(rel, nodes@, u as int));
                }
                assert forall|x: int|
                    0 <= x < n implies (#[trigger] visited@[x] <==> exists|w: int|
                        0 <= w < u + 1 && nodes@[w] && #[trigger] reachable(rel, w, x)) by {
                    if exists|w: int| 0 <= w < u + 1 && nodes@[w] && #[trigger] reachable(rel, w, x) {
                        let w = choose|w: int|
                            0 <= w < u + 1 && nodes@[w] && #[trigger] reachable(rel, w, x);
                        if w == u {
                            let w2 = choose|w2: int|
                                0 <= w2 < u && nodes@[w2] && #[trigger] reachable(rel, w2, u as int);
                            lemma_reach_trans(rel, w2, u as int, x);
                        }
                    }
                }
            }
        }
        u = u + 1;
    }
    count
}

} // verus!
