use vstd::prelude::*;

verus! {

/// There is an edge `a -> b` in the edge list.
pub open spec fn has_edge(edges: Seq<(int, int)>, a: int, b: int) -> bool {
    exists|e: int| 0 <= e < edges.len() && #[trigger] edges[e] == (a, b)
}

/// The direct successors of `v`, or its direct predecessors when `reversed`.
pub open spec fn adjacent(edges: Seq<(int, int)>, v: int, reversed: bool) -> Set<int> {
    Set::new(|w: int| if reversed { has_edge(edges, w, v) } else { has_edge(edges, v, w) })
}

/// `p` is a walk along edges (each step follows an edge, forwards or, when
/// `reversed`, backwards) from `a` to `b`.
pub open spec fn is_walk(edges: Seq<(int, int)>, p: Seq<int>, a: int, b: int, reversed: bool) -> bool {
    &&& p.len() >= 1
    &&& p[0] == a
    &&& p.last() == b
    &&& forall|i: int| 0 <= i < p.len() - 1 ==> adjacent(edges, #[trigger] p[i], reversed).contains(p[i + 1])
}

/// `b` can be reached from `a` by following edges (backwards when `reversed`).
pub open spec fn reaches(edges: Seq<(int, int)>, a: int, b: int, reversed: bool) -> bool {
    exists|p: Seq<int>| is_walk(edges, p, a, b, reversed)
}

/// Everything reachable from `a`, `a` included.
pub open spec fn reach_set(edges: Seq<(int, int)>, a: int, reversed: bool) -> Set<int> {
    Set::new(|b: int| reaches(edges, a, b, reversed))
}

/// `p` is a directed path from `a` to `b` with the fewest vertices.
pub open spec fn is_shortest_path(edges: Seq<(int, int)>, p: Seq<int>, a: int, b: int) -> bool {
    &&& is_walk(edges, p, a, b, false)
    &&& forall|q: Seq<int>| #[trigger] is_walk(edges, q, a, b, false) ==> p.len() <= q.len()
}

/// Every edge joins two indices below `n`.
pub open spec fn edges_in_range(edges: Seq<(int, int)>, n: nat) -> bool {
    forall|e: int| 0 <= e < edges.len() ==> 0 <= (#[trigger] edges[e]).0 < n && 0 <= edges[e].1 < n
}

/// In a graph whose edges join indices below `n`, everything reachable from
/// an index below `n` is below `n`.
pub proof fn lemma_reach_below(edges: Seq<(int, int)>, a: int, n: nat, reversed: bool)
    requires
        0 <= a < n,
        edges_in_range(edges, n),
    ensures
        reach_set(edges, a, reversed).subset_of(vstd::set_lib::set_int_range(0, n as int)),
        reach_set(edges, a, reversed).finite(),
{
    let below = vstd::set_lib::set_int_range(0, n as int);
    assert forall|x: int| below.contains(x) implies #[trigger] adjacent(edges, x, reversed).subset_of(below) by {
        assert forall|w: int| adjacent(edges, x, reversed).contains(w) implies below.contains(w) by {
            if reversed {
                let e = choose|e: int| 0 <= e < edges.len() && #[trigger] edges[e] == (w, x);
                assert(0 <= edges[e].0 < n);
            } else {
                let e = choose|e: int| 0 <= e < edges.len() && #[trigger] edges[e] == (x, w);
                assert(0 <= edges[e].1 < n);
            }
        }
    }
    lemma_closed_set_holds_reach(edges, a, below, reversed);
    vstd::set_lib::lemma_int_range(0, n as int);
    vstd::set_lib::lemma_len_subset(reach_set(edges, a, reversed), below);
}

/// A set that holds `a` and is closed under `adjacent` holds everything
/// reachable from `a`.
pub proof fn lemma_closed_set_holds_reach(edges: Seq<(int, int)>, a: int, s: Set<int>, reversed: bool)
    requires
        s.contains(a),
        forall|v: int| s.contains(v) ==> #[trigger] adjacent(edges, v, reversed).subset_of(s),
    ensures
        reach_set(edges, a, reversed).subset_of(s),
{
    assert forall|b: int| reach_set(edges, a, reversed).contains(b) implies s.contains(b) by {
        let p = choose|p: Seq<int>| is_walk(edges, p, a, b, reversed);
        lemma_walk_stays(edges, p, a, b, s, reversed);
    }
}

proof fn lemma_walk_stays(edges: Seq<(int, int)>, p: Seq<int>, a: int, b: int, s: Set<int>, reversed: bool)
    requires
        is_walk(edges, p, a, b, reversed),
        s.contains(a),
        forall|v: int| s.contains(v) ==> #[trigger] adjacent(edges, v, reversed).subset_of(s),
    ensures
        s.contains(b),
    decreases p.len(),
{
    if p.len() > 1 {
        let q = p.drop_last();
        assert(is_walk(edges, q, a, q.last(), reversed)) by {
            assert forall|i: int| 0 <= i < q.len() - 1 implies adjacent(edges, #[trigger] q[i], reversed).contains(q[i + 1]) by {
                assert(adjacent(edges, p[i], reversed).contains(p[i + 1]));
            }
        }
        lemma_walk_stays(edges, q, a, q.last(), s, reversed);
        assert(adjacent(edges, p[p.len() - 2], reversed).contains(p[p.len() - 1]));
        assert(q.last() == p[p.len() - 2]);
        assert(adjacent(edges, q.last(), reversed).subset_of(s));
    }
}

/// One more step from a reachable vertex is reachable.
pub proof fn lemma_reach_step(edges: Seq<(int, int)>, a: int, v: int, w: int, reversed: bool)
    requires
        reaches(edges, a, v, reversed),
        adjacent(edges, v, reversed).contains(w),
    ensures
        reaches(edges, a, w, reversed),
{
    let p = choose|p: Seq<int>| is_walk(edges, p, a, v, reversed);
    let q = p.push(w);
    assert forall|i: int| 0 <= i < q.len() - 1 implies adjacent(edges, #[trigger] q[i], reversed).contains(q[i + 1]) by {
        if i < p.len() - 1 {
            assert(adjacent(edges, p[i], reversed).contains(p[i + 1]));
        }
    }
    assert(is_walk(edges, q, a, w, reversed));
}

/// Every vertex reaches itself.
pub proof fn lemma_reach_self(edges: Seq<(int, int)>, a: int, reversed: bool)
    ensures
        reaches(edges, a, a, reversed),
{
    assert(is_walk(edges, seq![a], a, a, reversed));
}

/// `b` can be reached from `a` by a walk of at most `k` edges.
pub open spec fn within(edges: Seq<(int, int)>, a: int, b: int, k: int) -> bool {
    exists|p: Seq<int>| #[trigger] is_walk(edges, p, a, b, false) && p.len() <= k + 1
}

/// `x` is no farther from `a` than `y`: whatever number of edges reaches `y`
/// from `a` also reaches `x`.
pub open spec fn no_farther(edges: Seq<(int, int)>, a: int, x: int, y: int) -> bool {
    forall|k: int| #[trigger] within(edges, a, y, k) ==> within(edges, a, x, k)
}

/// A bound that holds also holds when raised.
pub proof fn lemma_within_mono(edges: Seq<(int, int)>, a: int, b: int, k: int, k2: int)
    requires
        within(edges, a, b, k),
        k <= k2,
    ensures
        within(edges, a, b, k2),
{
    let p = choose|p: Seq<int>| #[trigger] is_walk(edges, p, a, b, false) && p.len() <= k + 1;
    assert(is_walk(edges, p, a, b, false) && p.len() <= k2 + 1);
}

/// One more edge costs at most one more step.
pub proof fn lemma_within_step(edges: Seq<(int, int)>, a: int, v: int, w: int, k: int)
    requires
        within(edges, a, v, k),
        adjacent(edges, v, false).contains(w),
    ensures
        within(edges, a, w, k + 1),
{
    let p = choose|p: Seq<int>| #[trigger] is_walk(edges, p, a, v, false) && p.len() <= k + 1;
    let q = p.push(w);
    assert forall|i: int| 0 <= i < q.len() - 1 implies adjacent(edges, #[trigger] q[i], false).contains(q[i + 1]) by {
        if i < p.len() - 1 {
            assert(adjacent(edges, p[i], false).contains(p[i + 1]));
        }
    }
    assert(is_walk(edges, q, a, w, false) && q.len() <= k + 2);
}

/// Within zero steps only `a` itself is reached, and it is.
pub proof fn lemma_within_zero(edges: Seq<(int, int)>, a: int, x: int)
    ensures
        within(edges, a, a, 0),
        within(edges, a, x, 0) ==> x == a,
{
    assert(is_walk(edges, seq![a], a, a, false));
}

/// What is reached in `k + 1` steps and not in `k` is one edge past a vertex
/// reached in `k` steps.
pub proof fn lemma_within_last_step(edges: Seq<(int, int)>, a: int, x: int, k: int) -> (y: int)
    requires
        k >= 0,
        within(edges, a, x, k + 1),
        !within(edges, a, x, k),
    ensures
        within(edges, a, y, k),
        adjacent(edges, y, false).contains(x),
{
    let p = choose|p: Seq<int>| #[trigger] is_walk(edges, p, a, x, false) && p.len() <= k + 2;
    if p.len() <= k + 1 {
        assert(is_walk(edges, p, a, x, false) && p.len() <= k + 1);
    }
    let q = p.drop_last();
    assert(is_walk(edges, q, a, q.last(), false)) by {
        assert forall|i: int| 0 <= i < q.len() - 1 implies adjacent(edges, #[trigger] q[i], false).contains(q[i + 1]) by {
            assert(adjacent(edges, p[i], false).contains(p[i + 1]));
        }
    }
    assert(adjacent(edges, p[p.len() - 2], false).contains(p[p.len() - 1]));
    q.last()
}

/// The level bookkeeping of a breadth-first walk from `a`: `lvl` gives each
/// discovered vertex its distance; the visited vertices and the queue are in
/// order of distance, the queue spans at most two distances, and every
/// vertex no farther than the front of the queue has been discovered.
pub open spec fn bfs_levels(
    edges: Seq<(int, int)>,
    a: int,
    order: Seq<int>,
    q: Seq<int>,
    seen: Set<int>,
    lvl: Map<int, int>,
) -> bool {
    &&& forall|x: int| #[trigger] seen.contains(x) ==> lvl.dom().contains(x) && lvl[x] >= 0 && within(edges, a, x, lvl[x])
    &&& forall|x: int, k: int| seen.contains(x) && #[trigger] within(edges, a, x, k) ==> lvl[x] <= k
    &&& forall|i: int, j: int| 0 <= i < j < order.len() ==> lvl[#[trigger] order[i]] <= lvl[#[trigger] order[j]]
    &&& forall|i: int, j: int| 0 <= i < j < q.len() ==> lvl[#[trigger] q[i]] <= lvl[#[trigger] q[j]]
    &&& forall|i: int| 0 <= i < q.len() ==> lvl[#[trigger] q[i]] <= lvl[q[0]] + 1
    &&& q.len() > 0 ==> forall|i: int| 0 <= i < order.len() ==> lvl[#[trigger] order[i]] <= lvl[q[0]]
    &&& q.len() > 0 ==> forall|x: int, k: int| k <= lvl[q[0]] && #[trigger] within(edges, a, x, k) ==> seen.contains(x)
}

/// At the start of the walk only `a` is discovered, at distance zero.
pub proof fn lemma_bfs_levels_start(edges: Seq<(int, int)>, a: int)
    ensures
        bfs_levels(edges, a, Seq::empty(), seq![a], set![a], map![a => 0int]),
{
    lemma_within_zero(edges, a, a);
    assert forall|x: int, k: int| set![a].contains(x) && #[trigger] within(edges, a, x, k) implies map![a => 0int][x] <= k by {
        let p = choose|p: Seq<int>| #[trigger] is_walk(edges, p, a, x, false) && p.len() <= k + 1;
    }
    assert forall|x: int, k: int| k <= 0int && #[trigger] within(edges, a, x, k) implies set![a].contains(x) by {
        lemma_within_mono(edges, a, x, k, 0);
        lemma_within_zero(edges, a, x);
    }
}

/// One step of the walk keeps the bookkeeping, the newly discovered
/// vertices getting the distance of the popped vertex plus one.
pub proof fn lemma_bfs_levels_step(
    edges: Seq<(int, int)>,
    a: int,
    order: Seq<int>,
    q: Seq<int>,
    seen: Set<int>,
    lvl: Map<int, int>,
    tail: Seq<int>,
    seen2: Set<int>,
) -> (lvl2: Map<int, int>)
    requires
        bfs_levels(edges, a, order, q, seen, lvl),
        q.len() > 0,
        forall|x: int| seen.contains(x) <==> (order.contains(x) || q.contains(x)),
        forall|x: int| #[trigger] order.contains(x) ==> adjacent(edges, x, false).subset_of(seen),
        seen2 == seen.union(adjacent(edges, q[0], false)),
        tail.to_set() == adjacent(edges, q[0], false).difference(seen),
    ensures
        bfs_levels(edges, a, order.push(q[0]), q.drop_first() + tail, seen2, lvl2),
        forall|x: int| seen.contains(x) ==> lvl2[x] == lvl[x],
{
    let v = q[0];
    let lv = lvl[v];
    let succ = adjacent(edges, v, false);
    let lvl2 = Map::new(|x: int| seen2.contains(x), |x: int| if seen.contains(x) { lvl[x] } else { lv + 1 });
    let order2 = order.push(v);
    let q2 = q.drop_first() + tail;
    assert(seen.contains(v)) by { assert(q.contains(v)); }
    assert forall|j: int| 0 <= j < tail.len() implies #[trigger] lvl2[tail[j]] == lv + 1 && seen2.contains(tail[j]) by {
        assert(tail.to_set().contains(tail[j]));
    }
    assert forall|x: int| #[trigger] seen2.contains(x) implies lvl2.dom().contains(x) && lvl2[x] >= 0 && within(edges, a, x, lvl2[x]) by {
        if !seen.contains(x) {
            lemma_within_step(edges, a, v, x, lv);
        }
    }
    assert forall|x: int, k: int| seen2.contains(x) && #[trigger] within(edges, a, x, k) implies lvl2[x] <= k by {
        if !seen.contains(x) && k <= lv {
        }
    }
    assert forall|i: int, j: int| 0 <= i < j < order2.len() implies lvl2[#[trigger] order2[i]] <= lvl2[#[trigger] order2[j]] by {
        assert(seen.contains(order2[i])) by { assert(order.contains(order[i])); }
        if j < order.len() {
            assert(seen.contains(order2[j])) by { assert(order.contains(order[j])); }
        }
    }
    assert forall|i: int| 0 <= i < q2.len() && seen.contains(#[trigger] q2[i]) implies i < q.len() - 1 by {
        if i >= q.len() - 1 {
            assert(tail[i - (q.len() - 1)] == q2[i]);
            assert(tail.to_set().contains(q2[i]));
        }
    }
    assert forall|i: int| 0 <= i < q2.len() implies (i < q.len() - 1 ==> #[trigger] q2[i] == q[i + 1] && seen.contains(q2[i]) && lvl2[q2[i]] == lvl[q[i + 1]] && lv <= lvl[q[i + 1]] && lvl[q[i + 1]] <= lv + 1)
        && (i >= q.len() - 1 ==> lvl2[q2[i]] == lv + 1) by {
        if i < q.len() - 1 {
            assert(q.contains(q[i + 1]));
        } else {
            assert(tail[i - (q.len() - 1)] == q2[i]);
        }
    }
    assert forall|i: int, j: int| 0 <= i < j < q2.len() implies lvl2[#[trigger] q2[i]] <= lvl2[#[trigger] q2[j]] by {
        if j < q.len() - 1 {
            assert(lvl[q[i + 1]] <= lvl[q[j + 1]]);
        }
    }
    if q2.len() > 0 {
        assert(lv <= lvl2[q2[0]] && lvl2[q2[0]] <= lv + 1);
        assert forall|i: int| 0 <= i < order2.len() implies lvl2[#[trigger] order2[i]] <= lvl2[q2[0]] by {
            if i < order.len() {
                assert(seen.contains(order2[i])) by { assert(order.contains(order[i])); }
            }
        }
        assert forall|x: int, k: int| k <= lvl2[q2[0]] && #[trigger] within(edges, a, x, k) implies seen2.contains(x) by {
            if k > lv && !within(edges, a, x, lv) {
                lemma_within_mono(edges, a, x, k, lv + 1);
                let y = lemma_within_last_step(edges, a, x, lv);
                assert(seen.contains(y));
                if order.contains(y) {
                    assert(adjacent(edges, y, false).subset_of(seen));
                } else if y != v {
                    assert(q.contains(y));
                    let m = choose|m: int| 0 <= m < q.len() && q[m] == y;
                    assert(m > 0);
                    assert(q2[m - 1] == y);
                    assert(lvl[q[1]] <= lvl[q[m]]);
                    assert(q2[0] == q[1]);
                }
            } else if k > lv {
            }
        }
    }
    lvl2
}

/// When the queue is empty, the visited vertices come in order of distance.
pub proof fn lemma_bfs_levels_done(edges: Seq<(int, int)>, a: int, order: Seq<int>, seen: Set<int>, lvl: Map<int, int>)
    requires
        bfs_levels(edges, a, order, Seq::empty(), seen, lvl),
        forall|i: int| 0 <= i < order.len() ==> seen.contains(#[trigger] order[i]),
    ensures
        forall|i: int, j: int| 0 <= i < j < order.len() ==> no_farther(edges, a, #[trigger] order[i], #[trigger] order[j]),
{
    assert forall|i: int, j: int| 0 <= i < j < order.len() implies no_farther(edges, a, #[trigger] order[i], #[trigger] order[j]) by {
        assert forall|k: int| #[trigger] within(edges, a, order[j], k) implies within(edges, a, order[i], k) by {
            assert(seen.contains(order[i]));
            assert(seen.contains(order[j]));
            assert(lvl[order[i]] <= lvl[order[j]]);
            lemma_within_mono(edges, a, order[i], lvl[order[i]], k);
        }
    }
}

/// Every edge leads to a higher index, and no two edges share a target: the
/// shape of a tree numbered in pre-order.
pub open spec fn forward_tree(edges: Seq<(int, int)>) -> bool {
    &&& forall|e: int| 0 <= e < edges.len() ==> (#[trigger] edges[e]).0 < edges[e].1
    &&& forall|e1: int, e2: int| 0 <= e1 < edges.len() && 0 <= e2 < edges.len() && (#[trigger] edges[e1]).1 == (#[trigger] edges[e2]).1 ==> e1 == e2
}

proof fn lemma_walk_rises(edges: Seq<(int, int)>, p: Seq<int>, a: int, b: int)
    requires
        forward_tree(edges),
        is_walk(edges, p, a, b, false),
        p.len() > 1,
    ensures
        a < b,
    decreases p.len(),
{
    let q = p.drop_last();
    assert(adjacent(edges, p[p.len() - 2], false).contains(p[p.len() - 1]));
    let e = choose|e: int| 0 <= e < edges.len() && #[trigger] edges[e] == (p[p.len() - 2], b);
    assert(edges[e].0 < edges[e].1);
    if q.len() > 1 {
        assert(is_walk(edges, q, a, q.last(), false)) by {
            assert forall|i: int| 0 <= i < q.len() - 1 implies adjacent(edges, #[trigger] q[i], false).contains(q[i + 1]) by {
                assert(adjacent(edges, p[i], false).contains(p[i + 1]));
            }
        }
        lemma_walk_rises(edges, q, a, q.last());
    }
}

/// In a graph of tree shape there is at most one walk between two vertices.
pub proof fn lemma_walk_unique(edges: Seq<(int, int)>, p: Seq<int>, q: Seq<int>, a: int, b: int)
    requires
        forward_tree(edges),
        is_walk(edges, p, a, b, false),
        is_walk(edges, q, a, b, false),
    ensures
        p == q,
    decreases p.len() + q.len(),
{
    if p.len() == 1 && q.len() > 1 {
        lemma_walk_rises(edges, q, a, b);
    } else if q.len() == 1 && p.len() > 1 {
        lemma_walk_rises(edges, p, a, b);
    } else if p.len() == 1 && q.len() == 1 {
        assert(p =~= q);
    } else {
        assert(adjacent(edges, p[p.len() - 2], false).contains(b));
        assert(adjacent(edges, q[q.len() - 2], false).contains(b));
        let e1 = choose|e: int| 0 <= e < edges.len() && #[trigger] edges[e] == (p[p.len() - 2], b);
        let e2 = choose|e: int| 0 <= e < edges.len() && #[trigger] edges[e] == (q[q.len() - 2], b);
        assert(edges[e1].1 == edges[e2].1);
        let y = p[p.len() - 2];
        let p_head = p.drop_last();
        let q_head = q.drop_last();
        assert(is_walk(edges, p_head, a, y, false)) by {
            assert forall|i: int| 0 <= i < p_head.len() - 1 implies adjacent(edges, #[trigger] p_head[i], false).contains(p_head[i + 1]) by {
                assert(adjacent(edges, p[i], false).contains(p[i + 1]));
            }
        }
        assert(is_walk(edges, q_head, a, y, false)) by {
            assert forall|i: int| 0 <= i < q_head.len() - 1 implies adjacent(edges, #[trigger] q_head[i], false).contains(q_head[i + 1]) by {
                assert(adjacent(edges, q[i], false).contains(q[i + 1]));
            }
        }
        lemma_walk_unique(edges, p_head, q_head, a, y);
        assert(p =~= p_head.push(b));
        assert(q =~= q_head.push(b));
    }
}

/// The `i`-th vertex of `order` has a neighbour that does not occur among
/// the first `i + 1`.
pub open spec fn has_fresh(edges: Seq<(int, int)>, order: Seq<int>, i: int, reversed: bool) -> bool {
    exists|w: int| #[trigger] adjacent(edges, order[i], reversed).contains(w) && !order.subrange(0, i + 1).contains(w)
}

/// Depth-first order: whenever a visited vertex still has a neighbour not
/// yet visited, the next vertex visited is one of its neighbours.
pub open spec fn dfs_deepens(edges: Seq<(int, int)>, order: Seq<int>, reversed: bool) -> bool {
    forall|i: int| 0 <= i < order.len() - 1 && #[trigger] has_fresh(edges, order, i, reversed)
        ==> adjacent(edges, order[i], reversed).contains(order[i + 1])
}

} // verus!
