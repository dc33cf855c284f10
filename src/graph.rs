//! The subscription graph as a mathematical object: actor `a` has an edge to
//! actor `b` when `b` is one of `a`'s subscribers.
use vstd::prelude::*;
use vstd::set_lib::{lemma_int_range, lemma_len_subset, set_int_range};

verus! {

/// `b` is a subscriber of `a`.
pub open spec fn edge(g: Seq<Seq<usize>>, a: usize, b: usize) -> bool {
    a < g.len() && g[a as int].contains(b)
}

/// Subscriber lists hold known ids, each at most once.
pub open spec fn graph_wf(g: Seq<Seq<usize>>) -> bool {
    forall|a: int|
        0 <= a < g.len() ==> {
            &&& (#[trigger] g[a]).no_duplicates()
            &&& forall|j: int| 0 <= j < g[a].len() ==> g[a][j] < g.len()
        }
}

/// `p` is a walk of one or more actors along edges.
pub open spec fn is_path(g: Seq<Seq<usize>>, p: Seq<usize>) -> bool {
    &&& p.len() >= 1
    &&& forall|i: int| 0 <= i < p.len() ==> #[trigger] p[i] < g.len()
    &&& forall|i: int| 0 <= i < p.len() - 1 ==> #[trigger] edge(g, p[i], p[i + 1])
}

/// `b` can be reached from `a` in zero or more steps.
pub open spec fn reachable(g: Seq<Seq<usize>>, a: usize, b: usize) -> bool {
    exists|p: Seq<usize>| #[trigger] is_path(g, p) && p[0] == a && p.last() == b
}

/// No actor can be reached again from one of its own subscribers.
pub open spec fn acyclic(g: Seq<Seq<usize>>) -> bool {
    forall|a: usize, b: usize| #[trigger] edge(g, a, b) ==> !reachable(g, b, a)
}

/// Some cycle of the graph can be reached from `s`.
pub open spec fn cycle_from(g: Seq<Seq<usize>>, s: usize) -> bool {
    exists|u: usize, w: usize| reachable(g, s, u) && #[trigger] edge(g, u, w) && reachable(g, w, u)
}

pub proof fn lemma_reachable_refl(g: Seq<Seq<usize>>, a: usize)
    requires
        a < g.len(),
    ensures
        reachable(g, a, a),
{
    let p = seq![a];
    assert(is_path(g, p));
}

pub proof fn lemma_reachable_step(g: Seq<Seq<usize>>, a: usize, b: usize, c: usize)
    requires
        reachable(g, a, b),
        edge(g, b, c),
        c < g.len(),
    ensures
        reachable(g, a, c),
{
    let p = choose|p: Seq<usize>| #[trigger] is_path(g, p) && p[0] == a && p.last() == b;
    let q = p.push(c);
    assert forall|i: int| 0 <= i < q.len() - 1 implies #[trigger] edge(g, q[i], q[i + 1]) by {
        if i < p.len() - 1 {
            assert(edge(g, p[i], p[i + 1]));
        }
    }
    assert(is_path(g, q));
}

pub proof fn lemma_reachable_trans(g: Seq<Seq<usize>>, a: usize, b: usize, c: usize)
    requires
        reachable(g, a, b),
        reachable(g, b, c),
    ensures
        reachable(g, a, c),
{
    let p = choose|p: Seq<usize>| #[trigger] is_path(g, p) && p[0] == a && p.last() == b;
    let q = choose|q: Seq<usize>| #[trigger] is_path(g, q) && q[0] == b && q.last() == c;
    let r = p + q.skip(1);
    assert forall|i: int| 0 <= i < r.len() implies #[trigger] r[i] < g.len() by {
        if i < p.len() {
            assert(p[i] < g.len());
        } else {
            assert(r[i] == q[i - p.len() + 1]);
        }
    }
    assert forall|i: int| 0 <= i < r.len() - 1 implies #[trigger] edge(g, r[i], r[i + 1]) by {
        if i < p.len() - 1 {
            assert(edge(g, p[i], p[i + 1]));
        } else {
            let k = i - p.len() + 1;
            assert(edge(g, q[k], q[k + 1]));
        }
    }
    assert(is_path(g, r));
}

/// A walk from `a` to another actor leaves `a` through one of its subscribers.
pub proof fn lemma_reachable_first(g: Seq<Seq<usize>>, a: usize, c: usize) -> (w: usize)
    requires
        reachable(g, a, c),
        a != c,
    ensures
        edge(g, a, w),
        reachable(g, w, c),
{
    let p = choose|p: Seq<usize>| #[trigger] is_path(g, p) && p[0] == a && p.last() == c;
    let q = p.skip(1);
    let z: int = 0;
    assert(edge(g, p[z], p[z + 1]));
    assert forall|i: int| 0 <= i < q.len() - 1 implies #[trigger] edge(g, q[i], q[i + 1]) by {
        let j = i + 1;
        assert(edge(g, p[j], p[j + 1]));
    }
    assert forall|i: int| 0 <= i < q.len() implies #[trigger] q[i] < g.len() by {
        assert(p[i + 1] < g.len());
    }
    assert(is_path(g, q));
    p[1]
}

/// A set of actors that holds `a` and is closed under edges holds every actor
/// that can be reached from `a`.
pub proof fn lemma_closed_holds_reachable(g: Seq<Seq<usize>>, marked: Seq<bool>, a: usize, b: usize)
    requires
        marked.len() == g.len(),
        a < g.len(),
        marked[a as int],
        forall|u: usize, w: usize|
            u < g.len() && marked[u as int] && #[trigger] edge(g, u, w) ==> w < g.len()
                && marked[w as int],
        reachable(g, a, b),
    ensures
        marked[b as int],
{
    let p = choose|p: Seq<usize>| #[trigger] is_path(g, p) && p[0] == a && p.last() == b;
    lemma_closed_holds_path(g, marked, p, p.len() - 1);
}

proof fn lemma_closed_holds_path(g: Seq<Seq<usize>>, marked: Seq<bool>, p: Seq<usize>, k: int)
    requires
        marked.len() == g.len(),
        is_path(g, p),
        marked[p[0] as int],
        forall|u: usize, w: usize|
            u < g.len() && marked[u as int] && #[trigger] edge(g, u, w) ==> w < g.len()
                && marked[w as int],
        0 <= k < p.len(),
    ensures
        marked[p[k] as int],
    decreases k,
{
    if k > 0 {
        let j = k - 1;
        lemma_closed_holds_path(g, marked, p, j);
        assert(edge(g, p[j], p[j + 1]));
        assert(p[j] < g.len());
    }
}

/// Adding an actor with no subscribers keeps the graph sound and without
/// cycles.
pub proof fn lemma_graph_extended(g0: Seq<Seq<usize>>, g1: Seq<Seq<usize>>)
    requires
        graph_wf(g0),
        acyclic(g0),
        g1 == g0.push(Seq::<usize>::empty()),
    ensures
        graph_wf(g1),
        acyclic(g1),
{
    assert forall|a: usize, b: usize| #[trigger] edge(g1, a, b) implies !reachable(g1, b, a) by {
        assert(edge(g0, a, b));
        if reachable(g1, b, a) {
            let p = choose|p: Seq<usize>| #[trigger] is_path(g1, p) && p[0] == b && p.last() == a;
            assert forall|i: int| 0 <= i < p.len() - 1 implies #[trigger] edge(g0, p[i], p[i + 1]) by {
                assert(edge(g1, p[i], p[i + 1]));
            }
            assert forall|i: int| 0 <= i < p.len() implies #[trigger] p[i] < g0.len() by {
                if i < p.len() - 1 {
                    assert(edge(g1, p[i], p[i + 1]));
                } else if i > 0 {
                    let j = i - 1;
                    assert(edge(g1, p[j], p[j + 1]));
                } else {
                    assert(p[i] == b);
                }
            }
            assert(is_path(g0, p));
        }
    }
}

/// `g` with `s` added last to the subscribers of `t`.
pub open spec fn with_edge(g: Seq<Seq<usize>>, t: usize, s: usize) -> Seq<Seq<usize>> {
    g.update(t as int, g[t as int].push(s))
}

/// A walk in `with_edge(g, t, s)` either is a walk of `g` or passes from `t`
/// to `s`.
proof fn lemma_walk_split(g: Seq<Seq<usize>>, t: usize, s: usize, p: Seq<usize>, k: int)
    requires
        t < g.len(),
        s < g.len(),
        is_path(with_edge(g, t, s), p),
        0 <= k < p.len(),
    ensures
        reachable(with_edge(g, t, s), p[0], p[k]),
        reachable(g, p[0], p[k]) || (reachable(with_edge(g, t, s), p[0], t) && reachable(
            with_edge(g, t, s),
            s,
            p[k],
        )),
    decreases k,
{
    let g2 = with_edge(g, t, s);
    let z: int = 0;
    assert(p[z] < g.len());
    if k == 0 {
        lemma_reachable_refl(g2, p[0]);
        lemma_reachable_refl(g, p[0]);
    } else {
        let j = k - 1;
        lemma_walk_split(g, t, s, p, j);
        assert(edge(g2, p[j], p[j + 1]));
        assert(p[k] < g.len());
        lemma_reachable_step(g2, p[0], p[j], p[k]);
        if p[j] == t && p[k] == s {
            lemma_reachable_refl(g2, s);
        } else {
            assert(edge(g, p[j], p[k])) by {
                if p[j] == t {
                    let i = choose|i: int| 0 <= i < g2[t as int].len() && g2[t as int][i] == p[k];
                    assert(g[t as int][i] == p[k]);
                }
            }
            if reachable(g, p[0], p[j]) {
                lemma_reachable_step(g, p[0], p[j], p[k]);
            } else {
                lemma_reachable_step(g2, s, p[j], p[k]);
            }
        }
    }
}

/// Adding the edge `t -> s` keeps the graph sound and without cycles when no
/// cycle can be reached from `t` in the new graph.
pub proof fn lemma_edge_keeps_acyclic(g: Seq<Seq<usize>>, t: usize, s: usize)
    requires
        graph_wf(g),
        acyclic(g),
        t < g.len(),
        s < g.len(),
        !g[t as int].contains(s),
        !cycle_from(with_edge(g, t, s), t),
    ensures
        graph_wf(with_edge(g, t, s)),
        acyclic(with_edge(g, t, s)),
{
    let g2 = with_edge(g, t, s);
    assert forall|a: int| 0 <= a < g2.len() implies {
        &&& (#[trigger] g2[a]).no_duplicates()
        &&& forall|j: int| 0 <= j < g2[a].len() ==> g2[a][j] < g2.len()
    } by {
        if a == t {
            assert(g[a].no_duplicates());
            assert forall|i: int, j: int| 0 <= i < j < g2[a].len() implies g2[a][i] != g2[a][j] by {
                if j == g2[a].len() - 1 {
                    assert(g2[a][i] == g[a][i]);
                }
            }
            assert forall|j: int| 0 <= j < g2[a].len() implies g2[a][j] < g2.len() by {
                if j < g[a].len() {
                    assert(g2[a][j] == g[a][j]);
                }
            }
        }
    }
    assert forall|a: usize, b: usize| #[trigger] edge(g2, a, b) implies !reachable(g2, b, a) by {
        if reachable(g2, b, a) {
            // the walk from s back to t that closes a cycle through the new edge
            assert(reachable(g2, s, t)) by {
                if a == t && b == s {
                } else {
                    assert(edge(g, a, b)) by {
                        if a == t {
                            let i = choose|i: int| 0 <= i < g2[t as int].len() && g2[t as int][i] == b;
                            assert(g[t as int][i] == b);
                        }
                    }
                    let p = choose|p: Seq<usize>| #[trigger] is_path(g2, p) && p[0] == b && p.last() == a;
                    lemma_walk_split(g, t, s, p, p.len() - 1);
                    if reachable(g, b, a) {
                        assert(!reachable(g, b, a));
                    }
                    assert(b < g.len());
                    lemma_reachable_step(g2, s, a, b);
                    lemma_reachable_trans(g2, s, b, t);
                }
            }
            assert(g2[t as int].last() == s);
            assert(edge(g2, t, s));
            lemma_reachable_refl(g2, t);
            assert(cycle_from(g2, t));
        }
    }
}

/// Any stretch of a walk is a walk.
pub proof fn lemma_path_reach(g: Seq<Seq<usize>>, p: Seq<usize>, i: int, j: int)
    requires
        is_path(g, p),
        0 <= i <= j < p.len(),
    ensures
        reachable(g, p[i], p[j]),
{
    let q = p.subrange(i, j + 1);
    assert forall|k: int| 0 <= k < q.len() - 1 implies #[trigger] edge(g, q[k], q[k + 1]) by {
        let m = i + k;
        assert(edge(g, p[m], p[m + 1]));
    }
    assert forall|k: int| 0 <= k < q.len() implies #[trigger] q[k] < g.len() by {
        assert(p[i + k] < g.len());
    }
    assert(is_path(g, q));
    assert(q[0] == p[i] && q.last() == p[j]);
}

/// A walk extended by one edge is a walk.
pub proof fn lemma_path_push(g: Seq<Seq<usize>>, p: Seq<usize>, w: usize)
    requires
        is_path(g, p),
        edge(g, p.last(), w),
        w < g.len(),
    ensures
        is_path(g, p.push(w)),
{
    let q = p.push(w);
    assert forall|k: int| 0 <= k < q.len() - 1 implies #[trigger] edge(g, q[k], q[k + 1]) by {
        if k < p.len() - 1 {
            assert(edge(g, p[k], p[k + 1]));
        }
    }
    assert forall|k: int| 0 <= k < q.len() implies #[trigger] q[k] < g.len() by {
        if k < p.len() {
            assert(p[k] < g.len());
        }
    }
}

/// When no cycle can be reached from any subscriber of `u`, none can be
/// reached from `u`.
pub proof fn lemma_no_cycle_below(g: Seq<Seq<usize>>, u: usize)
    requires
        forall|w: usize| #[trigger] edge(g, u, w) ==> !cycle_from(g, w),
    ensures
        !cycle_from(g, u),
{
    if cycle_from(g, u) {
        let (x, y) = choose|x: usize, y: usize| reachable(g, u, x) && #[trigger] edge(g, x, y) && reachable(g, y, x);
        if x == u {
            assert(!cycle_from(g, y));
        } else {
            let w = lemma_reachable_first(g, u, x);
            assert(!cycle_from(g, w));
        }
    }
}

/// More than `n` entries below `n` hold a repeated value.
pub proof fn lemma_repeat(p: Seq<usize>, n: nat) -> (ij: (int, int))
    requires
        p.len() > n,
        forall|i: int| 0 <= i < p.len() ==> #[trigger] p[i] < n,
    ensures
        0 <= ij.0 < ij.1 < p.len(),
        p[ij.0] == p[ij.1],
{
    let q = p.map_values(|x: usize| x as int);
    if q.no_duplicates() {
        q.unique_seq_to_set();
        lemma_int_range(0, n as int);
        assert forall|x: int| #[trigger] q.to_set().contains(x) implies set_int_range(0, n as int).contains(x) by {
            let i = choose|i: int| 0 <= i < q.len() && q[i] == x;
            assert(p[i] < n);
        }
        lemma_len_subset(q.to_set(), set_int_range(0, n as int));
        assert(false);
    }
    let (i, j) = choose|i: int, j: int| 0 <= i < q.len() && 0 <= j < q.len() && i != j && q[i] == q[j];
    if i < j {
        (i, j)
    } else {
        (j, i)
    }
}

/// A walk that is not longer than the number of actors.
pub proof fn lemma_path_short(g: Seq<Seq<usize>>, p: Seq<usize>)
    requires
        acyclic(g),
        is_path(g, p),
    ensures
        p.len() <= g.len(),
{
    if p.len() > g.len() {
        let (i, j) = lemma_repeat(p, g.len());
        assert(edge(g, p[i], p[i + 1]));
        lemma_path_reach(g, p, i + 1, j);
    }
}

/// Two walks joined by an edge make a walk.
pub proof fn lemma_path_concat(g: Seq<Seq<usize>>, p: Seq<usize>, q: Seq<usize>)
    requires
        is_path(g, p),
        is_path(g, q),
        edge(g, p.last(), q[0]),
    ensures
        is_path(g, p + q),
{
    let r = p + q;
    assert forall|k: int| 0 <= k < r.len() - 1 implies #[trigger] edge(g, r[k], r[k + 1]) by {
        if k < p.len() - 1 {
            assert(edge(g, p[k], p[k + 1]));
        } else if k >= p.len() {
            let i = k - p.len();
            assert(edge(g, q[i], q[i + 1]));
        }
    }
    assert forall|k: int| 0 <= k < r.len() implies #[trigger] r[k] < g.len() by {
        if k < p.len() {
            assert(p[k] < g.len());
        } else {
            assert(q[k - p.len()] < g.len());
        }
    }
}

/// Every walk from `a` to `x` is the same walk.
pub open spec fn one_path(g: Seq<Seq<usize>>, a: usize, x: usize) -> bool {
    forall|p: Seq<usize>, q: Seq<usize>|
        #[trigger] is_path(g, p) && #[trigger] is_path(g, q) && p[0] == a && q[0] == a && p.last() == x
            && q.last() == x ==> p == q
}

/// Without cycles, two actors that reach each other are one actor.
pub proof fn lemma_no_return(g: Seq<Seq<usize>>, a: usize, b: usize)
    requires
        acyclic(g),
        reachable(g, a, b),
        reachable(g, b, a),
    ensures
        a == b,
{
    if a != b {
        let w = lemma_reachable_first(g, a, b);
        lemma_reachable_trans(g, w, b, a);
    }
}

/// Without cycles, the only walk from `t` back to `t` is `t` itself.
pub proof fn lemma_only_itself(g: Seq<Seq<usize>>, t: usize, p: Seq<usize>)
    requires
        acyclic(g),
        is_path(g, p),
        p[0] == t,
        p.last() == t,
    ensures
        p == seq![t],
{
    if p.len() > 1 {
        let z: int = 0;
        assert(edge(g, p[z], p[z + 1]));
        lemma_path_reach(g, p, 1, p.len() - 1);
    }
    assert(p =~= seq![t]);
}

/// Without cycles, when `s` is a subscriber of `t` and no other subscriber of
/// `t` leads to `s`, the only walk from `t` to `s` is the edge between them.
pub proof fn lemma_only_direct(g: Seq<Seq<usize>>, t: usize, s: usize, p: Seq<usize>)
    requires
        acyclic(g),
        edge(g, t, s),
        forall|c: usize| #[trigger] edge(g, t, c) && c != s ==> !reachable(g, c, s),
        is_path(g, p),
        p[0] == t,
        p.last() == s,
    ensures
        p == seq![t, s],
{
    if p.len() == 1 {
        lemma_reachable_refl(g, t);
        assert(s < g.len());
    }
    let z: int = 0;
    assert(edge(g, p[z], p[z + 1]));
    lemma_path_reach(g, p, 1, p.len() - 1);
    assert(p[1] == s);
    if p.len() > 2 {
        let o: int = 1;
        assert(edge(g, p[o], p[o + 1]));
        lemma_path_reach(g, p, 2, p.len() - 1);
    }
    assert(p =~= seq![t, s]);
}

} // verus!
