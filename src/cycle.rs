//! The cycle guards: three walks over the subscription graph, starting from one
//! actor.
use std::collections::VecDeque;
use vstd::prelude::*;
use vstd::set_lib::{lemma_int_range, lemma_len_subset, set_int_range};
use crate::errors::ActorError;
use crate::graph::{
    cycle_from, edge, graph_wf, is_path, lemma_closed_holds_reachable, lemma_no_cycle_below,
    lemma_path_push, lemma_path_reach, lemma_repeat, lemma_reachable_refl, lemma_reachable_step, reachable,
};
use crate::pool::{ActorPool, graph_of};

verus! {

/// `n` entries, all `false`.
fn all_false(n: usize) -> (r: Vec<bool>)
    ensures
        r@ == Seq::new(n as nat, |i: int| false),
{
    let mut r: Vec<bool> = Vec::new();
    let mut i: usize = 0;
    while i < n
        invariant
            i <= n,
            r@ == Seq::new(i as nat, |k: int| false),
        decreases n - i,
    {
        r.push(false);
        i = i + 1;
    }
    r
}

/// `n` entries, all zero.
fn all_zero(n: usize) -> (r: Vec<usize>)
    ensures
        r@ == Seq::new(n as nat, |i: int| 0usize),
{
    let mut r: Vec<usize> = Vec::new();
    let mut i: usize = 0;
    while i < n
        invariant
            i <= n,
            r@ == Seq::new(i as nat, |k: int| 0usize),
        decreases n - i,
    {
        r.push(0);
        i = i + 1;
    }
    r
}

/// The marks of the depth-first walk: not yet met, on the current path, done.
#[derive(PartialEq, Eq, Structural, Clone, Copy)]
enum Color {
    White,
    Gray,
    Black,
}

/// The positions not yet met.
spec fn whites(c: Seq<Color>) -> Set<int> {
    Set::new(|i: int| 0 <= i < c.len() && c[i] == Color::White)
}

/// `n` entries, all white.
fn all_white(n: usize) -> (r: Vec<Color>)
    ensures
        r@ == Seq::new(n as nat, |i: int| Color::White),
{
    let mut r: Vec<Color> = Vec::new();
    let mut i: usize = 0;
    while i < n
        invariant
            i <= n,
            r@ == Seq::new(i as nat, |k: int| Color::White),
        decreases n - i,
    {
        r.push(Color::White);
        i = i + 1;
    }
    r
}

/// How many of the first `k` actors are alive and have `v` as a subscriber.
spec fn live_preds(g: Seq<Seq<usize>>, alive: Seq<bool>, v: usize, k: nat) -> nat
    decreases k,
{
    if k == 0 {
        0
    } else {
        live_preds(g, alive, v, (k - 1) as nat) + if alive[k - 1] && edge(g, (k - 1) as usize, v) {
            1nat
        } else {
            0nat
        }
    }
}

proof fn lemma_live_preds_bound(g: Seq<Seq<usize>>, alive: Seq<bool>, v: usize, k: nat)
    ensures
        live_preds(g, alive, v, k) <= k,
    decreases k,
{
    if k > 0 {
        lemma_live_preds_bound(g, alive, v, (k - 1) as nat);
    }
}

/// Killing `x` takes it out of the count of each actor it points to.
proof fn lemma_live_preds_kill(g: Seq<Seq<usize>>, alive: Seq<bool>, x: usize, v: usize, k: nat)
    requires
        x < alive.len(),
        alive[x as int],
        k <= usize::MAX,
        k <= alive.len(),
    ensures
        live_preds(g, alive.update(x as int, false), v, k) + (if x < k && edge(g, x, v) {
            1nat
        } else {
            0nat
        }) == live_preds(g, alive, v, k),
    decreases k,
{
    if k > 0 {
        lemma_live_preds_kill(g, alive, x, v, (k - 1) as nat);
        let i = k - 1;
        if i != x {
            assert(alive.update(x as int, false)[i] == alive[i]);
        }
    }
}

/// A positive count has a witness.
proof fn lemma_live_preds_witness(g: Seq<Seq<usize>>, alive: Seq<bool>, v: usize, k: nat) -> (u: usize)
    requires
        live_preds(g, alive, v, k) > 0,
        k <= usize::MAX,
    ensures
        u < k,
        alive[u as int],
        edge(g, u, v),
    decreases k,
{
    if live_preds(g, alive, v, (k - 1) as nat) > 0 {
        lemma_live_preds_witness(g, alive, v, (k - 1) as nat)
    } else {
        (k - 1) as usize
    }
}

/// A zero count has no live predecessor below `k`.
proof fn lemma_live_preds_none(g: Seq<Seq<usize>>, alive: Seq<bool>, v: usize, k: nat, u: usize)
    requires
        live_preds(g, alive, v, k) == 0,
        k <= usize::MAX,
        u < k,
        alive[u as int],
    ensures
        !edge(g, u, v),
    decreases k,
{
    if u < k - 1 {
        lemma_live_preds_none(g, alive, v, (k - 1) as nat, u);
    }
}

/// When every live actor has a live predecessor, walking backwards from a live
/// actor never stops.
proof fn lemma_back_chain(g: Seq<Seq<usize>>, alive: Seq<bool>, v: usize, len: nat) -> (c: Seq<usize>)
    requires
        alive.len() == g.len(),
        v < g.len(),
        alive[v as int],
        forall|u: usize|
            u < g.len() && #[trigger] alive[u as int] ==> exists|w: usize|
                w < g.len() && alive[w as int] && #[trigger] edge(g, w, u),
    ensures
        c.len() == len + 1,
        c[0] == v,
        forall|k: int| 0 <= k < c.len() ==> #[trigger] c[k] < g.len() && alive[c[k] as int],
        forall|k: int| 0 <= k < len ==> #[trigger] edge(g, c[k + 1], c[k]),
    decreases len,
{
    if len == 0 {
        seq![v]
    } else {
        let c = lemma_back_chain(g, alive, v, (len - 1) as nat);
        let u = c[len - 1];
        assert(u < g.len() && alive[u as int]);
        let w = choose|w: usize| w < g.len() && alive[w as int] && #[trigger] edge(g, w, u);
        let d = c.push(w);
        assert forall|k: int| 0 <= k < len implies #[trigger] edge(g, d[k + 1], d[k]) by {
            if k < len - 1 {
                assert(edge(g, c[k + 1], c[k]));
            }
        }
        d
    }
}

/// Times that grow along every edge between reachable actors do not decrease
/// along a walk from a reachable actor.
proof fn lemma_times_along(g: Seq<Seq<usize>>, marks: Seq<bool>, time: Seq<int>, p: Seq<usize>, k: int)
    requires
        is_path(g, p),
        0 <= k < p.len(),
        marks.len() == g.len(),
        marks[p[0] as int],
        forall|u: usize, w: usize|
            u < g.len() && marks[u as int] && #[trigger] edge(g, u, w) ==> marks[w as int]
                && time[u as int] < time[w as int],
    ensures
        marks[p[k] as int],
        time[p[0] as int] <= time[p[k] as int],
    decreases k,
{
    if k > 0 {
        let j = k - 1;
        lemma_times_along(g, marks, time, p, j);
        assert(edge(g, p[j], p[j + 1]));
        assert(p[j] < g.len());
    }
}

/// When every live actor is reachable, has a positive count and is not done,
/// and some reachable actor still has a positive count, a cycle can be
/// reached.
proof fn lemma_kahn_left_over(
    g: Seq<Seq<usize>>,
    marks: Seq<bool>,
    alive: Seq<bool>,
    enq: Seq<bool>,
    deg: Seq<usize>,
    s: usize,
    v: usize,
)
    requires
        marks.len() == g.len(),
        alive.len() == g.len(),
        enq.len() == g.len(),
        deg.len() == g.len(),
        g.len() <= usize::MAX,
        forall|x: usize| x < g.len() ==> (#[trigger] marks[x as int] <==> reachable(g, s, x)),
        forall|x: usize|
            x < g.len() && marks[x as int] ==> #[trigger] deg[x as int] == live_preds(g, alive, x, g.len()),
        forall|x: usize| x < g.len() && #[trigger] alive[x as int] ==> marks[x as int],
        forall|x: usize| x < g.len() && #[trigger] enq[x as int] ==> !alive[x as int] && deg[x as int] == 0,
        forall|x: usize| x < g.len() && marks[x as int] && !#[trigger] alive[x as int] ==> enq[x as int],
        forall|x: usize| x < g.len() && marks[x as int] && !#[trigger] enq[x as int] ==> deg[x as int] > 0,
        v < g.len(),
        marks[v as int],
        deg[v as int] != 0,
    ensures
        cycle_from(g, s),
{
    let n = g.len();
    assert forall|y: usize| y < n && #[trigger] alive[y as int] implies exists|w: usize|
        w < n && alive[w as int] && #[trigger] edge(g, w, y) by {
        assert(!enq[y as int]);
        let w = lemma_live_preds_witness(g, alive, y, n as nat);
    }
    assert(alive[v as int]);
    let c = lemma_back_chain(g, alive, v, n as nat);
    let (i, j) = lemma_repeat(c, n as nat);
    let back = Seq::new((j - i) as nat, |k: int| c[j - k]);
    assert forall|k: int| 0 <= k < back.len() - 1 implies #[trigger] edge(g, back[k], back[k + 1]) by {
        let m = j - k - 1;
        assert(edge(g, c[m + 1], c[m]));
    }
    assert forall|k: int| 0 <= k < back.len() implies #[trigger] back[k] < g.len() by {
        assert(c[j - k] < g.len());
    }
    assert(is_path(g, back));
    let a = c[i + 1];
    let b = c[i];
    assert(edge(g, c[i + 1], c[i]));
    assert(back[0] == b && back.last() == a);
    assert(reachable(g, b, a));
    assert(alive[a as int]);
    assert(reachable(g, s, a));
}

/// When every reachable actor was taken, at a time later than each reachable
/// actor pointing to it, no cycle can be reached.
proof fn lemma_kahn_all_taken(g: Seq<Seq<usize>>, marks: Seq<bool>, enq: Seq<bool>, time: Seq<int>, s: usize)
    requires
        graph_wf(g),
        marks.len() == g.len(),
        enq.len() == g.len(),
        forall|x: usize| x < g.len() ==> (#[trigger] marks[x as int] <==> reachable(g, s, x)),
        forall|x: usize| x < g.len() && #[trigger] marks[x as int] ==> enq[x as int],
        forall|x: usize, w: usize|
            x < g.len() && marks[x as int] && #[trigger] edge(g, x, w) ==> (enq[w as int] ==> time[x as int] < time[w as int]),
    ensures
        !cycle_from(g, s),
{
    assert forall|x: usize, w: usize|
        x < g.len() && marks[x as int] && #[trigger] edge(g, x, w) implies w < g.len() && marks[w as int]
            && time[x as int] < time[w as int] by {
        assert(g[x as int].contains(w));
        assert(g[x as int].no_duplicates());
        let i = choose|i: int| 0 <= i < g[x as int].len() && g[x as int][i] == w;
        assert(w < g.len());
        assert(reachable(g, s, x));
        lemma_reachable_step(g, s, x, w);
        assert(marks[w as int]);
        assert(enq[w as int]);
    }
    if cycle_from(g, s) {
        let (a, b) = choose|a: usize, b: usize| reachable(g, s, a) && #[trigger] edge(g, a, b) && reachable(g, b, a);
        lemma_reachable_step(g, s, a, b);
        let p = choose|p: Seq<usize>| #[trigger] is_path(g, p) && p[0] == b && p.last() == a;
        lemma_times_along(g, marks, time, p, p.len() - 1);
    }
}

impl ActorPool {
    /// The guard that `subscribe` uses: the breadth-first check.
    pub fn detect_cycle(&self, actor_id: usize) -> (r: Result<bool, ActorError>)
        requires
            graph_wf(graph_of(self@)),
        ensures
            actor_id < self@.len() ==> r == Ok::<bool, ActorError>(
                cycle_from(graph_of(self@), actor_id),
            ),
            actor_id >= self@.len() ==> r == Err::<bool, ActorError>(
                ActorError::TargetActorNotFound(actor_id),
            ),
    {
        self.detect_cycle_bfs(actor_id)
    }

    /// Breadth-first cycle check: the actors that can be reached from the given
    /// one are found breadth-first, and for each of them a breadth-first search
    /// from its subscribers asks whether it can come back to itself. Answers
    /// whether a cycle can be reached.
    pub fn detect_cycle_bfs(&self, actor_id: usize) -> (r: Result<bool, ActorError>)
        requires
            graph_wf(graph_of(self@)),
        ensures
            actor_id < self@.len() ==> r == Ok::<bool, ActorError>(
                cycle_from(graph_of(self@), actor_id),
            ),
            actor_id >= self@.len() ==> r == Err::<bool, ActorError>(
                ActorError::TargetActorNotFound(actor_id),
            ),
    {
        let n = self.actor_list.len();
        if actor_id >= n {
            return Err(ActorError::TargetActorNotFound(actor_id));
        }
        let ghost g = graph_of(self@);
        let from_start = self.reachable_marks(actor_id);
        let mut u: usize = 0;
        while u < n
            invariant
                graph_wf(g),
                g == graph_of(self@),
                n == g.len(),
                actor_id < n,
                from_start@.len() == n,
                forall|x: usize| x < n ==> (#[trigger] from_start@[x as int] <==> reachable(g, actor_id, x)),
                forall|x: usize, w: usize|
                    x < u && from_start@[x as int] && #[trigger] edge(g, x, w) ==> !reachable(g, w, x),
            decreases n - u,
        {
            if from_start[u] {
                let subs = &self.actor_list[u].subs;
                assert(subs@ == g[u as int]);
                let mut j: usize = 0;
                while j < subs.len()
                    invariant
                        graph_wf(g),
                        g == graph_of(self@),
                        n == g.len(),
                        u < n,
                        actor_id < n,
                        subs@ == g[u as int],
                        j <= subs@.len(),
                        from_start@.len() == n,
                        from_start@[u as int],
                        forall|x: usize| x < n ==> (#[trigger] from_start@[x as int] <==> reachable(g, actor_id, x)),
                        forall|k: int| 0 <= k < j ==> !reachable(g, #[trigger] subs@[k], u),
                    decreases subs@.len() - j,
                {
                    let w = subs[j];
                    assert(edge(g, u, w));
                    assert(w < n);
                    let back = self.reachable_marks(w);
                    if back[u] {
                        assert(from_start@[u as int]);
                        assert(reachable(g, actor_id, u));
                        assert(reachable(g, w, u));
                        assert(cycle_from(g, actor_id));
                        return Ok(true);
                    }
                    j = j + 1;
                }
                proof {
                    assert forall|w: usize| #[trigger] edge(g, u, w) implies !reachable(g, w, u) by {
                        let k = choose|k: int| 0 <= k < subs@.len() && subs@[k] == w;
                        assert(!reachable(g, subs@[k], u));
                    }
                }
            }
            u = u + 1;
        }
        proof {
            if cycle_from(g, actor_id) {
                let (x, w) = choose|x: usize, w: usize|
                    reachable(g, actor_id, x) && #[trigger] edge(g, x, w) && reachable(g, w, x);
                assert(from_start@[x as int]);
            }
        }
        Ok(false)
    }

    /// Visits `u`, which is white, below the gray walk `path` from `s`:
    /// answers `true` on an edge back into the walk, else marks everything
    /// below `u` black.
    fn dfs_visit(&self, u: usize, color: &mut Vec<Color>, Ghost(s): Ghost<usize>, Ghost(path): Ghost<Seq<usize>>) -> (r: bool)
        requires
            graph_wf(graph_of(self@)),
            old(color)@.len() == self@.len(),
            u < self@.len(),
            old(color)@[u as int] == Color::White,
            is_path(graph_of(self@), path.push(u)),
            path.push(u)[0] == s,
            forall|v: usize| v < self@.len() ==> (#[trigger] old(color)@[v as int] == Color::Gray <==> path.contains(v)),
            forall|v: usize|
                v < self@.len() && #[trigger] old(color)@[v as int] == Color::Black ==> !cycle_from(graph_of(self@), v),
        ensures
            final(color)@.len() == self@.len(),
            forall|v: usize|
                v < self@.len() && #[trigger] old(color)@[v as int] != Color::White ==> final(color)@[v as int]
                    == old(color)@[v as int],
            forall|v: usize|
                v < self@.len() && #[trigger] final(color)@[v as int] == Color::White ==> old(color)@[v as int]
                    == Color::White,
            !r ==> forall|v: usize|
                v < self@.len() && v != u && #[trigger] final(color)@[v as int] == Color::Gray
                    ==> old(color)@[v as int] == Color::Gray,
            r ==> cycle_from(graph_of(self@), s),
            !r ==> final(color)@[u as int] == Color::Black,
            !r ==> forall|v: usize|
                v < self@.len() && #[trigger] final(color)@[v as int] == Color::Black ==> !cycle_from(graph_of(self@), v),
        decreases whites(old(color)@).len(),
    {
        let ghost g = graph_of(self@);
        let ghost n = self@.len();
        let len = self.actor_list.len();
        assert(n == len);
        let ghost entry = color@;
        let ghost here = path.push(u);
        color.set(u, Color::Gray);
        let subs = &self.actor_list[u].subs;
        assert(subs@ == g[u as int]);
        proof {
            assert(here[here.len() - 1] == u);
            assert forall|v: usize| v < n implies (#[trigger] color@[v as int] == Color::Gray <==> here.contains(v)) by {
                if path.contains(v) {
                    let i = choose|i: int| 0 <= i < path.len() && path[i] == v;
                    assert(here[i] == v);
                }
                if here.contains(v) && v != u {
                    let i = choose|i: int| 0 <= i < here.len() && here[i] == v;
                    assert(path[i] == v);
                }
            }
        }
        let mut j: usize = 0;
        while j < subs.len()
            invariant
                graph_wf(g),
                g == graph_of(self@),
                n == self@.len(),
                n == len,
                u < n,
                subs@ == g[u as int],
                j <= subs@.len(),
                color@.len() == n,
                entry == old(color)@,
                entry.len() == n,
                entry[u as int] == Color::White,
                color@[u as int] == Color::Gray,
                is_path(g, here),
                here == path.push(u),
                here[0] == s,
                forall|v: usize| v < n ==> (#[trigger] color@[v as int] == Color::Gray <==> here.contains(v)),
                forall|v: usize|
                    v < n && #[trigger] color@[v as int] == Color::Black ==> !cycle_from(g, v),
                forall|v: usize|
                    v < n && v != u && #[trigger] entry[v as int] != Color::White ==> color@[v as int] == entry[v as int],
                forall|v: usize| v < n && #[trigger] color@[v as int] == Color::White ==> entry[v as int] == Color::White,
                forall|v: usize|
                    v < n && v != u && #[trigger] color@[v as int] == Color::Gray ==> entry[v as int] == Color::Gray,
                forall|k: int| 0 <= k < j ==> color@[#[trigger] subs@[k] as int] == Color::Black,
            decreases subs@.len() - j,
        {
            let w = subs[j];
            assert(edge(g, u, w));
            assert(w < n);
            if color[w] == Color::Gray {
                proof {
                    let i = choose|i: int| 0 <= i < here.len() && here[i] == w;
                    lemma_path_reach(g, here, 0, here.len() - 1);
                    lemma_path_reach(g, here, i, here.len() - 1);
                    assert(cycle_from(g, s));
                }
                return true;
            }
            if color[w] == Color::White {
                proof {
                    lemma_int_range(0, n as int);
                    lemma_len_subset(whites(entry), set_int_range(0, n as int));
                    assert forall|i: int| #[trigger] whites(color@).contains(i) implies whites(entry).contains(i) by {
                        assert(0 <= i < n && color@[i] == Color::White);
                        let v = i as usize;
                        assert(v as int == i);
                        assert(color@[v as int] == Color::White);
                        assert(entry[v as int] == Color::White);
                    }
                    whites(color@).lemma_subset_not_in_lt(whites(entry), u as int);
                    lemma_path_push(g, here, w);
                }
                let found = self.dfs_visit(w, color, Ghost(s), Ghost(here));
                if found {
                    return true;
                }
            }
            j = j + 1;
        }
        proof {
            assert forall|w: usize| #[trigger] edge(g, u, w) implies !cycle_from(g, w) by {
                let k = choose|k: int| 0 <= k < subs@.len() && subs@[k] == w;
                assert(color@[subs@[k] as int] == Color::Black);
            }
            lemma_no_cycle_below(g, u);
        }
        color.set(u, Color::Black);
        proof {
            assert forall|v: usize| v < n && #[trigger] color@[v as int] == Color::Gray implies entry[v as int] == Color::Gray by {
                assert(v != u);
            }
        }
        false
    }

    /// Depth-first walk from the actor with three marks: an edge back into the
    /// current path is a cycle. Answers whether a cycle can be reached.
    pub fn detect_cycle_dfs(&self, actor_id: usize) -> (r: Result<bool, ActorError>)
        requires
            graph_wf(graph_of(self@)),
        ensures
            actor_id < self@.len() ==> r == Ok::<bool, ActorError>(
                cycle_from(graph_of(self@), actor_id),
            ),
            actor_id >= self@.len() ==> r == Err::<bool, ActorError>(
                ActorError::TargetActorNotFound(actor_id),
            ),
    {
        let n = self.actor_list.len();
        if actor_id >= n {
            return Err(ActorError::TargetActorNotFound(actor_id));
        }
        let mut color = all_white(n);
        let ghost start = Seq::<usize>::empty();
        assert(is_path(graph_of(self@), start.push(actor_id)));
        let found = self.dfs_visit(actor_id, &mut color, Ghost(actor_id), Ghost(start));
        Ok(found)
    }

    /// Marks the actors that can be reached from `s`.
    fn reachable_marks(&self, s: usize) -> (r: Vec<bool>)
        requires
            graph_wf(graph_of(self@)),
            s < self@.len(),
        ensures
            r@.len() == self@.len(),
            forall|v: usize| v < self@.len() ==> (#[trigger] r@[v as int] <==> reachable(graph_of(self@), s, v)),
    {
        let n = self.actor_list.len();
        let ghost g = graph_of(self@);
        let mut marks = all_false(n);
        marks.set(s, true);
        let mut queue: VecDeque<usize> = VecDeque::new();
        queue.push_back(s);
        let ghost mut processed: Set<int> = Set::empty();
        proof {
            lemma_reachable_refl(g, s);
            lemma_int_range(0, n as int);
            assert(queue@[0] == s);
            assert(queue@.contains(s));
        }
        loop
            invariant
                graph_wf(g),
                g == graph_of(self@),
                n == g.len(),
                s < n,
                marks@.len() == n,
                marks@[s as int],
                forall|v: usize| v < n && #[trigger] marks@[v as int] ==> reachable(g, s, v),
                forall|i: int|
                    0 <= i < queue@.len() ==> #[trigger] queue@[i] < n && marks@[queue@[i] as int]
                        && !processed.contains(queue@[i] as int),
                queue@.no_duplicates(),
                processed.subset_of(set_int_range(0, n as int)),
                forall|v: usize| #[trigger] processed.contains(v as int) ==> v < n && marks@[v as int],
                forall|v: usize|
                    v < n && #[trigger] marks@[v as int] ==> processed.contains(v as int)
                        || queue@.contains(v),
                forall|u: usize, w: usize|
                    processed.contains(u as int) && #[trigger] edge(g, u, w) ==> marks@[w as int],
            ensures
                queue@.len() == 0,
            decreases set_int_range(0, n as int).difference(processed).len(),
        {
            let ghost old_queue = queue@;
            let u = match queue.pop_front() {
                Some(u) => u,
                None => {
                    break ;
                },
            };
            let subs = &self.actor_list[u].subs;
            assert(subs@ == g[u as int]);
            proof {
                lemma_int_range(0, n as int);
                assert forall|v: usize| #[trigger] old_queue.contains(v) && v != u implies queue@.contains(v) by {
                    let i = choose|i: int| 0 <= i < old_queue.len() && old_queue[i] == v;
                    assert(queue@[i - 1] == v);
                }
                assert(!queue@.contains(u)) by {
                    if queue@.contains(u) {
                        let i = choose|i: int| 0 <= i < queue@.len() && queue@[i] == u;
                        assert(old_queue[i + 1] == u && old_queue[0] == u);
                    }
                }
            }
            let mut j: usize = 0;
            while j < subs.len()
                invariant
                    graph_wf(g),
                    g == graph_of(self@),
                    n == g.len(),
                    s < n,
                    u < n,
                    subs@ == g[u as int],
                    j <= subs@.len(),
                    marks@.len() == n,
                    marks@[s as int],
                    marks@[u as int],
                    reachable(g, s, u),
                    !processed.contains(u as int),
                    !queue@.contains(u),
                    processed.subset_of(set_int_range(0, n as int)),
                    forall|v: usize| v < n && #[trigger] marks@[v as int] ==> reachable(g, s, v),
                    forall|i: int|
                        0 <= i < queue@.len() ==> #[trigger] queue@[i] < n && marks@[queue@[i] as int]
                            && !processed.contains(queue@[i] as int),
                    queue@.no_duplicates(),
                    forall|v: usize| #[trigger] processed.contains(v as int) ==> v < n && marks@[v as int],
                    forall|v: usize|
                        v < n && #[trigger] marks@[v as int] ==> processed.contains(v as int)
                            || queue@.contains(v) || v == u,
                    forall|u2: usize, w: usize|
                        processed.contains(u2 as int) && #[trigger] edge(g, u2, w) ==> marks@[w as int],
                    forall|k: int| 0 <= k < j ==> marks@[#[trigger] subs@[k] as int],
                decreases subs@.len() - j,
            {
                let w = subs[j];
                assert(edge(g, u, w));
                if !marks[w] {
                    proof {
                        lemma_reachable_step(g, s, u, w);
                    }
                    marks.set(w, true);
                    let ghost queue_before = queue@;
                    queue.push_back(w);
                    proof {
                        assert(queue@.last() == w);
                        assert forall|v: usize| #[trigger] queue_before.contains(v) implies queue@.contains(v) by {
                            let i = choose|i: int| 0 <= i < queue_before.len() && queue_before[i] == v;
                            assert(queue@[i] == v);
                        }
                    }
                }
                j = j + 1;
            }
            proof {
                assert forall|w: usize| #[trigger] edge(g, u, w) implies marks@[w as int] by {
                    let k = choose|k: int| 0 <= k < subs@.len() && subs@[k] == w;
                    assert(marks@[subs@[k] as int]);
                }
                set_int_range(0, n as int).lemma_set_insert_diff_decreases(processed, u as int);
                processed = processed.insert(u as int);
            }
        }
        proof {
            assert forall|u: usize, w: usize|
                u < g.len() && marks@[u as int] && #[trigger] edge(g, u, w) implies w < g.len()
                    && marks@[w as int] by {
                assert(processed.contains(u as int));
            }
            assert forall|v: usize| v < n implies (#[trigger] marks@[v as int] <==> reachable(g, s, v)) by {
                if reachable(g, s, v) {
                    lemma_closed_holds_reachable(g, marks@, s, v);
                }
            }
        }
        marks
    }

    /// Kahn's algorithm on the actors that can be reached from the given one and
    /// the edges between them: actors whose in-degree drops to zero are taken
    /// away one by one, and whatever is left over lies on or behind a cycle.
    pub fn detect_cycle_topological_sort(&self, actor_id: usize) -> (r: Result<bool, ActorError>)
        requires
            graph_wf(graph_of(self@)),
        ensures
            actor_id < self@.len() ==> r == Ok::<bool, ActorError>(
                cycle_from(graph_of(self@), actor_id),
            ),
            actor_id >= self@.len() ==> r == Err::<bool, ActorError>(
                ActorError::TargetActorNotFound(actor_id),
            ),
    {
        let n = self.actor_list.len();
        if actor_id >= n {
            return Err(ActorError::TargetActorNotFound(actor_id));
        }
        let ghost g = graph_of(self@);
        let ghost s = actor_id;
        let reach = self.reachable_marks(actor_id);
        let ghost marks = reach@;

        // the in-degree of each reachable actor, counting edges from reachable actors
        let mut in_degree = all_zero(n);
        let mut u: usize = 0;
        while u < n
            invariant
                graph_wf(g),
                g == graph_of(self@),
                n == g.len(),
                reach@ == marks,
                marks.len() == n,
                u <= n,
                in_degree@.len() == n,
                forall|v: usize|
                    v < n ==> #[trigger] in_degree@[v as int] as int == if marks[v as int] {
                        live_preds(g, marks, v, u as nat) as int
                    } else {
                        0
                    },
            decreases n - u,
        {
            if reach[u] {
                let subs = &self.actor_list[u].subs;
                assert(subs@ == g[u as int]);
                let mut j: usize = 0;
                while j < subs.len()
                    invariant
                        graph_wf(g),
                        g == graph_of(self@),
                        n == g.len(),
                        reach@ == marks,
                        marks.len() == n,
                        u < n,
                        marks[u as int],
                        subs@ == g[u as int],
                        j <= subs@.len(),
                        in_degree@.len() == n,
                        forall|v: usize|
                            v < n ==> #[trigger] in_degree@[v as int] as int == if marks[v as int] {
                                live_preds(g, marks, v, u as nat) as int + if subs@.subrange(
                                    0,
                                    j as int,
                                ).contains(v) {
                                    1int
                                } else {
                                    0int
                                }
                            } else {
                                0
                            },
                    decreases subs@.len() - j,
                {
                    let w = subs[j];
                    proof {
                        assert(g[u as int].no_duplicates());
                        let done = subs@.subrange(0, j as int);
                        assert(subs@.subrange(0, j + 1) == done.push(w));
                        assert forall|v: usize| #[trigger] done.push(w).contains(v) <==> (done.contains(v) || v == w) by {
                            if done.contains(v) {
                                let i = choose|i: int| 0 <= i < done.len() && done[i] == v;
                                assert(done.push(w)[i] == v);
                            }
                            if done.push(w).contains(v) && v != w {
                                let i = choose|i: int| 0 <= i < done.push(w).len() && done.push(w)[i] == v;
                                assert(done[i] == v);
                            }
                            assert(done.push(w)[j as int] == w);
                        }
                        if done.contains(w) {
                            let i = choose|i: int| 0 <= i < done.len() && done[i] == w;
                            assert(subs@[i] == subs@[j as int]);
                        }
                        assert(w < n);
                        lemma_live_preds_bound(g, marks, w, u as nat);
                    }
                    if reach[w] {
                        in_degree.set(w, in_degree[w] + 1);
                    }
                    j = j + 1;
                }
                proof {
                    assert(subs@.subrange(0, subs@.len() as int) == subs@);
                }
            }
            proof {
                assert forall|v: usize| v < n implies #[trigger] in_degree@[v as int] as int == if marks[v as int] {
                    live_preds(g, marks, v, (u + 1) as nat) as int
                } else {
                    0
                } by {
                    assert(edge(g, u, v) <==> g[u as int].contains(v));
                }
            }
            u = u + 1;
        }

        // actors with nothing left to wait for, in the order they were found
        let ghost mut alive = marks;
        let ghost mut enq: Seq<bool> = Seq::new(n as nat, |i: int| false);
        let ghost mut time: Seq<int> = Seq::new(n as nat, |i: int| 0int);
        let ghost mut t: int = 0;
        let mut queue: VecDeque<usize> = VecDeque::new();
        let mut v: usize = 0;
        while v < n
            invariant
                graph_wf(g),
                g == graph_of(self@),
                n == g.len(),
                reach@ == marks,
                marks.len() == n,
                alive == marks,
                v <= n,
                in_degree@.len() == n,
                enq.len() == n,
                time.len() == n,
                forall|x: usize|
                    x < n && marks[x as int] ==> #[trigger] in_degree@[x as int] == live_preds(g, alive, x, n as nat),
                forall|x: usize|
                    x < n ==> (#[trigger] enq[x as int] <==> (x < v && marks[x as int] && in_degree@[x as int] == 0)),
                forall|i: int| 0 <= i < queue@.len() ==> #[trigger] queue@[i] < v && enq[queue@[i] as int],
                forall|x: usize| x < n && #[trigger] enq[x as int] ==> queue@.contains(x),
                forall|x: usize| x < n && #[trigger] enq[x as int] ==> time[x as int] < t,
                queue@.no_duplicates(),
            decreases n - v,
        {
            if reach[v] && in_degree[v] == 0 {
                let ghost queue_before = queue@;
                queue.push_back(v);
                proof {
                    assert(queue@.last() == v);
                    assert forall|x: usize| #[trigger] queue_before.contains(x) implies queue@.contains(x) by {
                        let i = choose|i: int| 0 <= i < queue_before.len() && queue_before[i] == x;
                        assert(queue@[i] == x);
                    }
                    assert(queue@.contains(v));
                    enq = enq.update(v as int, true);
                    time = time.update(v as int, t);
                    t = t + 1;
                }
            }
            v = v + 1;
        }
        proof {
            assert forall|x: usize, w: usize|
                x < n && #[trigger] enq[w as int] && marks[x as int] && #[trigger] edge(g, x, w) implies false by {
                assert(w < n);
                lemma_live_preds_none(g, alive, w, n as nat, x);
            }
        }

        let ghost mut dead: Set<int> = Set::empty();
        loop
            invariant
                graph_wf(g),
                g == graph_of(self@),
                n == g.len(),
                s == actor_id,
                s < n,
                reach@ == marks,
                marks.len() == n,
                forall|x: usize| x < n ==> (#[trigger] marks[x as int] <==> reachable(g, s, x)),
                in_degree@.len() == n,
                alive.len() == n,
                enq.len() == n,
                time.len() == n,
                forall|x: usize|
                    x < n && marks[x as int] ==> #[trigger] in_degree@[x as int] == live_preds(g, alive, x, n as nat),
                forall|x: usize| x < n && #[trigger] alive[x as int] ==> marks[x as int],
                forall|i: int|
                    0 <= i < queue@.len() ==> #[trigger] queue@[i] < n && alive[queue@[i] as int] && enq[queue@[i] as int],
                queue@.no_duplicates(),
                forall|x: usize|
                    x < n && #[trigger] enq[x as int] ==> marks[x as int] && (queue@.contains(x) || !alive[x as int])
                        && in_degree@[x as int] == 0,
                forall|x: usize| x < n && marks[x as int] && !#[trigger] alive[x as int] ==> enq[x as int],
                forall|x: usize| x < n && marks[x as int] && !#[trigger] enq[x as int] ==> in_degree@[x as int] > 0,
                forall|x: usize, w: usize|
                    x < n && w < n && #[trigger] enq[w as int] && marks[x as int] && #[trigger] edge(g, x, w) ==> enq[x as int]
                        && time[x as int] < time[w as int],
                forall|x: usize| x < n && #[trigger] enq[x as int] ==> time[x as int] < t,
                dead.subset_of(set_int_range(0, n as int)),
                forall|x: usize| x < n && !#[trigger] alive[x as int] && marks[x as int] ==> dead.contains(x as int),
                forall|x: int| #[trigger] dead.contains(x) ==> 0 <= x < n && !alive[x] && marks[x],
            ensures
                queue@.len() == 0,
            decreases set_int_range(0, n as int).difference(dead).len(),
        {
            let ghost old_queue = queue@;
            let x = match queue.pop_front() {
                Some(x) => x,
                None => {
                    break ;
                },
            };
            let ghost before = alive;
            proof {
                lemma_int_range(0, n as int);
                assert(old_queue[0] == x);
                assert(alive[x as int] && enq[x as int] && marks[x as int]);
                assert forall|y: usize| #[trigger] old_queue.contains(y) && y != x implies queue@.contains(y) by {
                    let i = choose|i: int| 0 <= i < old_queue.len() && old_queue[i] == y;
                    assert(queue@[i - 1] == y);
                }
                assert(!queue@.contains(x)) by {
                    if queue@.contains(x) {
                        let i = choose|i: int| 0 <= i < queue@.len() && queue@[i] == x;
                        assert(old_queue[i + 1] == x);
                    }
                }
                set_int_range(0, n as int).lemma_set_insert_diff_decreases(dead, x as int);
                dead = dead.insert(x as int);
                alive = alive.update(x as int, false);
                assert forall|y: usize| y < n implies live_preds(g, alive, y, n as nat) + (if edge(g, x, y) {
                    1nat
                } else {
                    0nat
                }) == #[trigger] live_preds(g, before, y, n as nat) by {
                    lemma_live_preds_kill(g, before, x, y, n as nat);
                }
            }
            let subs = &self.actor_list[x].subs;
            assert(subs@ == g[x as int]);
            let mut j: usize = 0;
            while j < subs.len()
                invariant
                    graph_wf(g),
                    g == graph_of(self@),
                    n == g.len(),
                    reach@ == marks,
                    marks.len() == n,
                    x < n,
                    subs@ == g[x as int],
                    j <= subs@.len(),
                    in_degree@.len() == n,
                    alive.len() == n,
                    enq.len() == n,
                    time.len() == n,
                    alive == before.update(x as int, false),
                    before[x as int],
                    enq[x as int],
                    forall|y: usize| y < n ==> live_preds(g, alive, y, n as nat) + (if edge(g, x, y) {
                        1nat
                    } else {
                        0nat
                    }) == #[trigger] live_preds(g, before, y, n as nat),
                    forall|y: usize|
                        y < n && marks[y as int] ==> #[trigger] in_degree@[y as int] as int == live_preds(g, alive, y, n as nat) as int
                            + if edge(g, x, y) && !subs@.subrange(0, j as int).contains(y) {
                            1int
                        } else {
                            0int
                        },
                    forall|y: usize| y < n && #[trigger] alive[y as int] ==> marks[y as int],
                    forall|i: int|
                        0 <= i < queue@.len() ==> #[trigger] queue@[i] < n && alive[queue@[i] as int] && enq[queue@[i] as int],
                    queue@.no_duplicates(),
                    forall|y: usize|
                        y < n && #[trigger] enq[y as int] ==> marks[y as int] && (queue@.contains(y) || !alive[y as int])
                            && in_degree@[y as int] == 0,
                    forall|y: usize| y < n && marks[y as int] && !#[trigger] alive[y as int] ==> enq[y as int],
                    forall|y: usize| y < n && marks[y as int] && !#[trigger] enq[y as int] ==> in_degree@[y as int] > 0,
                    forall|y: usize, w: usize|
                        y < n && w < n && #[trigger] enq[w as int] && marks[y as int] && #[trigger] edge(g, y, w) ==> enq[y as int]
                            && time[y as int] < time[w as int],
                    forall|y: usize| y < n && #[trigger] enq[y as int] ==> time[y as int] < t,
                decreases subs@.len() - j,
            {
                let w = subs[j];
                let ghost done = subs@.subrange(0, j as int);
                proof {
                    assert(g[x as int].no_duplicates());
                    assert(subs@.subrange(0, j + 1) == done.push(w));
                    assert forall|y: usize| #[trigger] done.push(w).contains(y) <==> (done.contains(y) || y == w) by {
                        if done.contains(y) {
                            let i = choose|i: int| 0 <= i < done.len() && done[i] == y;
                            assert(done.push(w)[i] == y);
                        }
                        if done.push(w).contains(y) && y != w {
                            let i = choose|i: int| 0 <= i < done.push(w).len() && done.push(w)[i] == y;
                            assert(done[i] == y);
                        }
                        assert(done.push(w)[j as int] == w);
                    }
                    if done.contains(w) {
                        let i = choose|i: int| 0 <= i < done.len() && done[i] == w;
                        assert(subs@[i] == subs@[j as int]);
                    }
                    assert(edge(g, x, w));
                    assert(w < n);
                }
                if reach[w] {
                    in_degree.set(w, in_degree[w] - 1);
                    if in_degree[w] == 0 {
                        proof {
                            assert(!enq[w as int]);
                            assert(alive[w as int]);
                        }
                        let ghost queue_before = queue@;
                        queue.push_back(w);
                        proof {
                            assert(queue@.last() == w);
                            assert forall|y: usize| #[trigger] queue_before.contains(y) implies queue@.contains(y) by {
                                let i = choose|i: int| 0 <= i < queue_before.len() && queue_before[i] == y;
                                assert(queue@[i] == y);
                            }
                            assert(queue@.contains(w));
                            if queue_before.contains(w) {
                                let i = choose|i: int| 0 <= i < queue_before.len() && queue_before[i] == w;
                                assert(enq[queue_before[i] as int]);
                            }
                            assert forall|y: usize| y < n && marks[y as int] && #[trigger] edge(g, y, w) implies enq[y as int]
                                && time[y as int] < t by {
                                if alive[y as int] {
                                    lemma_live_preds_none(g, alive, w, n as nat, y);
                                }
                            }
                            enq = enq.update(w as int, true);
                            time = time.update(w as int, t);
                            t = t + 1;
                        }
                    }
                }
                j = j + 1;
            }
            proof {
                assert(subs@.subrange(0, subs@.len() as int) == subs@);
            }
        }

        // a reachable actor still waiting lies on or behind a cycle
        proof {
            assert forall|x: usize| x < n && #[trigger] enq[x as int] implies !alive[x as int] by {
                if queue@.contains(x) {
                    let i = choose|i: int| 0 <= i < queue@.len() && queue@[i] == x;
                }
            }
            assert forall|x: usize, w: usize|
                x < n && marks[x as int] && #[trigger] edge(g, x, w) && enq[w as int] implies time[x as int] < time[w as int] by {
                assert(w < n);
            }
        }
        let mut waiting: Option<usize> = None;
        let mut v: usize = 0;
        while v < n
            invariant
                n == g.len(),
                reach@ == marks,
                marks.len() == n,
                in_degree@.len() == n,
                v <= n,
                match waiting {
                    Some(x) => x < n && marks[x as int] && in_degree@[x as int] != 0,
                    None => forall|x: usize| x < v && marks[x as int] ==> #[trigger] in_degree@[x as int] == 0,
                },
            decreases n - v,
        {
            if waiting.is_none() && reach[v] && in_degree[v] != 0 {
                waiting = Some(v);
            }
            v = v + 1;
        }
        match waiting {
            Some(x) => {
                proof {
                    lemma_kahn_left_over(g, marks, alive, enq, in_degree@, s, x);
                }
                Ok(true)
            },
            None => {
                proof {
                    lemma_kahn_all_taken(g, marks, enq, time, s);
                }
                Ok(false)
            },
        }
    }
}

} // verus!
