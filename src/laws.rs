//! What holds of sequences of operations on a pool.
use vstd::prelude::*;
use crate::actor::{ActorView, MAILBOX_CAPACITY, applied, drained, received};
use crate::errors::ActorError;
use crate::graph::{
    cycle_from, edge, is_path, lemma_edge_keeps_acyclic, lemma_no_return, lemma_only_direct,
    lemma_only_itself, lemma_path_concat, lemma_path_short, lemma_reachable_first, lemma_reachable_refl,
    lemma_reachable_step, lemma_reachable_trans, one_path, reachable, with_edge,
};
use crate::message::Message;
use crate::pool::{
    fan_out, graph_of, lemma_drained, pool_wf, send_walk, subscribe_step, subscribed, subscriber_added,
    toggled,
};
use crate::state::ActorState;

verus! {

/// Sending the messages of `ms` to actor `id` one after the other, as
/// `message_loop` does.
pub open spec fn sent_all(v: Seq<ActorView>, id: usize, ms: Seq<Message>) -> Seq<ActorView>
    decreases ms.len(),
{
    if ms.len() == 0 {
        v
    } else {
        let v1 = sent_all(v, id, ms.drop_last());
        send_walk(v1, id, ms.last(), v1.len()).0
    }
}

/// The sum of the changes that the messages ask for.
pub open spec fn delta_sum(ms: Seq<Message>) -> int
    decreases ms.len(),
{
    if ms.len() == 0 {
        0
    } else {
        ms[0].delta() + delta_sum(ms.drop_first())
    }
}

/// Starting from `start`, every running total of `ms` fits in an `i32`.
pub open spec fn totals_fit(start: int, ms: Seq<Message>) -> bool {
    forall|k: int| 0 <= k <= ms.len() ==> i32::MIN <= #[trigger] (start + delta_sum(ms.take(k))) <= i32::MAX
}

pub proof fn lemma_delta_sum_push(ms: Seq<Message>, m: Message)
    ensures
        delta_sum(ms.push(m)) == delta_sum(ms) + m.delta(),
    decreases ms.len(),
{
    if ms.len() > 0 {
        assert(ms.push(m).drop_first() == ms.drop_first().push(m));
        lemma_delta_sum_push(ms.drop_first(), m);
    } else {
        assert(ms.push(m).drop_first() == Seq::<Message>::empty());
        assert(delta_sum(Seq::<Message>::empty()) == 0);
        assert(ms.push(m)[0] == m);
    }
}

/// A delivery changes only the actors that can be reached from where it
/// starts, keeps every actor's state and subscribers, and keeps the pool
/// well formed.
pub proof fn lemma_send_walk_frame(v: Seq<ActorView>, id: usize, m: Message, depth: nat)
    requires
        pool_wf(v),
    ensures
        ({
            let r = send_walk(v, id, m, depth).0;
            &&& pool_wf(r)
            &&& r.len() == v.len()
            &&& graph_of(r) == graph_of(v)
            &&& forall|x: int| 0 <= x < v.len() ==> (#[trigger] r[x]).state == v[x].state
            &&& forall|x: usize|
                x < v.len() && !reachable(graph_of(v), id, x) ==> #[trigger] r[x as int] == v[x as int]
        }),
    decreases depth, 0nat,
{
    if depth == 0 || id >= v.len() {
    } else {
        let (a, e) = received(v[id as int], m);
        if e is None {
            let v1 = v.update(id as int, a);
            let b = v[id as int];
            lemma_drained(ActorView { mailbox: b.mailbox.push(m), ..b });
            assert(graph_of(v1) =~= graph_of(v));
            assert(pool_wf(v1)) by {
                assert forall|i: int| 0 <= i < v1.len() implies (#[trigger] v1[i]).id == i by {
                    assert(v[i].id == i);
                }
                assert forall|i: int| 0 <= i < v1.len() implies (#[trigger] v1[i]).wf() by {
                    assert(v[i].wf());
                    assert(graph_of(v1)[i] == v1[i].subs);
                }
                assert forall|i: int| 0 <= i < v1.len() && (#[trigger] v1[i]).state == ActorState::Active implies v1[i].mailbox.len() == 0 by {
                    assert(v[i].state == v1[i].state);
                }
            }
            lemma_fan_out_frame(v1, b.subs, m, (depth - 1) as nat, b.subs.len());
            let g = graph_of(v);
            assert forall|x: usize| x < v.len() && !reachable(g, id, x) implies (forall|i: int|
                0 <= i < b.subs.len() ==> !reachable(graph_of(v1), #[trigger] b.subs[i], x)) by {
                assert forall|i: int| 0 <= i < b.subs.len() implies !reachable(graph_of(v1), #[trigger] b.subs[i], x) by {
                    if reachable(g, b.subs[i], x) {
                        assert(g[id as int] == b.subs);
                        assert(edge(g, id, b.subs[i]));
                        assert(b.subs[i] < g.len());
                        lemma_reachable_refl(g, id);
                        lemma_reachable_step(g, id, id, b.subs[i]);
                        lemma_reachable_trans(g, id, b.subs[i], x);
                    }
                }
            }
            assert forall|x: usize| x < v.len() && !reachable(g, id, x) implies x != id by {
                if x == id {
                    lemma_reachable_refl(g, id);
                }
            }
        }
    }
}

/// Forwarding to the first `k` subscribers of a list changes only the actors
/// that can be reached from them.
pub proof fn lemma_fan_out_frame(v: Seq<ActorView>, subs: Seq<usize>, m: Message, depth: nat, k: nat)
    requires
        pool_wf(v),
    ensures
        ({
            let r = fan_out(v, subs, m, depth, k).0;
            &&& pool_wf(r)
            &&& r.len() == v.len()
            &&& graph_of(r) == graph_of(v)
            &&& forall|x: int| 0 <= x < v.len() ==> (#[trigger] r[x]).state == v[x].state
            &&& forall|x: usize|
                x < v.len() && (forall|i: int| 0 <= i < subs.len() ==> !reachable(graph_of(v), #[trigger] subs[i], x))
                    ==> #[trigger] r[x as int] == v[x as int]
        }),
    decreases depth, k,
{
    if k == 0 || k > subs.len() {
    } else {
        lemma_fan_out_frame(v, subs, m, depth, (k - 1) as nat);
        let v1 = fan_out(v, subs, m, depth, (k - 1) as nat).0;
        lemma_send_walk_frame(v1, subs[k - 1], m, depth);
        let r = fan_out(v, subs, m, depth, k).0;
        assert forall|x: usize|
            x < v.len() && (forall|i: int| 0 <= i < subs.len() ==> !reachable(graph_of(v), #[trigger] subs[i], x))
                implies #[trigger] r[x as int] == v[x as int] by {
            assert(!reachable(graph_of(v), subs[k - 1], x));
        }
    }
}

/// A message sent to an active actor is applied to its value at once.
pub proof fn lemma_send_to_active(v: Seq<ActorView>, id: usize, m: Message, depth: nat)
    requires
        pool_wf(v),
        id < v.len(),
        v[id as int].state == ActorState::Active,
        depth > 0,
    ensures
        send_walk(v, id, m, depth).0[id as int] == applied(v[id as int], m),
{
    let a = v[id as int];
    let a0 = ActorView { mailbox: a.mailbox.push(m), ..a };
    assert(a0.mailbox.drop_first() =~= a.mailbox);
    assert(ActorView { mailbox: a0.mailbox.drop_first(), ..a0 } == a);
    assert(a.mailbox.len() == 0);
    assert(a0.mailbox[0] == m);
    assert(applied(a, m).mailbox.len() == 0);
    assert(drained(applied(a, m)) == applied(a, m));
    assert(drained(a0) == applied(a, m));
    let v1 = v.update(id as int, applied(a, m));
    assert(graph_of(v1) =~= graph_of(v));
    assert(pool_wf(v1)) by {
        assert forall|i: int| 0 <= i < v1.len() implies (#[trigger] v1[i]).id == i by {
            assert(v[i].id == i);
        }
        assert forall|i: int| 0 <= i < v1.len() implies (#[trigger] v1[i]).wf() by {
            assert(v[i].wf());
            assert(graph_of(v1)[i] == v1[i].subs);
        }
        assert forall|i: int| 0 <= i < v1.len() && (#[trigger] v1[i]).state == ActorState::Active implies v1[i].mailbox.len() == 0 by {
            assert(v[i].state == v1[i].state);
        }
    }
    lemma_fan_out_frame(v1, a.subs, m, (depth - 1) as nat, a.subs.len());
    let g = graph_of(v);
    assert forall|i: int| 0 <= i < a.subs.len() implies !reachable(graph_of(v1), #[trigger] a.subs[i], id) by {
        assert(g[id as int] == a.subs);
        assert(edge(g, id, a.subs[i]));
    }
}

/// A message sent to an inactive actor with room in its mailbox is queued
/// last, and nothing else of the actor changes.
pub proof fn lemma_send_to_inactive(v: Seq<ActorView>, id: usize, m: Message, depth: nat)
    requires
        pool_wf(v),
        id < v.len(),
        v[id as int].state == ActorState::Inactive,
        v[id as int].mailbox.len() < MAILBOX_CAPACITY,
        depth > 0,
    ensures
        send_walk(v, id, m, depth).0[id as int] == (ActorView {
            mailbox: v[id as int].mailbox.push(m),
            ..v[id as int]
        }),
{
    let a = v[id as int];
    let a1 = ActorView { mailbox: a.mailbox.push(m), ..a };
    let v1 = v.update(id as int, a1);
    assert(graph_of(v1) =~= graph_of(v));
    assert(pool_wf(v1)) by {
        assert forall|i: int| 0 <= i < v1.len() implies (#[trigger] v1[i]).id == i by {
            assert(v[i].id == i);
        }
        assert forall|i: int| 0 <= i < v1.len() implies (#[trigger] v1[i]).wf() by {
            assert(v[i].wf());
            assert(graph_of(v1)[i] == v1[i].subs);
        }
        assert forall|i: int| 0 <= i < v1.len() && (#[trigger] v1[i]).state == ActorState::Active implies v1[i].mailbox.len() == 0 by {
            assert(v[i].state == v1[i].state);
        }
    }
    lemma_fan_out_frame(v1, a.subs, m, (depth - 1) as nat, a.subs.len());
    let g = graph_of(v);
    assert forall|i: int| 0 <= i < a.subs.len() implies !reachable(graph_of(v1), #[trigger] a.subs[i], id) by {
        assert(g[id as int] == a.subs);
        assert(edge(g, id, a.subs[i]));
    }
}

/// Sending any messages to an active actor, one at a time, leaves its value
/// at the old value plus the sum of their changes, provided every running
/// total fits in an `i32`.
pub proof fn lemma_active_value_is_sum(v: Seq<ActorView>, id: usize, ms: Seq<Message>)
    requires
        pool_wf(v),
        id < v.len(),
        v[id as int].state == ActorState::Active,
        totals_fit(v[id as int].value, ms),
    ensures
        pool_wf(sent_all(v, id, ms)),
        sent_all(v, id, ms).len() == v.len(),
        sent_all(v, id, ms)[id as int].state == ActorState::Active,
        sent_all(v, id, ms)[id as int].value == v[id as int].value + delta_sum(ms),
    decreases ms.len(),
{
    if ms.len() > 0 {
        let rest = ms.drop_last();
        assert forall|k: int| 0 <= k <= rest.len() implies i32::MIN <= #[trigger] (v[id as int].value + delta_sum(rest.take(k))) <= i32::MAX by {
            assert(rest.take(k) == ms.take(k));
            assert(i32::MIN <= v[id as int].value + delta_sum(ms.take(k)) <= i32::MAX);
        }
        lemma_active_value_is_sum(v, id, rest);
        let v1 = sent_all(v, id, rest);
        lemma_send_walk_frame(v1, id, ms.last(), v1.len());
        lemma_send_to_active(v1, id, ms.last(), v1.len());
        lemma_delta_sum_push(rest, ms.last());
        assert(rest.push(ms.last()) == ms);
        assert(ms.take(ms.len() as int) == ms);
        assert(i32::MIN <= v[id as int].value + delta_sum(ms.take(ms.len() as int)) <= i32::MAX);
    }
}

/// Messages sent to an inactive actor while its mailbox has room are queued
/// in the order they were sent, and its value does not change.
pub proof fn lemma_inactive_buffers(v: Seq<ActorView>, id: usize, ms: Seq<Message>)
    requires
        pool_wf(v),
        id < v.len(),
        v[id as int].state == ActorState::Inactive,
        v[id as int].mailbox.len() + ms.len() <= MAILBOX_CAPACITY,
    ensures
        pool_wf(sent_all(v, id, ms)),
        sent_all(v, id, ms).len() == v.len(),
        sent_all(v, id, ms)[id as int] == (ActorView {
            mailbox: v[id as int].mailbox + ms,
            ..v[id as int]
        }),
    decreases ms.len(),
{
    if ms.len() == 0 {
        assert(v[id as int].mailbox + ms =~= v[id as int].mailbox);
    } else {
        let rest = ms.drop_last();
        lemma_inactive_buffers(v, id, rest);
        let v1 = sent_all(v, id, rest);
        lemma_send_walk_frame(v1, id, ms.last(), v1.len());
        lemma_send_to_inactive(v1, id, ms.last(), v1.len());
        assert((v[id as int].mailbox + rest).push(ms.last()) =~= v[id as int].mailbox + ms);
    }
}

/// An actor that drains its mailbox, with every running total fitting in an
/// `i32`, ends with its value plus the sum of the mailbox's changes.
pub proof fn lemma_drained_value(a: ActorView)
    requires
        totals_fit(a.value, a.mailbox),
    ensures
        drained(a).value == a.value + delta_sum(a.mailbox),
        drained(a).rejected == a.rejected,
    decreases a.mailbox.len(),
{
    if a.mailbox.len() > 0 {
        let m = a.mailbox[0];
        let rest = a.mailbox.drop_first();
        assert(a.mailbox.take(1) =~= seq![m]);
        assert(seq![m].drop_first() =~= Seq::<Message>::empty());
        assert(delta_sum(Seq::<Message>::empty()) == 0);
        assert(seq![m][0] == m);
        assert(delta_sum(seq![m]) == m.delta());
        assert(i32::MIN <= a.value + delta_sum(a.mailbox.take(1)) <= i32::MAX);
        let b = applied(ActorView { mailbox: rest, ..a }, m);
        assert(b.value == a.value + m.delta());
        assert forall|k: int| 0 <= k <= rest.len() implies i32::MIN <= #[trigger] (b.value + delta_sum(rest.take(k))) <= i32::MAX by {
            assert(a.mailbox.take(k + 1).drop_first() =~= rest.take(k));
            assert(a.mailbox.take(k + 1)[0] == m);
            assert(i32::MIN <= a.value + delta_sum(a.mailbox.take(k + 1)) <= i32::MAX);
        }
        lemma_drained_value(b);
    }
}

/// An inactive actor that is switched back on applies everything it buffered:
/// its value becomes the old value plus the sum of the buffered changes.
pub proof fn lemma_toggle_applies_buffer(a: ActorView)
    requires
        a.state == ActorState::Inactive,
        totals_fit(a.value, a.mailbox),
    ensures
        toggled(a).state == ActorState::Active,
        toggled(a).value == a.value + delta_sum(a.mailbox),
        toggled(a).mailbox.len() == 0,
{
    let b = ActorView { state: ActorState::Active, ..a };
    lemma_drained_value(b);
    lemma_drained(b);
}

/// A mailbox holds as many messages as its capacity and no more: an inactive
/// actor with an empty mailbox takes that many, and refuses the next one with
/// `MailboxOverflow`, leaving the pool as it was.
pub proof fn lemma_mailbox_capacity(v: Seq<ActorView>, id: usize, ms: Seq<Message>, m: Message)
    requires
        pool_wf(v),
        id < v.len(),
        v[id as int].state == ActorState::Inactive,
        v[id as int].mailbox.len() == 0,
        ms.len() == MAILBOX_CAPACITY,
    ensures
        sent_all(v, id, ms)[id as int].mailbox == ms,
        send_walk(sent_all(v, id, ms), id, m, v.len()) == (
            sent_all(v, id, ms),
            Some(ActorError::MailboxOverflow(id)),
        ),
{
    lemma_inactive_buffers(v, id, ms);
    assert(v[id as int].mailbox + ms =~= ms);
}

/// Subscribing the same actor twice: the second call fails with
/// `ActorAlreadyExists` and changes nothing, so the target holds exactly one
/// edge to it.
pub proof fn lemma_duplicate_subscription(v: Seq<ActorView>, target: usize, s: usize)
    requires
        pool_wf(v),
        target < v.len(),
        subscribed(v, target, seq![s]).1 is None,
    ensures
        ({
            let v1 = subscribed(v, target, seq![s]).0;
            &&& !v[target as int].subs.contains(s)
            &&& v1[target as int].subs == v[target as int].subs.push(s)
            &&& subscribed(v1, target, seq![s]) == (v1, Some(ActorError::ActorAlreadyExists(s)))
        }),
{
    assert(seq![s].drop_last() =~= Seq::<usize>::empty());
    assert(seq![s].last() == s);
    assert(subscribed(v, target, Seq::<usize>::empty()) == (v, None::<ActorError>));
    let v1 = subscriber_added(v, target, s);
    assert(subscribed(v1, target, Seq::<usize>::empty()) == (v1, None::<ActorError>));
    assert(subscribed(v, target, seq![s]) == subscribe_step(v, target, s));
    assert(v1[target as int].subs.last() == s);
    assert(v1[target as int].subs.contains(s));
}

/// When every walk from `id` to `x` is one and the same, and every actor on it
/// is active, a delivery from `id` with enough depth applies the message to `x`
/// exactly once.
proof fn lemma_one_path_delivery(v: Seq<ActorView>, id: usize, x: usize, m: Message, depth: nat)
    requires
        pool_wf(v),
        x < v.len(),
        reachable(graph_of(v), id, x),
        one_path(graph_of(v), id, x),
        forall|y: usize|
            y < v.len() && reachable(graph_of(v), id, y) && reachable(graph_of(v), y, x) ==> #[trigger] v[y as int].state
                == ActorState::Active,
        forall|p: Seq<usize>| #[trigger] is_path(graph_of(v), p) && p[0] == id ==> p.len() <= depth,
    ensures
        send_walk(v, id, m, depth).0[x as int] == applied(v[x as int], m),
    decreases depth, 0nat,
{
    let g = graph_of(v);
    let p0 = choose|p: Seq<usize>| #[trigger] is_path(g, p) && p[0] == id && p.last() == x;
    let z: int = 0;
    assert(p0[z] < g.len());
    assert(is_path(g, seq![id]));
    lemma_reachable_refl(g, id);
    let a = v[id as int];
    let a0 = ActorView { mailbox: a.mailbox.push(m), ..a };
    assert(a.state == ActorState::Active);
    assert(a.mailbox.len() == 0);
    assert(a0.mailbox.drop_first() =~= a.mailbox);
    assert(ActorView { mailbox: a0.mailbox.drop_first(), ..a0 } == a);
    assert(a0.mailbox[0] == m);
    assert(applied(a, m).mailbox.len() == 0);
    assert(drained(applied(a, m)) == applied(a, m));
    assert(drained(a0) == applied(a, m));
    let v1 = v.update(id as int, applied(a, m));
    assert(graph_of(v1) =~= g);
    assert(pool_wf(v1)) by {
        assert forall|i: int| 0 <= i < v1.len() implies (#[trigger] v1[i]).id == i by {
            assert(v[i].id == i);
        }
        assert forall|i: int| 0 <= i < v1.len() implies (#[trigger] v1[i]).wf() by {
            assert(v[i].wf());
        }
        assert forall|i: int| 0 <= i < v1.len() && (#[trigger] v1[i]).state == ActorState::Active implies v1[i].mailbox.len() == 0 by {
            assert(v[i].state == v1[i].state);
        }
    }
    let subs = a.subs;
    assert(g[id as int] == subs);
    if x == id {
        lemma_fan_out_frame(v1, subs, m, (depth - 1) as nat, subs.len());
        assert forall|i: int| 0 <= i < subs.len() implies !reachable(graph_of(v1), #[trigger] subs[i], x) by {
            assert(edge(g, id, subs[i]));
        }
    } else {
        assert forall|i: int, p: Seq<usize>| 0 <= i < subs.len() && #[trigger] is_path(g, p) && p[0] == #[trigger] subs[i] implies p.len() <= (depth - 1) as nat by {
            assert(edge(g, id, subs[i]));
            lemma_path_concat(g, seq![id], p);
            assert((seq![id] + p)[0] == id);
        }
        assert forall|y: usize| y < v1.len() && reachable(g, id, y) && reachable(g, y, x) implies #[trigger] v1[y as int].state
            == ActorState::Active by {
            assert(v[y as int].state == ActorState::Active);
        }
        lemma_fan_out_one_path(v1, id, x, subs, m, (depth - 1) as nat, subs.len());
        let w = lemma_reachable_first(g, id, x);
        let i = choose|i: int| 0 <= i < subs.len() && subs[i] == w;
        assert(reachable(g, subs[i], x));
    }
}

/// The forwarding half of `lemma_one_path_delivery`: among the first `k`
/// subscribers of `id`, at most one leads to `x`, and `x` changes exactly when
/// one does.
proof fn lemma_fan_out_one_path(v: Seq<ActorView>, id: usize, x: usize, subs: Seq<usize>, m: Message, depth: nat, k: nat)
    requires
        pool_wf(v),
        id < v.len(),
        x < v.len(),
        x != id,
        subs == graph_of(v)[id as int],
        k <= subs.len(),
        reachable(graph_of(v), id, x),
        one_path(graph_of(v), id, x),
        forall|y: usize|
            y < v.len() && reachable(graph_of(v), id, y) && reachable(graph_of(v), y, x) ==> #[trigger] v[y as int].state
                == ActorState::Active,
        forall|i: int, p: Seq<usize>|
            0 <= i < subs.len() && #[trigger] is_path(graph_of(v), p) && p[0] == #[trigger] subs[i] ==> p.len() <= depth,
    ensures
        fan_out(v, subs, m, depth, k).0[x as int] == if exists|i: int|
            0 <= i < k && reachable(graph_of(v), #[trigger] subs[i], x) {
            applied(v[x as int], m)
        } else {
            v[x as int]
        },
    decreases depth, k,
{
    let g = graph_of(v);
    if k > 0 {
        lemma_fan_out_one_path(v, id, x, subs, m, depth, (k - 1) as nat);
        lemma_fan_out_frame(v, subs, m, depth, (k - 1) as nat);
        let v1 = fan_out(v, subs, m, depth, (k - 1) as nat).0;
        let c = subs[k - 1];
        assert(edge(g, id, c));
        assert(c < g.len());
        if reachable(g, c, x) {
            // no earlier subscriber leads to x: that would be a second walk
            assert forall|i: int| 0 <= i < k - 1 implies !reachable(g, #[trigger] subs[i], x) by {
                if reachable(g, subs[i], x) {
                    assert(g[id as int].no_duplicates());
                    assert(subs[i] != c);
                    assert(edge(g, id, subs[i]));
                    let q1 = choose|p: Seq<usize>| #[trigger] is_path(g, p) && p[0] == subs[i] && p.last() == x;
                    let q2 = choose|p: Seq<usize>| #[trigger] is_path(g, p) && p[0] == c && p.last() == x;
                    assert(is_path(g, seq![id]));
                    lemma_path_concat(g, seq![id], q1);
                    lemma_path_concat(g, seq![id], q2);
                    assert((seq![id] + q1)[1] == subs[i]);
                    assert((seq![id] + q2)[1] == c);
                    assert((seq![id] + q1)[0] == id && (seq![id] + q2)[0] == id);
                }
            }
            assert(v1[x as int] == v[x as int]);
            assert(is_path(g, seq![id]));
            assert forall|p: Seq<usize>, q: Seq<usize>|
                #[trigger] is_path(graph_of(v1), p) && #[trigger] is_path(graph_of(v1), q) && p[0] == c && q[0] == c
                    && p.last() == x && q.last() == x implies p == q by {
                lemma_path_concat(g, seq![id], p);
                lemma_path_concat(g, seq![id], q);
                assert((seq![id] + p)[0] == id && (seq![id] + q)[0] == id);
                assert((seq![id] + p).last() == x && (seq![id] + q).last() == x);
                assert((seq![id] + p).drop_first() =~= p);
                assert((seq![id] + q).drop_first() =~= q);
            }
            assert forall|y: usize|
                y < v1.len() && reachable(graph_of(v1), c, y) && reachable(graph_of(v1), y, x) implies #[trigger] v1[y as int].state
                    == ActorState::Active by {
                lemma_reachable_refl(g, id);
                lemma_reachable_step(g, id, id, c);
                lemma_reachable_trans(g, id, c, y);
                assert(v[y as int].state == ActorState::Active);
            }
            assert forall|p: Seq<usize>| #[trigger] is_path(graph_of(v1), p) && p[0] == c implies p.len() <= depth by {
                let j = k - 1;
                assert(is_path(g, p) && p[0] == subs[j]);
            }
            lemma_one_path_delivery(v1, c, x, m, depth);
            let j = k - 1;
            assert(reachable(g, subs[j], x));
        } else {
            lemma_send_walk_frame(v1, c, m, depth);
            if exists|i: int| 0 <= i < k && reachable(g, #[trigger] subs[i], x) {
                let i = choose|i: int| 0 <= i < k && reachable(g, #[trigger] subs[i], x);
                assert(i < k - 1);
            }
        }
    }
}

/// Subscribing keeps the pool well formed and changes only subscriber lists;
/// when it succeeds every id is a subscriber of the target afterwards.
pub proof fn lemma_subscribed_facts(v: Seq<ActorView>, target: usize, ids: Seq<usize>)
    requires
        pool_wf(v),
        target < v.len(),
    ensures
        ({
            let (v1, e) = subscribed(v, target, ids);
            &&& pool_wf(v1)
            &&& v1.len() == v.len()
            &&& forall|x: int|
                0 <= x < v.len() ==> (#[trigger] v1[x]).state == v[x].state && v1[x].value == v[x].value
                    && v1[x].mailbox == v[x].mailbox
            &&& e is None ==> forall|i: int| 0 <= i < ids.len() ==> v1[target as int].subs.contains(#[trigger] ids[i])
        }),
    decreases ids.len(),
{
    if ids.len() > 0 {
        let rest = ids.drop_last();
        lemma_subscribed_facts(v, target, rest);
        let (v0, e0) = subscribed(v, target, rest);
        if e0 is None {
            let x = ids.last();
            if x < v0.len() && !v0[target as int].subs.contains(x) && !cycle_from(
                graph_of(subscriber_added(v0, target, x)),
                target,
            ) {
                let v1 = subscriber_added(v0, target, x);
                let g0 = graph_of(v0);
                assert(graph_of(v1) =~= with_edge(g0, target, x));
                assert(g0[target as int] == v0[target as int].subs);
                lemma_edge_keeps_acyclic(g0, target, x);
                assert(pool_wf(v1)) by {
                    assert forall|i: int| 0 <= i < v1.len() implies (#[trigger] v1[i]).id == i by {
                        assert(v0[i].id == i);
                    }
                    assert forall|i: int| 0 <= i < v1.len() implies (#[trigger] v1[i]).wf() by {
                        assert(v0[i].wf());
                        assert(graph_of(v1)[i] == v1[i].subs);
                    }
                    assert forall|i: int| 0 <= i < v1.len() && (#[trigger] v1[i]).state == ActorState::Active implies v1[i].mailbox.len() == 0 by {
                        assert(v0[i].state == v1[i].state);
                    }
                }
                assert forall|i: int| 0 <= i < ids.len() implies v1[target as int].subs.contains(#[trigger] ids[i]) by {
                    let subs0 = v0[target as int].subs;
                    if i < ids.len() - 1 {
                        assert(rest[i] == ids[i]);
                        assert(subs0.contains(rest[i]));
                        let j = choose|j: int| 0 <= j < subs0.len() && subs0[j] == ids[i];
                        assert(subs0.push(x)[j] == ids[i]);
                    } else {
                        assert(subs0.push(x)[subs0.len() as int] == x);
                    }
                }
            }
        }
    }
}

/// After subscribing one or more actors to `target`, a message sent to the
/// active `target` is applied exactly once to it and exactly once to each new
/// active subscriber, in any pool (which never holds a cycle) where no new
/// subscriber can also be reached through another subscriber of `target`.
/// Where one can, it receives one copy along each path.
pub proof fn lemma_subscribe_then_send(v: Seq<ActorView>, target: usize, ids: Seq<usize>, m: Message)
    requires
        pool_wf(v),
        target < v.len(),
        ids.len() > 0,
        subscribed(v, target, ids).1 is None,
        v[target as int].state == ActorState::Active,
        forall|i: int| 0 <= i < ids.len() ==> v[#[trigger] ids[i] as int].state == ActorState::Active,
        forall|i: int, c: usize|
            0 <= i < ids.len() && #[trigger] edge(graph_of(subscribed(v, target, ids).0), target, c) && c != ids[i]
                ==> !reachable(graph_of(subscribed(v, target, ids).0), c, #[trigger] ids[i]),
    ensures
        ({
            let v1 = subscribed(v, target, ids).0;
            let v2 = send_walk(v1, target, m, v1.len()).0;
            &&& v2[target as int] == applied(v1[target as int], m)
            &&& forall|i: int| 0 <= i < ids.len() ==> v2[#[trigger] ids[i] as int] == applied(v1[ids[i] as int], m)
        }),
{
    lemma_subscribed_facts(v, target, ids);
    let v1 = subscribed(v, target, ids).0;
    let g = graph_of(v1);
    assert forall|p: Seq<usize>| #[trigger] is_path(g, p) && p[0] == target implies p.len() <= v1.len() by {
        lemma_path_short(g, p);
    }
    lemma_reachable_refl(g, target);
    // the target: the only walk from it to itself is itself
    assert forall|p: Seq<usize>, q: Seq<usize>|
        #[trigger] is_path(g, p) && #[trigger] is_path(g, q) && p[0] == target && q[0] == target && p.last() == target
            && q.last() == target implies p == q by {
        lemma_only_itself(g, target, p);
        lemma_only_itself(g, target, q);
    }
    assert forall|y: usize| y < v1.len() && reachable(g, target, y) && reachable(g, y, target) implies #[trigger] v1[y as int].state
        == ActorState::Active by {
        lemma_no_return(g, target, y);
    }
    lemma_one_path_delivery(v1, target, target, m, v1.len());
    assert forall|i: int| 0 <= i < ids.len() implies send_walk(v1, target, m, v1.len()).0[#[trigger] ids[i] as int]
        == applied(v1[ids[i] as int], m) by {
        let s = ids[i];
        assert(v1[target as int].subs.contains(s));
        assert(g[target as int] == v1[target as int].subs);
        assert(edge(g, target, s));
        assert(s < v1.len());
        lemma_reachable_step(g, target, target, s);
        assert forall|c: usize| #[trigger] edge(g, target, c) && c != s implies !reachable(g, c, s) by {
            assert(!reachable(g, c, ids[i]));
        }
        assert forall|p: Seq<usize>, q: Seq<usize>|
            #[trigger] is_path(g, p) && #[trigger] is_path(g, q) && p[0] == target && q[0] == target && p.last() == s
                && q.last() == s implies p == q by {
            lemma_only_direct(g, target, s, p);
            lemma_only_direct(g, target, s, q);
        }
        assert forall|y: usize| y < v1.len() && reachable(g, target, y) && reachable(g, y, s) implies #[trigger] v1[y as int].state
            == ActorState::Active by {
            if y != target {
                let w = lemma_reachable_first(g, target, y);
                lemma_reachable_trans(g, w, y, s);
                lemma_reachable_trans(g, s, y, s);
                if w != s {
                    assert(!reachable(g, w, s));
                }
                lemma_no_return(g, s, y);
                assert(v[s as int].state == ActorState::Active);
            }
        }
        lemma_one_path_delivery(v1, target, s, m, v1.len());
    }
}

} // verus!
