use std::collections::VecDeque;
use vstd::prelude::*;
use crate::actor::{
    Actor, ActorView, MAILBOX_CAPACITY, drained, fresh_actor, received, worked,
};
use crate::errors::ActorError;
use crate::graph::{acyclic, cycle_from, graph_wf, lemma_edge_keeps_acyclic, with_edge};
use crate::message::Message;
use crate::state::ActorState;

verus! {

/// The actors of one runtime, each stored under its id: the id of an actor is
/// its position in `actor_list`.
#[derive(Debug)]
pub struct ActorPool {
    pub actor_list: Vec<Actor>,
}

impl View for ActorPool {
    type V = Seq<ActorView>;

    open spec fn view(&self) -> Seq<ActorView> {
        self.actor_list@.map_values(|a: Actor| a@)
    }
}

/// The subscription graph of a pool: the subscriber list of each actor.
pub open spec fn graph_of(v: Seq<ActorView>) -> Seq<Seq<usize>> {
    Seq::new(v.len(), |i: int| v[i].subs)
}

/// What holds of every pool between operations: ids are positions, each actor
/// is well formed, subscriber lists are sound and form no cycle, mailboxes stay within their capacity, and
/// an active actor has applied everything it was sent.
pub open spec fn pool_wf(v: Seq<ActorView>) -> bool {
    &&& forall|i: int| 0 <= i < v.len() ==> (#[trigger] v[i]).id == i
    &&& forall|i: int| 0 <= i < v.len() ==> (#[trigger] v[i]).wf()
    &&& forall|i: int|
        0 <= i < v.len() && (#[trigger] v[i]).state == ActorState::Active ==> v[i].mailbox.len()
            == 0
    &&& graph_wf(graph_of(v))
    &&& acyclic(graph_of(v))
}

/// The first of two errors.
pub open spec fn first_error(e1: Option<ActorError>, e2: Option<ActorError>) -> Option<ActorError> {
    if e1 is Some {
        e1
    } else {
        e2
    }
}

/// Sending `m` to actor `id`: the actor receives it and, if it took it in,
/// forwards it to each of its subscribers in turn, who forward it further.
/// `depth` bounds how many actors a chain of forwards may pass; in a pool
/// without cycles a depth of the number of actors is never exhausted. The error
/// is the first one met, in the order in which actors were reached.
pub open spec fn send_walk(v: Seq<ActorView>, id: usize, m: Message, depth: nat) -> (Seq<ActorView>, Option<ActorError>)
    decreases depth, 0nat,
{
    if depth == 0 {
        (v, None)
    } else if id >= v.len() {
        (v, Some(ActorError::TargetActorNotFound(id)))
    } else {
        let (a, e) = received(v[id as int], m);
        if e is Some {
            (v, e)
        } else {
            fan_out(v.update(id as int, a), v[id as int].subs, m, (depth - 1) as nat, v[id as int].subs.len())
        }
    }
}

/// Forwarding `m` to the first `k` of `subs`, in order; the error is the first
/// one met.
pub open spec fn fan_out(v: Seq<ActorView>, subs: Seq<usize>, m: Message, depth: nat, k: nat) -> (Seq<ActorView>, Option<ActorError>)
    decreases depth, k,
{
    if k == 0 || k > subs.len() {
        (v, None)
    } else {
        let (v1, e1) = fan_out(v, subs, m, depth, (k - 1) as nat);
        let (v2, e2) = send_walk(v1, subs[k - 1], m, depth);
        (v2, first_error(e1, e2))
    }
}

/// The pool with `s` added last to the subscribers of `target`.
pub open spec fn subscriber_added(v: Seq<ActorView>, target: usize, s: usize) -> Seq<ActorView> {
    v.update(target as int, ActorView { subs: v[target as int].subs.push(s), ..v[target as int] })
}

/// One subscription: `s` must be a known actor not yet subscribed to `target`,
/// and the new edge must not make a cycle reachable from `target`; otherwise
/// the pool stays as it was and the error says why.
pub open spec fn subscribe_step(v: Seq<ActorView>, target: usize, s: usize) -> (Seq<ActorView>, Option<ActorError>) {
    if s >= v.len() {
        (v, Some(ActorError::TargetActorNotFound(s)))
    } else if v[target as int].subs.contains(s) {
        (v, Some(ActorError::ActorAlreadyExists(s)))
    } else if cycle_from(graph_of(subscriber_added(v, target, s)), target) {
        (v, Some(ActorError::CyclicSubscription(target, s)))
    } else {
        (subscriber_added(v, target, s), None)
    }
}

/// The first id of `ids`, from position `i` on, that names no actor of a pool
/// of `n` actors.
pub open spec fn first_unknown(ids: Seq<usize>, n: nat, i: int) -> Option<usize>
    decreases ids.len() - i,
{
    if i < 0 || i >= ids.len() {
        None
    } else if ids[i] >= n {
        Some(ids[i])
    } else {
        first_unknown(ids, n, i + 1)
    }
}

/// Subscribing `ids` to `target` one after the other, stopping at the first
/// failure; the subscriptions made before it stay.
pub open spec fn subscribed(v: Seq<ActorView>, target: usize, ids: Seq<usize>) -> (Seq<ActorView>, Option<ActorError>)
    decreases ids.len(),
{
    if ids.len() == 0 {
        (v, None)
    } else {
        let (v1, e) = subscribed(v, target, ids.drop_last());
        if e is Some {
            (v1, e)
        } else {
            subscribe_step(v1, target, ids.last())
        }
    }
}

/// Once a subscription fails, the ids after it change nothing.
pub proof fn lemma_subscribed_stops(v: Seq<ActorView>, target: usize, ids: Seq<usize>, k: int)
    requires
        0 <= k <= ids.len(),
        subscribed(v, target, ids.take(k)).1 is Some,
    ensures
        subscribed(v, target, ids) == subscribed(v, target, ids.take(k)),
    decreases ids.len(),
{
    if ids.len() > k {
        assert(ids.drop_last().take(k) == ids.take(k));
        lemma_subscribed_stops(v, target, ids.drop_last(), k);
    } else {
        assert(ids.take(k) == ids);
    }
}

/// Carrying out a list of pending deliveries, front first: each entry is an
/// actor and the depth that forwarding from it may still reach. The error is the
/// first one met.
pub open spec fn run_work(v: Seq<ActorView>, work: Seq<(usize, usize)>, m: Message) -> (Seq<ActorView>, Option<ActorError>)
    decreases work.len(),
{
    if work.len() == 0 {
        (v, None)
    } else {
        let (v1, e1) = send_walk(v, work[0].0, m, work[0].1 as nat);
        let (v2, e2) = run_work(v1, work.drop_first(), m);
        (v2, first_error(e1, e2))
    }
}

/// The pending deliveries to each of `subs`, in order, with the same depth.
pub open spec fn frames(subs: Seq<usize>, depth: usize) -> Seq<(usize, usize)> {
    subs.map_values(|x: usize| (x, depth))
}

/// How many deliveries `send_walk` makes from `x` with depth `d` over the
/// graph `g`, counting those that stop at once.
pub open spec fn walk_size(g: Seq<Seq<usize>>, x: usize, d: nat) -> nat
    decreases d, 0nat,
{
    if d == 0 || x >= g.len() {
        1
    } else {
        1 + subs_size(g, g[x as int], (d - 1) as nat, g[x as int].len())
    }
}

pub open spec fn subs_size(g: Seq<Seq<usize>>, subs: Seq<usize>, d: nat, k: nat) -> nat
    decreases d, k,
{
    if k == 0 || k > subs.len() {
        0
    } else {
        subs_size(g, subs, d, (k - 1) as nat) + walk_size(g, subs[k - 1], d)
    }
}

/// How many deliveries a list of pending ones still makes.
pub open spec fn work_size(g: Seq<Seq<usize>>, work: Seq<(usize, usize)>) -> nat
    decreases work.len(),
{
    if work.len() == 0 {
        0
    } else {
        walk_size(g, work[0].0, work[0].1 as nat) + work_size(g, work.drop_first())
    }
}

pub proof fn lemma_run_work_append(v: Seq<ActorView>, w1: Seq<(usize, usize)>, w2: Seq<(usize, usize)>, m: Message)
    ensures
        run_work(v, w1 + w2, m) == ({
            let (v1, e1) = run_work(v, w1, m);
            let (v2, e2) = run_work(v1, w2, m);
            (v2, first_error(e1, e2))
        }),
    decreases w1.len(),
{
    if w1.len() == 0 {
        assert(w1 + w2 =~= w2);
    } else {
        assert((w1 + w2).drop_first() =~= w1.drop_first() + w2);
        assert((w1 + w2)[0] == w1[0]);
        lemma_run_work_append(send_walk(v, w1[0].0, m, w1[0].1 as nat).0, w1.drop_first(), w2, m);
    }
}

pub proof fn lemma_work_size_append(g: Seq<Seq<usize>>, w1: Seq<(usize, usize)>, w2: Seq<(usize, usize)>)
    ensures
        work_size(g, w1 + w2) == work_size(g, w1) + work_size(g, w2),
    decreases w1.len(),
{
    if w1.len() == 0 {
        assert(w1 + w2 =~= w2);
    } else {
        assert((w1 + w2).drop_first() =~= w1.drop_first() + w2);
        assert((w1 + w2)[0] == w1[0]);
        lemma_work_size_append(g, w1.drop_first(), w2);
    }
}

/// Forwarding to a list of subscribers is carrying out one pending delivery
/// for each, and makes as many deliveries as they add up to.
pub proof fn lemma_fan_out_as_work(g: Seq<Seq<usize>>, v: Seq<ActorView>, subs: Seq<usize>, m: Message, d: usize, k: nat)
    requires
        k <= subs.len(),
    ensures
        fan_out(v, subs, m, d as nat, k) == run_work(v, frames(subs.take(k as int), d), m),
        subs_size(g, subs, d as nat, k) == work_size(g, frames(subs.take(k as int), d)),
    decreases k,
{
    if k == 0 {
        assert(frames(subs.take(0), d) =~= Seq::<(usize, usize)>::empty());
    } else {
        lemma_fan_out_as_work(g, v, subs, m, d, (k - 1) as nat);
        let w1 = frames(subs.take(k - 1), d);
        let w2 = seq![(subs[k - 1], d)];
        assert(frames(subs.take(k as int), d) =~= w1 + w2);
        lemma_run_work_append(v, w1, w2, m);
        lemma_work_size_append(g, w1, w2);
        let v1 = run_work(v, w1, m).0;
        assert(w2.drop_first() =~= Seq::<(usize, usize)>::empty());
        assert(run_work(send_walk(v1, subs[k - 1], m, d as nat).0, w2.drop_first(), m) == (
            send_walk(v1, subs[k - 1], m, d as nat).0,
            None::<ActorError>,
        ));
        assert(work_size(g, w2.drop_first()) == 0);
    }
}

/// The actor after its state is flipped and its worker has run.
pub open spec fn toggled(a: ActorView) -> ActorView {
    worked(ActorView { state: a.state.flipped(), ..a })
}

pub proof fn lemma_drained(a: ActorView)
    ensures
        drained(a).id == a.id,
        drained(a).state == a.state,
        drained(a).subs == a.subs,
        drained(a).mailbox.len() == 0,
    decreases a.mailbox.len(),
{
    if a.mailbox.len() > 0 {
        lemma_drained(crate::actor::applied(ActorView { mailbox: a.mailbox.drop_first(), ..a }, a.mailbox[0]));
    }
}

impl ActorPool {
    pub open spec fn wf(&self) -> bool {
        pool_wf(self@)
    }

    /// An empty pool.
    pub fn new() -> (r: ActorPool)
        ensures
            r.wf(),
            r@.len() == 0,
    {
        let r = ActorPool { actor_list: Vec::new() };
        assert(r@ =~= Seq::<ActorView>::empty());
        r
    }

    /// Adds a fresh actor and returns its id, the next unused one.
    pub fn create_actor(&mut self) -> (r: usize)
        requires
            old(self).wf(),
            old(self)@.len() < usize::MAX,
        ensures
            final(self).wf(),
            r == old(self)@.len(),
            final(self)@ == old(self)@.push(fresh_actor(r as nat)),
    {
        let id = self.actor_list.len();
        let actor = Actor::new(id);
        self.actor_list.push(actor);
        assert(self@ =~= old(self)@.push(fresh_actor(id as nat)));
        let ghost g0 = graph_of(old(self)@);
        let ghost g1 = graph_of(self@);
        assert(g1 =~= g0.push(Seq::empty()));
        proof {
            crate::graph::lemma_graph_extended(g0, g1);
        }
        id
    }

    /// The actor with this id.
    pub fn get_actor_info(&self, actor_id: usize) -> (r: Result<&Actor, ActorError>)
        ensures
            actor_id < self@.len() ==> r is Ok && r->Ok_0@ == self@[actor_id as int],
            actor_id >= self@.len() ==> r == Err::<&Actor, ActorError>(
                ActorError::TargetActorNotFound(actor_id),
            ),
    {
        if actor_id < self.actor_list.len() {
            Ok(&self.actor_list[actor_id])
        } else {
            Err(ActorError::TargetActorNotFound(actor_id))
        }
    }

    pub fn get_actor_state(&self, actor_id: usize) -> (r: Result<ActorState, ActorError>)
        ensures
            actor_id < self@.len() ==> r == Ok::<ActorState, ActorError>(
                self@[actor_id as int].state,
            ),
            actor_id >= self@.len() ==> r == Err::<ActorState, ActorError>(
                ActorError::TargetActorNotFound(actor_id),
            ),
    {
        let actor = self.get_actor_info(actor_id)?;
        Ok(actor.get_state())
    }

    pub fn get_actor_value(&self, actor_id: usize) -> (r: Result<i32, ActorError>)
        ensures
            actor_id < self@.len() ==> r is Ok && r->Ok_0 as int == self@[actor_id as int].value,
            actor_id >= self@.len() ==> r == Err::<i32, ActorError>(
                ActorError::TargetActorNotFound(actor_id),
            ),
    {
        let actor = self.get_actor_info(actor_id)?;
        Ok(actor.get_value())
    }

    /// The subscriber ids of the actor, each once, in the order in which they
    /// subscribed.
    pub fn get_actor_subscribers(&self, actor_id: usize) -> (r: Result<Vec<usize>, ActorError>)
        requires
            self.wf(),
        ensures
            actor_id < self@.len() ==> r is Ok && r->Ok_0@ == self@[actor_id as int].subs
                && r->Ok_0@.no_duplicates(),
            actor_id >= self@.len() ==> r == Err::<Vec<usize>, ActorError>(
                ActorError::TargetActorNotFound(actor_id),
            ),
    {
        let actor = self.get_actor_info(actor_id)?;
        assert(self@[actor_id as int].wf());
        Ok(actor.get_subscribers())
    }

    /// Flips the actor between active and inactive and returns the new state.
    /// An actor that becomes active applies what it buffered meanwhile.
    pub fn update_actor_state(&mut self, actor_id: usize) -> (r: Result<ActorState, ActorError>)
        requires
            old(self).wf(),
        ensures
            final(self).wf(),
            actor_id < old(self)@.len() ==> r == Ok::<ActorState, ActorError>(
                old(self)@[actor_id as int].state.flipped(),
            ) && final(self)@ == old(self)@.update(
                actor_id as int,
                toggled(old(self)@[actor_id as int]),
            ),
            actor_id >= old(self)@.len() ==> r == Err::<ActorState, ActorError>(
                ActorError::TargetActorNotFound(actor_id),
            ) && final(self)@ == old(self)@,
    {
        if actor_id >= self.actor_list.len() {
            return Err(ActorError::TargetActorNotFound(actor_id));
        }
        let ghost before = self@;
        let actor = &mut self.actor_list[actor_id];
        let new_state = match actor.state {
            ActorState::Active => ActorState::Inactive,
            ActorState::Inactive => ActorState::Active,
        };
        actor.state = new_state;
        actor.execute_messages();
        proof {
            lemma_drained(ActorView { state: new_state, ..before[actor_id as int] });
        }
        assert(self@ =~= before.update(actor_id as int, toggled(before[actor_id as int])));
        assert(graph_of(self@) =~= graph_of(before));
        Ok(new_state)
    }

    /// Delivers `m` to actor `id` and forwards it along the subscriptions, at
    /// most `depth` actors deep. The deliveries still to make are kept in a
    /// list, the next one first, rather than on the call stack.
    fn deliver(&mut self, id: usize, m: Message, depth: usize) -> (r: Result<(), ActorError>)
        requires
            old(self).wf(),
        ensures
            final(self).wf(),
            (final(self)@, r.err()) == send_walk(old(self)@, id, m, depth as nat),
    {
        let ghost g = graph_of(self@);
        let ghost start = self@;
        let n = self.actor_list.len();
        let mut work: VecDeque<(usize, usize)> = VecDeque::new();
        work.push_back((id, depth));
        let mut first: Result<(), ActorError> = Ok(());
        proof {
            let w = work@;
            assert(w.drop_first() =~= Seq::<(usize, usize)>::empty());
            assert(w[0] == (id, depth));
            assert(run_work(send_walk(start, id, m, depth as nat).0, w.drop_first(), m).1 is None);
        }
        loop
            invariant
                self.wf(),
                graph_of(self@) == g,
                self@.len() == n,
                n == start.len(),
                start == old(self)@,
                ({
                    let (vf, ef) = run_work(self@, work@, m);
                    (vf, first_error(first.err(), ef))
                }) == send_walk(start, id, m, depth as nat),
            ensures
                work@.len() == 0,
            decreases work_size(g, work@),
        {
            let ghost before = self@;
            let ghost pending = work@;
            let (x, d) = match work.pop_front() {
                Some(frame) => frame,
                None => {
                    break ;
                },
            };
            let ghost rest = work@;
            assert(pending[0] == (x, d) && pending.drop_first() == rest);
            if d == 0 {
            } else if x >= n {
                if first.is_ok() {
                    first = Err(ActorError::TargetActorNotFound(x));
                }
            } else {
                let taken = self.actor_list[x].send_message(m);
                match taken {
                    Err(e) => {
                        assert(self@ =~= before);
                        if first.is_ok() {
                            first = Err(e);
                        }
                    },
                    Ok(()) => {
                        proof {
                            let a = before[x as int];
                            lemma_drained(ActorView { mailbox: a.mailbox.push(m), ..a });
                        }
                        assert(self@ =~= before.update(x as int, received(before[x as int], m).0));
                        assert(graph_of(self@) =~= graph_of(before));
                        let subs = &self.actor_list[x].subs;
                        assert(subs@ == g[x as int]);
                        let mut j: usize = subs.len();
                        while j > 0
                            invariant
                                j <= subs@.len(),
                                d > 0,
                                work@ == frames(subs@.subrange(j as int, subs@.len() as int), (d - 1) as usize) + rest,
                            decreases j,
                        {
                            j = j - 1;
                            work.push_front((subs[j], d - 1));
                            assert(work@ =~= frames(subs@.subrange(j as int, subs@.len() as int), (d - 1) as usize) + rest);
                        }
                        proof {
                            let k = subs@.len();
                            assert(subs@.subrange(0, k as int) =~= subs@);
                            assert(subs@.take(k as int) =~= subs@);
                            lemma_fan_out_as_work(g, self@, subs@, m, (d - 1) as usize, k);
                            lemma_run_work_append(self@, frames(subs@, (d - 1) as usize), rest, m);
                            lemma_work_size_append(g, frames(subs@, (d - 1) as usize), rest);
                        }
                    },
                }
            }
        }
        first
    }

    /// Sends `message` to the actor: it is queued (or refused when the mailbox
    /// is full), applied at once when the actor is active, and forwarded along
    /// the subscriptions. The error is the first one met; a failure at one
    /// subscriber does not stop delivery to the others.
    pub fn message_loop(&mut self, actor_id: usize, message: Message) -> (r: Result<(), ActorError>)
        requires
            old(self).wf(),
        ensures
            final(self).wf(),
            actor_id < old(self)@.len() ==> (final(self)@, r.err()) == send_walk(
                old(self)@,
                actor_id,
                message,
                old(self)@.len(),
            ),
            actor_id >= old(self)@.len() ==> r == Err::<(), ActorError>(
                ActorError::TargetActorNotFound(actor_id),
            ) && final(self)@ == old(self)@,
    {
        if actor_id >= self.actor_list.len() {
            return Err(ActorError::TargetActorNotFound(actor_id));
        }
        let depth = self.actor_list.len();
        self.deliver(actor_id, message, depth)
    }

    /// Subscribes each of `subscriber_actor_ids`, in order, to the target and
    /// returns the target. The target and every subscriber id are looked up
    /// first: if one is unknown, the call fails with the first such id and
    /// changes nothing. Otherwise it fails, keeping the subscriptions already
    /// made, at the first id that is already subscribed or whose subscription
    /// the breadth-first guard rejects because it would close a cycle.
    pub fn subscribe(&mut self, target_actor_id: usize, subscriber_actor_ids: Vec<usize>) -> (r: Result<&Actor, ActorError>)
        requires
            old(self).wf(),
        ensures
            final(self).wf(),
            target_actor_id >= old(self)@.len() ==> r == Err::<&Actor, ActorError>(
                ActorError::TargetActorNotFound(target_actor_id),
            ) && final(self)@ == old(self)@,
            target_actor_id < old(self)@.len() && first_unknown(subscriber_actor_ids@, old(self)@.len(), 0)
                is Some ==> r == Err::<&Actor, ActorError>(
                ActorError::TargetActorNotFound(
                    first_unknown(subscriber_actor_ids@, old(self)@.len(), 0)->Some_0,
                ),
            ) && final(self)@ == old(self)@,
            target_actor_id < old(self)@.len() && first_unknown(subscriber_actor_ids@, old(self)@.len(), 0)
                is None ==> {
                let (v, e) = subscribed(old(self)@, target_actor_id, subscriber_actor_ids@);
                &&& final(self)@ == v
                &&& match r {
                    Ok(a) => e is None && a@ == v[target_actor_id as int],
                    Err(x) => e == Some(x),
                }
            },
    {
        let target = target_actor_id;
        if target >= self.actor_list.len() {
            return Err(ActorError::TargetActorNotFound(target));
        }
        let n = self.actor_list.len();
        let mut k: usize = 0;
        while k < subscriber_actor_ids.len()
            invariant
                k <= subscriber_actor_ids@.len(),
                n == self@.len(),
                self@ == old(self)@,
                self.wf(),
                target == target_actor_id,
                target < n,
                first_unknown(subscriber_actor_ids@, n as nat, 0) == first_unknown(
                    subscriber_actor_ids@,
                    n as nat,
                    k as int,
                ),
            decreases subscriber_actor_ids@.len() - k,
        {
            if subscriber_actor_ids[k] >= n {
                return Err(ActorError::TargetActorNotFound(subscriber_actor_ids[k]));
            }
            k = k + 1;
        }
        assert(first_unknown(subscriber_actor_ids@, n as nat, k as int) is None);
        let ghost start = self@;
        let mut i: usize = 0;
        while i < subscriber_actor_ids.len()
            invariant
                self.wf(),
                target < self@.len(),
                target == target_actor_id,
                start == old(self)@,
                self@.len() == start.len(),
                first_unknown(subscriber_actor_ids@, start.len(), 0) is None,
                i <= subscriber_actor_ids@.len(),
                (self@, None::<ActorError>) == subscribed(
                    start,
                    target,
                    subscriber_actor_ids@.take(i as int),
                ),
            decreases subscriber_actor_ids@.len() - i,
        {
            let s = subscriber_actor_ids[i];
            let ghost before = self@;
            assert(subscriber_actor_ids@.take(i + 1).drop_last() == subscriber_actor_ids@.take(i as int));
            if s >= self.actor_list.len() {
                proof {
                    lemma_subscribed_stops(start, target, subscriber_actor_ids@, i + 1);
                }
                return Err(ActorError::TargetActorNotFound(s));
            }
            let added = self.actor_list[target].add_subscriber(s);
            if added.is_err() {
                assert(self@ =~= before);
                proof {
                    lemma_subscribed_stops(start, target, subscriber_actor_ids@, i + 1);
                }
                return Err(ActorError::ActorAlreadyExists(s));
            }
            assert(self@ =~= subscriber_added(before, target, s));
            assert(graph_of(self@) =~= with_edge(graph_of(before), target, s));
            proof {
                let g = graph_of(before);
                assert(g[target as int] == before[target as int].subs);
                assert forall|a: int| 0 <= a < graph_of(self@).len() implies {
                    &&& (#[trigger] graph_of(self@)[a]).no_duplicates()
                    &&& forall|j: int| 0 <= j < graph_of(self@)[a].len() ==> graph_of(self@)[a][j] < graph_of(self@).len()
                } by {
                    let g2 = graph_of(self@);
                    if a == target {
                        assert(g[a].no_duplicates());
                        assert forall|x: int, y: int| 0 <= x < y < g2[a].len() implies g2[a][x] != g2[a][y] by {
                            if y == g2[a].len() - 1 {
                                assert(g2[a][x] == g[a][x]);
                            }
                        }
                        assert forall|j: int| 0 <= j < g2[a].len() implies g2[a][j] < g2.len() by {
                            if j < g[a].len() {
                                assert(g2[a][j] == g[a][j]);
                            }
                        }
                    }
                }
            }
            let cyclic = self.detect_cycle_bfs(target);
            if matches!(cyclic, Ok(true)) {
                let removed = self.actor_list[target].remove_subscriber(s);
                proof {
                    let old_subs = before[target as int].subs;
                    let new_subs = old_subs.push(s);
                    assert(new_subs[new_subs.len() - 1] == s);
                    assert(new_subs.contains(s));
                    new_subs.index_of_first_ensures(s);
                    let k = new_subs.index_of_first(s)->Some_0;
                    if k < old_subs.len() {
                        assert(new_subs[k] == old_subs[k]);
                        assert(old_subs.contains(s));
                    }
                    assert(new_subs.remove_value(s) =~= old_subs);
                }
                assert(self@ =~= before);
                proof {
                    lemma_subscribed_stops(start, target, subscriber_actor_ids@, i + 1);
                }
                return Err(ActorError::CyclicSubscription(target, s));
            }
            proof {
                lemma_edge_keeps_acyclic(graph_of(before), target, s);
            }
            i = i + 1;
        }
        assert(subscriber_actor_ids@.take(i as int) =~= subscriber_actor_ids@);
        Ok(&self.actor_list[target])
    }
}

impl Default for ActorPool {
    fn default() -> (r: ActorPool)
        ensures
            r.wf(),
            r@.len() == 0,
    {
        ActorPool::new()
    }
}

} // verus!
