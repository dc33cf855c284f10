use std::collections::VecDeque;
use vstd::prelude::*;
use crate::errors::ActorError;
use crate::message::Message;
use crate::state::ActorState;

verus! {

/// How many messages a mailbox holds at most.
pub const MAILBOX_CAPACITY: usize = 10;

/// The value a new actor starts with.
pub const INITIAL_VALUE: i32 = 0;

/// An actor: an integer value, a state, a bounded mailbox and the ids of the
/// actors that each delivered message is forwarded to.
#[derive(Debug)]
pub struct Actor {
    pub id: usize,
    pub state: ActorState,
    pub value: i32,
    /// Subscriber ids, in the order in which they subscribed.
    pub subs: Vec<usize>,
    /// Messages waiting to be applied, oldest first.
    pub mailbox: VecDeque<Message>,
    /// Messages taken from the mailbox that could not be applied, in order.
    pub rejected: Vec<Message>,
}

/// The mathematical content of an actor.
pub struct ActorView {
    pub id: nat,
    pub state: ActorState,
    pub value: int,
    pub subs: Seq<usize>,
    pub mailbox: Seq<Message>,
    pub rejected: Seq<Message>,
}

impl View for Actor {
    type V = ActorView;

    open spec fn view(&self) -> ActorView {
        ActorView {
            id: self.id as nat,
            state: self.state,
            value: self.value as int,
            subs: self.subs@,
            mailbox: self.mailbox@,
            rejected: self.rejected@,
        }
    }
}

impl ActorView {
    /// Each subscriber is listed once and the mailbox is within its capacity.
    pub open spec fn wf(self) -> bool {
        &&& self.subs.no_duplicates()
        &&& self.mailbox.len() <= MAILBOX_CAPACITY
    }
}

/// A fresh actor with the given id.
pub open spec fn fresh_actor(id: nat) -> ActorView {
    ActorView {
        id,
        state: ActorState::Active,
        value: INITIAL_VALUE as int,
        subs: Seq::empty(),
        mailbox: Seq::empty(),
        rejected: Seq::empty(),
    }
}

/// The actor after it applies `m`: the value changes when the result fits,
/// else the message is recorded as rejected.
pub open spec fn applied(a: ActorView, m: Message) -> ActorView {
    match m.applied_to(a.value) {
        Some(v) => ActorView { value: v, ..a },
        None => ActorView { rejected: a.rejected.push(m), ..a },
    }
}

/// The actor after it applies its whole mailbox, oldest message first.
pub open spec fn drained(a: ActorView) -> ActorView
    decreases a.mailbox.len(),
{
    if a.mailbox.len() == 0 {
        a
    } else {
        drained(applied(ActorView { mailbox: a.mailbox.drop_first(), ..a }, a.mailbox[0]))
    }
}

/// What the actor's worker makes of the actor: it drains the mailbox only while
/// the actor is active.
pub open spec fn worked(a: ActorView) -> ActorView {
    if a.state == ActorState::Active {
        drained(a)
    } else {
        a
    }
}

/// The actor after `m` arrives, and the error if it was turned away: a full
/// mailbox refuses it; otherwise it is queued last and the worker runs.
pub open spec fn received(a: ActorView, m: Message) -> (ActorView, Option<ActorError>) {
    if a.mailbox.len() >= MAILBOX_CAPACITY {
        (a, Some(ActorError::MailboxOverflow(a.id as usize)))
    } else {
        (worked(ActorView { mailbox: a.mailbox.push(m), ..a }), None)
    }
}

impl Actor {
    pub open spec fn wf(&self) -> bool {
        self@.wf()
    }

    /// A new active actor with value 0, an empty mailbox and no subscribers.
    pub fn new(id: usize) -> (r: Actor)
        ensures
            r@ == fresh_actor(id as nat),
            r.wf(),
    {
        Actor {
            id,
            state: ActorState::Active,
            value: INITIAL_VALUE,
            subs: Vec::new(),
            mailbox: VecDeque::with_capacity(MAILBOX_CAPACITY),
            rejected: Vec::new(),
        }
    }

    pub fn get_id(&self) -> (r: usize)
        ensures
            r == self.id,
    {
        self.id
    }

    pub fn get_state(&self) -> (r: ActorState)
        ensures
            r == self.state,
    {
        self.state
    }

    pub fn get_value(&self) -> (r: i32)
        ensures
            r == self.value,
    {
        self.value
    }

    pub fn set_value(&mut self, value: i32)
        ensures
            final(self)@ == (ActorView { value: value as int, ..old(self)@ }),
    {
        self.value = value;
    }

    /// The subscriber ids, each once, in the order in which they subscribed.
    pub fn get_subscribers(&self) -> (r: Vec<usize>)
        requires
            self.wf(),
        ensures
            r@ == self.subs@,
            r@.no_duplicates(),
    {
        self.subs.clone()
    }

    /// Stores `new_value` if there is one; otherwise reports `m` as invalid and
    /// leaves the actor as it was.
    fn update_value(&mut self, new_value: Option<i32>, m: Message) -> (r: Result<(), ActorError>)
        ensures
            match new_value {
                Some(v) => r is Ok && final(self)@ == (ActorView { value: v as int, ..old(self)@ }),
                None => r == Err::<(), ActorError>(ActorError::InvalidMessage(m)) && final(self)@
                    == old(self)@,
            },
    {
        match new_value {
            Some(v) => {
                self.set_value(v);
                Ok(())
            },
            None => Err(ActorError::InvalidMessage(m)),
        }
    }

    /// Adds `n` to the value, failing when the sum leaves the `i32` range.
    pub fn increment(&mut self, n: i32) -> (r: Result<(), ActorError>)
        ensures
            match Message::Increment(n).applied_to(old(self).value as int) {
                Some(v) => r is Ok && final(self)@ == (ActorView { value: v, ..old(self)@ }),
                None => r == Err::<(), ActorError>(ActorError::InvalidMessage(Message::Increment(n)))
                    && final(self)@ == old(self)@,
            },
    {
        let sum = self.value.checked_add(n);
        self.update_value(sum, Message::Increment(n))
    }

    /// Subtracts `n` from the value, failing when the difference leaves the
    /// `i32` range.
    pub fn decrement(&mut self, n: i32) -> (r: Result<(), ActorError>)
        ensures
            match Message::Decrement(n).applied_to(old(self).value as int) {
                Some(v) => r is Ok && final(self)@ == (ActorView { value: v, ..old(self)@ }),
                None => r == Err::<(), ActorError>(ActorError::InvalidMessage(Message::Decrement(n)))
                    && final(self)@ == old(self)@,
            },
    {
        let difference = self.value.checked_sub(n);
        self.update_value(difference, Message::Decrement(n))
    }

    /// Applies one message to the value.
    pub fn handle_message(&mut self, message: Message) -> (r: Result<(), ActorError>)
        requires
            old(self).wf(),
        ensures
            final(self).wf(),
            match message.applied_to(old(self).value as int) {
                Some(v) => r is Ok && final(self)@ == (ActorView { value: v, ..old(self)@ }),
                None => r == Err::<(), ActorError>(ActorError::InvalidMessage(message))
                    && final(self)@ == old(self)@,
            },
    {
        match message {
            Message::Increment(n) => self.increment(n),
            Message::Decrement(n) => self.decrement(n),
        }
    }

    /// The worker: while the actor is active, applies the mailbox oldest first
    /// and records each message that could not be applied.
    pub fn execute_messages(&mut self)
        requires
            old(self).wf(),
        ensures
            final(self).wf(),
            final(self)@ == worked(old(self)@),
    {
        if self.state == ActorState::Inactive {
            return ;
        }
        while self.mailbox.len() > 0
            invariant
                self.state == ActorState::Active,
                self.wf(),
                drained(self@) == drained(old(self)@),
            decreases self.mailbox@.len(),
        {
            let m = self.mailbox.pop_front().unwrap();
            match self.handle_message(m) {
                Ok(()) => {},
                Err(_) => {
                    self.rejected.push(m);
                },
            }
        }
        assert(drained(self@) == self@);
    }

    /// Puts `message` last in the mailbox and lets the worker run; refuses it
    /// when the mailbox is full. This concerns the actor alone: the actor holds
    /// its subscribers as ids, so forwarding a copy to each of them, and going
    /// on past one that fails, is done by the pool that owns them all
    /// (`ActorPool::message_loop`).
    pub fn send_message(&mut self, message: Message) -> (r: Result<(), ActorError>)
        requires
            old(self).wf(),
        ensures
            final(self).wf(),
            (final(self)@, r.err()) == received(old(self)@, message),
    {
        if self.mailbox.len() >= MAILBOX_CAPACITY {
            return Err(ActorError::MailboxOverflow(self.id));
        }
        self.mailbox.push_back(message);
        self.execute_messages();
        Ok(())
    }

    /// Adds `id` to the subscribers, unless it is there already.
    pub fn add_subscriber(&mut self, id: usize) -> (r: Result<(), ActorError>)
        requires
            old(self).wf(),
        ensures
            final(self).wf(),
            old(self).subs@.contains(id) ==> r == Err::<(), ActorError>(
                ActorError::ActorAlreadyExists(id),
            ) && final(self)@ == old(self)@,
            !old(self).subs@.contains(id) ==> r is Ok && final(self)@ == (ActorView {
                subs: old(self).subs@.push(id),
                ..old(self)@
            }),
    {
        let mut i: usize = 0;
        while i < self.subs.len()
            invariant
                i <= self.subs@.len(),
                self.wf(),
                self@ == old(self)@,
                forall|j: int| 0 <= j < i ==> self.subs@[j] != id,
            decreases self.subs@.len() - i,
        {
            if self.subs[i] == id {
                return Err(ActorError::ActorAlreadyExists(id));
            }
            i = i + 1;
        }
        let ghost before = self.subs@;
        self.subs.push(id);
        assert forall|x: int, y: int| 0 <= x < y < self.subs@.len() implies self.subs@[x] != self.subs@[y] by {
            if y < before.len() {
                assert(before[x] != before[y]);
            }
        }
        Ok(())
    }

    /// Takes `id` out of the subscribers and says whether it was there.
    fn update_subscription(&mut self, id: usize) -> (r: bool)
        ensures
            r == old(self).subs@.contains(id),
            old(self).wf() ==> final(self).wf(),
            r ==> final(self)@ == (ActorView {
                subs: old(self).subs@.remove_value(id),
                ..old(self)@
            }),
            !r ==> final(self)@ == old(self)@,
    {
        let mut i: usize = 0;
        while i < self.subs.len()
            invariant
                i <= self.subs@.len(),
                self@ == old(self)@,
                forall|j: int| 0 <= j < i ==> self.subs@[j] != id,
            decreases self.subs@.len() - i,
        {
            if self.subs[i] == id {
                proof {
                    self.subs@.index_of_first_ensures(id);
                }
                let ghost before = self.subs@;
                self.subs.remove(i);
                proof {
                    if before.no_duplicates() {
                        assert forall|x: int, y: int| 0 <= x < y < self.subs@.len() implies self.subs@[x] != self.subs@[y] by {
                            let x0 = if x < i { x } else { x + 1 };
                            let y0 = if y < i { y } else { y + 1 };
                            assert(self.subs@[x] == before[x0] && self.subs@[y] == before[y0]);
                        }
                    }
                }
                return true;
            }
            i = i + 1;
        }
        false
    }

    /// Takes `id` out of the subscribers; fails when it is not one of them.
    pub fn remove_subscriber(&mut self, id: usize) -> (r: Result<(), ActorError>)
        requires
            old(self).wf(),
        ensures
            final(self).wf(),
            old(self).subs@.contains(id) ==> r is Ok && final(self)@ == (ActorView {
                subs: old(self).subs@.remove_value(id),
                ..old(self)@
            }),
            !old(self).subs@.contains(id) ==> r == Err::<(), ActorError>(
                ActorError::TargetActorNotFound(id),
            ) && final(self)@ == old(self)@,
    {
        if self.update_subscription(id) {
            Ok(())
        } else {
            Err(ActorError::TargetActorNotFound(id))
        }
    }
}

} // verus!
