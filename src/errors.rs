use vstd::prelude::*;
use vstd::string::*;
use crate::text::{decimal, decimal_string};
use crate::message::Message;

verus! {

/// What can go wrong in the pool's operations.
#[derive(Debug, PartialEq, Eq, Structural, Clone, Copy)]
pub enum ActorError {
    /// No actor has this id.
    TargetActorNotFound(usize),
    /// The actor's mailbox already holds its capacity of messages.
    MailboxOverflow(usize),
    /// The subscriber is already subscribed to the target.
    ActorAlreadyExists(usize),
    /// Subscribing the second actor to the first would let a message come back
    /// to an actor it already reached.
    CyclicSubscription(usize, usize),
    /// The message could not be applied: the value would leave the `i32` range.
    InvalidMessage(Message),
}

impl ActorError {
    /// A short description of the kind of error.
    pub fn description(&self) -> (r: &'static str)
        ensures
            r@ == (match *self {
                ActorError::TargetActorNotFound(_) => "Target actor not found"@,
                ActorError::MailboxOverflow(_) => "Mailbox is full"@,
                ActorError::ActorAlreadyExists(_) => "Actor already exists"@,
                ActorError::CyclicSubscription(_, _) => "Subscription would form a cycle"@,
                ActorError::InvalidMessage(_) => "Invalid message"@,
            }),
    {
        match self {
            ActorError::TargetActorNotFound(_) => "Target actor not found",
            ActorError::MailboxOverflow(_) => "Mailbox is full",
            ActorError::ActorAlreadyExists(_) => "Actor already exists",
            ActorError::CyclicSubscription(_, _) => "Subscription would form a cycle",
            ActorError::InvalidMessage(_) => "Invalid message",
        }
    }

    /// The error as shown to a user.
    pub open spec fn text(self) -> Seq<char> {
        match self {
            ActorError::TargetActorNotFound(id) => "Target actor not found: "@ + decimal(id as nat),
            ActorError::MailboxOverflow(id) => "Mailbox is full: "@ + decimal(id as nat),
            ActorError::ActorAlreadyExists(id) => "Actor already exists: "@ + decimal(id as nat),
            ActorError::CyclicSubscription(t, s) => "Subscribing "@ + decimal(s as nat) + " to "@
                + decimal(t as nat) + " would form a cycle"@,
            ActorError::InvalidMessage(m) => "Invalid message: "@ + m.text(),
        }
    }

    pub fn to_string(&self) -> (r: String)
        ensures
            r@ == self.text(),
    {
        proof {
            reveal_strlit("Target actor not found: ");
            reveal_strlit("Mailbox is full: ");
            reveal_strlit("Actor already exists: ");
            reveal_strlit("Subscribing ");
            reveal_strlit(" to ");
            reveal_strlit(" would form a cycle");
            reveal_strlit("Invalid message: ");
        }
        match self {
            ActorError::TargetActorNotFound(id) => {
                let mut r = String::from_str("Target actor not found: ");
                r.append(decimal_string(*id as u64).as_str());
                r
            },
            ActorError::MailboxOverflow(id) => {
                let mut r = String::from_str("Mailbox is full: ");
                r.append(decimal_string(*id as u64).as_str());
                r
            },
            ActorError::ActorAlreadyExists(id) => {
                let mut r = String::from_str("Actor already exists: ");
                r.append(decimal_string(*id as u64).as_str());
                r
            },
            ActorError::CyclicSubscription(t, s) => {
                let mut r = String::from_str("Subscribing ");
                r.append(decimal_string(*s as u64).as_str());
                r.append(" to ");
                r.append(decimal_string(*t as u64).as_str());
                r.append(" would form a cycle");
                r
            },
            ActorError::InvalidMessage(m) => {
                let mut r = String::from_str("Invalid message: ");
                r.append(m.to_string().as_str());
                r
            },
        }
    }
}

} // verus!
