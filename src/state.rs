use vstd::prelude::*;

verus! {

/// Whether an actor applies what arrives in its mailbox (`Active`) or keeps it
/// queued (`Inactive`).
#[derive(Debug, PartialEq, Eq, Structural, Clone, Copy)]
pub enum ActorState {
    Active,
    Inactive,
}

impl ActorState {
    /// The other state.
    pub open spec fn flipped(self) -> ActorState {
        match self {
            ActorState::Active => ActorState::Inactive,
            ActorState::Inactive => ActorState::Active,
        }
    }

    /// The state's name, as shown to a user.
    pub fn to_string(&self) -> (r: String)
        ensures
            r@ == (match *self {
                ActorState::Active => "Active"@,
                ActorState::Inactive => "Inactive"@,
            }),
    {
        match self {
            ActorState::Active => String::from_str("Active"),
            ActorState::Inactive => String::from_str("Inactive"),
        }
    }
}

} // verus!
