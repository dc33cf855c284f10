//! A small actor runtime: actors with a bounded mailbox, an integer value and a
//! set of subscribers, kept in a pool that delivers messages and guards the
//! subscription graph against cycles.
//!
//! Delivery is synchronous: an active actor applies a message before the call
//! that sent it returns, and forwards it to its subscribers on the same call;
//! an inactive actor keeps what it is sent queued, in order, until it is
//! switched back on.

pub mod actor;
pub mod cycle;
pub mod errors;
pub mod graph;
pub mod laws;
pub mod message;
pub mod pool;
pub mod state;
pub mod text;

pub use errors::ActorError;
pub use message::Message;
pub use state::ActorState;
pub use actor::{Actor, MAILBOX_CAPACITY};
pub use pool::ActorPool;
