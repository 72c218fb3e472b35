//! A per-account message mailbox: an append-only, deletable, migratable log of
//! opaque byte messages, each tagged with an identifier that is never reused.
//!
//! * [`model`] is the mathematical model: one account's mailbox as a sequence
//!   of `(id, message)` pairs and a counter, with the four transitions.
//! * [`mailbox`] is the executable mailbox of one account.
//! * [`store`] keeps one mailbox per account behind the dispatch entry points.
//! * [`laws`] states what holds of every run of the transitions.
pub mod error;
pub mod laws;
pub mod mailbox;
pub mod model;
pub mod store;

pub use error::Error;
pub use mailbox::{Mailbox, Message, MessageId, MAX_DELETE_MESSAGES, MAX_MESSAGE_LENGTH};
pub use store::{AccountId, Module, Trait};
