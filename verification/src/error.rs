use vstd::prelude::*;

verus! {

/// Why an operation was refused. A refused operation changes nothing.
#[derive(Clone, Copy, Debug, PartialEq, Eq, Structural)]
pub enum Error {
    /// A message cannot be longer than `MAX_MESSAGE_LENGTH` bytes.
    MaxMessageLength,
    /// No more than `MAX_DELETE_MESSAGES` ids can be deleted at a time.
    MaxDeleteMessage,
    /// The account's counter has reached the largest id: nothing can be added.
    IdOverflow,
    /// The caller does not hold the migration authority.
    Unauthorized,
}

} // verus!
