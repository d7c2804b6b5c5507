//! The ways in which a ledger operation can be turned down.

use vstd::prelude::*;

verus! {

/// Why a ledger operation was refused. A refused operation leaves the ledger
/// exactly as it found it.
#[derive(Debug, Clone, Copy, PartialEq, Eq, Structural)]
pub enum LedgerError {
    /// A participant of that name is already registered.
    DuplicateParticipant,
    /// No registered participant has that name.
    ParticipantNotFound,
    /// The names of a weighted split are not exactly the registered names,
    /// or none of them carries any weight.
    InvalidParticipantSet,
    /// A settlement needs at least two participants.
    InsufficientParticipants,
    /// A stored document does not describe a ledger.
    SerializationError,
    /// No transaction has that position.
    IndexOutOfRange,
    /// A running total would leave the range of amounts that can be stored.
    AmountOutOfRange,
}

} // verus!
