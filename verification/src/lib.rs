//! Shared-expense bookkeeping: who paid what, who owes whom, and the short
//! list of transfers that squares everybody up.
//!
//! Every amount is a whole number of micro-units, one millionth of the
//! currency unit, so that sums are exact.

pub mod conservation;
pub mod document;
pub mod error;
pub mod laws;
pub mod ledger;
pub mod model;
pub mod plan;
pub mod seqs;
pub mod settlement;
pub mod shares;
pub mod text;
pub mod tui;
pub mod units;

pub use document::Document;
pub use error::LedgerError;
pub use ledger::{Participant, Transaction, User, Users};
pub use plan::Transfer;
pub use units::{EPSILON, UNIT};
