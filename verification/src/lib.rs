//! A bill-splitting engine: participants, priced line items shared by subsets
//! of the participants, a tax spread over those who are involved, and the
//! amount that each participant owes.
//!
//! The ledger, [`SplitItem`], owns the registries of participants and line
//! items. Each change to it computes the shares, the total and the summary
//! anew before it returns, so that a ledger is at all times the one derived
//! from what it holds.

pub mod calc;
pub mod decimal;
pub mod error;
pub mod keys;
pub mod laws;
pub mod ledger;
pub mod line_item;
pub mod money;
pub mod participant;
pub mod seqs;
pub mod split_item;
pub mod summary;
pub mod text;

pub use error::SplitError;
pub use line_item::LItem;
pub use line_item::LItems;
pub use money::Amount;
pub use money::Money;
pub use participant::Participant;
pub use participant::Participants;
pub use split_item::SplitItem;
