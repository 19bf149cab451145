//! What holds of the pool as a whole, whatever is done to it.

pub mod depth;
pub mod effects;
pub mod gathering;
pub mod handoff;
pub mod history;
pub mod identity;
pub mod isolation;
pub mod ledger;
pub mod listing;
pub mod numbering;
pub mod refilling;
