//! Dealer engine of an automated market maker for on-chain asset swaps:
//! request correlation with the trading venue, a coin ledger with soft
//! reservations, minimal-total coin selection, and the per-order swap state
//! machine.
//!
//! Everything here is plain state and decisions. Transport, wallet calls and
//! pricing happen outside: their results come in as arguments, and what must
//! be sent goes out as return values.
pub mod correlator;
pub mod engine;
pub mod ledger;
pub mod select;
