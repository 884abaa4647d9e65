//! A keyed election ledger: a store of elections, each with a fixed roster of
//! candidates, a deadline and the voter tokens that are spent, together with
//! the codec for rosters and the ballot engine that casts votes.

pub mod bytes;
pub mod codec;
pub mod laws;
pub mod record;
pub mod store;

pub use crate::codec::Candidate;
pub use crate::record::{Entry, VoteOutcome};
pub use crate::store::Encode;
