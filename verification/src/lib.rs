//! A verified causal-versioning and dense-ordering substrate for
//! conflict-free replicated data types (CRDTs).
//!
//! The crate provides:
//! - [`Dot`]: a single causal event, an (actor, counter) pair;
//! - [`VClock`]: a vector clock mapping actors to the highest counter
//!   witnessed, with join (`merge`), meet (`glb`), causal pruning
//!   (`forget`) and concurrency detection;
//! - [`Identifier`]: a dense ordering key: between any two distinct
//!   identifiers a third can always be synthesized;
//! - [`to_binary`] / [`from_binary`]: a deterministic byte codec for
//!   vector clocks with a proved round trip.

pub mod codec;
pub mod dot;
pub mod identifier;
pub mod rational;
pub mod vclock;

pub use codec::{from_binary, to_binary, DecodeError};
pub use dot::Dot;
pub use identifier::Identifier;
pub use vclock::{IntoIter, VClock};
