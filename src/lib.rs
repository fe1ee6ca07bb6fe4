//! Verified core of a per-channel instruction timeline compiler.
//!
//! Instructions are placed on a channel's tick axis by [`record::InstrBook`]s.
//! [`timeline::layout`] orders and validates the placements and decides which
//! tick range each instruction owns; [`timeline::assemble`] turns the samples
//! evaluated over those ranges into one dense array, filling the gaps.
pub mod error;
pub mod instruction;
pub mod record;
pub mod timeline;
