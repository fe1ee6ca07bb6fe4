//! Errors raised while building instructions and records, and while compiling.
use vstd::prelude::*;

use crate::instruction::InstrType;

verus! {

/// A value that could not be built: it never exists in an invalid state.
#[derive(Clone, Debug, PartialEq)]
pub enum ConstructionError {
    /// The argument set of an instruction lacks a required name.
    MissingArgument { instr_type: InstrType, key: String },
    /// A record's interval holds no tick. `end_pos` is `None` for an open
    /// record whose start leaves no room for its own tick.
    InvalidInterval { start_pos: usize, end_pos: Option<usize> },
}

/// A channel that could not be compiled; no partial output exists.
#[derive(Clone, Copy, Debug, PartialEq, Eq, Structural)]
pub enum CompileError {
    /// A record starts before the effective end of the record ordered before it.
    Overlap { start_pos: usize, prev_start_pos: usize, prev_end_pos: usize },
    /// A record reaches past the channel's last tick.
    ExceedsLength { start_pos: usize, end_pos: usize, total_length: usize },
    /// A linear ramp whose start and end times coincide, over the ticks it owns.
    DegenerateRamp { start_pos: usize, end_pos: usize },
}

} // verus!
