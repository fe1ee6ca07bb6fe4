//! Placement of one instruction on a channel's tick axis.
use vstd::prelude::*;

use crate::error::ConstructionError;

verus! {

/// What a record says of its interval: its first tick and how it ends.
pub struct RecordView {
    pub start_pos: usize,
    /// `Some((end_pos, keep_val))` for a closed interval `[start_pos, end_pos)`;
    /// `None` for one that runs until the next record or the channel's end.
    pub end_spec: Option<(usize, bool)>,
}

impl RecordView {
    /// The interval holds its own start tick.
    pub open spec fn valid(self) -> bool {
        match self.end_spec {
            Some((end_pos, _)) => self.start_pos < end_pos,
            None => self.start_pos < usize::MAX,
        }
    }

    /// The earliest tick at which a following record may start.
    pub open spec fn eff_end(self) -> int {
        match self.end_spec {
            Some((end_pos, _)) => end_pos as int,
            None => self.start_pos + 1,
        }
    }

    /// Whether the gap after this record holds its last sample.
    pub open spec fn keeps_value(self) -> bool {
        match self.end_spec {
            Some((_, keep_val)) => keep_val,
            None => false,
        }
    }
}

/// An instruction bound to a start tick (inclusive) and an end specification.
///
/// A closed record owns `[start_pos, end_pos)`, at least one tick; an open one
/// owns its start tick and runs until the next record or the channel's end.
/// Records are ordered by `start_pos` alone.
pub struct InstrBook<I> {
    start_pos: usize,
    end_spec: Option<(usize, bool)>,
    instr: I,
}

impl<I> View for InstrBook<I> {
    type V = RecordView;

    closed spec fn view(&self) -> RecordView {
        RecordView { start_pos: self.start_pos, end_spec: self.end_spec }
    }
}

impl<I> InstrBook<I> {
    #[verifier::type_invariant]
    spec fn inv(&self) -> bool {
        self@.valid()
    }

    /// The instruction that the record places.
    pub closed spec fn spec_instr(&self) -> I {
        self.instr
    }

    /// Builds a record; fails with `InvalidInterval` when a closed end does not
    /// lie after the start, or an open record's start leaves no room for its tick.
    pub fn new(start_pos: usize, end_spec: Option<(usize, bool)>, func: I) -> (r: Result<
        Self,
        ConstructionError,
    >)
        ensures
            r is Ok <==> (RecordView { start_pos, end_spec }).valid(),
            r matches Ok(b) ==> b@ == (RecordView { start_pos, end_spec }) && b.spec_instr()
                == func,
            r matches Err(e) ==> e == (ConstructionError::InvalidInterval {
                start_pos,
                end_pos: match end_spec {
                    Some((end_pos, _)) => Some(end_pos),
                    None => None,
                },
            }),
    {
        match end_spec {
            Some((end_pos, _)) => {
                if end_pos <= start_pos {
                    return Err(ConstructionError::InvalidInterval { start_pos, end_pos: Some(end_pos) });
                }
            },
            None => {
                if start_pos == usize::MAX {
                    return Err(ConstructionError::InvalidInterval { start_pos, end_pos: None });
                }
            },
        }
        Ok(InstrBook { start_pos, end_spec, instr: func })
    }

    /// The first tick of the interval.
    pub fn start_pos(&self) -> (r: usize)
        ensures
            r == self@.start_pos,
            self@.valid(),
    {
        proof {
            use_type_invariant(self);
        }
        self.start_pos
    }

    /// The end specification as it was given.
    pub fn end_spec(&self) -> (r: Option<(usize, bool)>)
        ensures
            r == self@.end_spec,
            self@.valid(),
    {
        proof {
            use_type_invariant(self);
        }
        self.end_spec
    }

    /// The instruction that the record places.
    pub fn instr(&self) -> (r: &I)
        ensures
            *r == self.spec_instr(),
    {
        &self.instr
    }

    /// The exclusive end tick of a closed record; `None` for an open one.
    pub fn end_pos(&self) -> (r: Option<usize>)
        ensures
            r == match self@.end_spec {
                Some((end_pos, _)) => Some(end_pos),
                None => None::<usize>,
            },
    {
        match self.end_spec {
            Some((end_pos, _keep_val)) => Some(end_pos),
            None => None,
        }
    }

    /// The earliest tick at which a following record may start: `end_pos` for
    /// a closed record, `start_pos + 1` for an open one, whatever the channel's
    /// length.
    pub fn eff_end_pos(&self) -> (r: usize)
        ensures
            r == self@.eff_end(),
            r > self@.start_pos,
            self@.end_spec is None ==> r == self@.start_pos + 1,
            self@.valid(),
    {
        proof {
            use_type_invariant(self);
        }
        match self.end_pos() {
            Some(end_pos) => end_pos,
            None => self.start_pos + 1,
        }
    }

    /// The number of ticks of a closed record; `None` for an open one.
    pub fn dur(&self) -> (r: Option<usize>)
        ensures
            r == match self@.end_spec {
                Some((end_pos, _)) => Some((end_pos - self@.start_pos) as usize),
                None => None::<usize>,
            },
            r matches Some(d) ==> d >= 1,
    {
        proof {
            use_type_invariant(self);
        }
        match self.end_spec {
            Some((end_pos, _keep_val)) => Some(end_pos - self.start_pos),
            None => None,
        }
    }
}

/// Records compare equal when they start on the same tick, whatever their
/// ends and instructions.
impl<I> PartialEq for InstrBook<I> {
    fn eq(&self, other: &Self) -> (r: bool) {
        self.start_pos == other.start_pos
    }
}

impl<I> vstd::std_specs::cmp::PartialEqSpecImpl for InstrBook<I> {
    open spec fn obeys_eq_spec() -> bool {
        true
    }

    open spec fn eq_spec(&self, other: &Self) -> bool {
        self@.start_pos == other@.start_pos
    }
}

/// Records are ordered by start tick alone.
impl<I> PartialOrd for InstrBook<I> {
    fn partial_cmp(&self, other: &Self) -> (r: Option<core::cmp::Ordering>) {
        if self.start_pos < other.start_pos {
            Some(core::cmp::Ordering::Less)
        } else if self.start_pos > other.start_pos {
            Some(core::cmp::Ordering::Greater)
        } else {
            Some(core::cmp::Ordering::Equal)
        }
    }
}

impl<I> vstd::std_specs::cmp::PartialOrdSpecImpl for InstrBook<I> {
    open spec fn obeys_partial_cmp_spec() -> bool {
        true
    }

    open spec fn partial_cmp_spec(&self, other: &Self) -> Option<core::cmp::Ordering> {
        if self@.start_pos < other@.start_pos {
            Some(core::cmp::Ordering::Less)
        } else if self@.start_pos > other@.start_pos {
            Some(core::cmp::Ordering::Greater)
        } else {
            Some(core::cmp::Ordering::Equal)
        }
    }
}

} // verus!
