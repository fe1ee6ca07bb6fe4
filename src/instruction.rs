//! Instruction kinds and the names of the arguments each one requires.
use vstd::prelude::*;

use crate::error::ConstructionError;

verus! {

broadcast use vstd::string::group_string_axioms;

/// The kinds of analytic instruction that a channel can carry.
#[derive(Clone, Copy, Debug, PartialEq, Eq, Structural)]
pub enum InstrType {
    /// A constant level: argument `value`.
    CONST,
    /// A sine wave: argument `freq`; `amplitude`, `offset` and `phase` are optional.
    SINE,
    /// A linear ramp: arguments `start_val`, `end_val`, `start_time`, `end_time`.
    LINRAMP,
}

/// The display name of an instruction kind.
pub open spec fn kind_name(t: InstrType) -> Seq<char> {
    match t {
        InstrType::CONST => "CONST"@,
        InstrType::SINE => "SINE"@,
        InstrType::LINRAMP => "LINRAMP"@,
    }
}

/// The argument names that an instruction of kind `t` must carry, in the
/// order in which they are checked.
pub open spec fn required_keys(t: InstrType) -> Seq<Seq<char>> {
    match t {
        InstrType::CONST => seq!["value"@],
        InstrType::SINE => seq!["freq"@],
        InstrType::LINRAMP => seq!["start_val"@, "end_val"@, "start_time"@, "end_time"@],
    }
}

/// The names held by a list of argument names.
pub open spec fn key_views(keys: Seq<String>) -> Seq<Seq<char>> {
    keys.map_values(|k: String| k@)
}

impl InstrType {
    /// The kind's name in capitals, as it is shown to users.
    pub fn name(&self) -> (r: &'static str)
        ensures
            r@ == kind_name(*self),
    {
        match self {
            InstrType::CONST => "CONST",
            InstrType::SINE => "SINE",
            InstrType::LINRAMP => "LINRAMP",
        }
    }

    /// The names of the arguments that this kind requires.
    pub fn required_args(&self) -> (r: Vec<&'static str>)
        ensures
            r@.len() == required_keys(*self).len(),
            forall|i: int| 0 <= i < r@.len() ==> (#[trigger] r@[i])@ == required_keys(*self)[i],
    {
        match self {
            InstrType::CONST => vec!["value"],
            InstrType::SINE => vec!["freq"],
            InstrType::LINRAMP => vec!["start_val", "end_val", "start_time", "end_time"],
        }
    }
}

/// Whether `key` occurs among `keys`.
fn has_key(keys: &Vec<String>, key: &str) -> (r: bool)
    ensures
        r == key_views(keys@).contains(key@),
{
    let wanted = key.to_string();
    let mut i: usize = 0;
    while i < keys.len()
        invariant
            i <= keys.len(),
            wanted@ == key@,
            forall|j: int| 0 <= j < i ==> keys@[j]@ != key@,
        decreases keys.len() - i,
    {
        if keys[i] == wanted {
            assert(key_views(keys@)[i as int] == key@);
            return true;
        }
        i = i + 1;
    }
    assert forall|j: int| 0 <= j < key_views(keys@).len() implies key_views(keys@)[j] != key@ by {
        assert(key_views(keys@)[j] == keys@[j]@);
    }
    false
}

/// Checks that the argument names `keys` cover what an instruction of kind
/// `instr_type` requires. The error names the first required argument, in the
/// order of [`InstrType::required_args`], that is absent.
pub fn check_args(instr_type: InstrType, keys: &Vec<String>) -> (r: Result<(), ConstructionError>)
    ensures
        r is Ok <==> forall|i: int|
            0 <= i < required_keys(instr_type).len() ==> key_views(keys@).contains(
                #[trigger] required_keys(instr_type)[i],
            ),
        r matches Err(e) ==> exists|i: int|
            0 <= i < required_keys(instr_type).len() && (e == ConstructionError::MissingArgument {
                instr_type,
                key: e->key,
            }) && e->key@ == required_keys(instr_type)[i] && !key_views(keys@).contains(
                #[trigger] required_keys(instr_type)[i],
            ) && forall|j: int|
                0 <= j < i ==> key_views(keys@).contains(#[trigger] required_keys(instr_type)[j]),
{
    let required = instr_type.required_args();
    let mut i: usize = 0;
    while i < required.len()
        invariant
            i <= required@.len(),
            required@.len() == required_keys(instr_type).len(),
            forall|j: int| 0 <= j < required@.len() ==> (#[trigger] required@[j])@ == required_keys(instr_type)[j],
            forall|j: int| 0 <= j < i ==> key_views(keys@).contains(#[trigger] required_keys(instr_type)[j]),
        decreases required.len() - i,
    {
        let key = required[i];
        if !has_key(keys, key) {
            assert(key@ == required_keys(instr_type)[i as int]);
            return Err(ConstructionError::MissingArgument { instr_type, key: key.to_string() });
        }
        i = i + 1;
    }
    Ok(())
}

} // verus!
