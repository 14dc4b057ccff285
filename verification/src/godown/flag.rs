use vstd::prelude::*;

verus! {

/// Flag byte of a removed record.
pub const DELETE: u8 = 0;

/// Flag byte of a freshly written record.
pub const INSERT: u8 = 1;

/// Flag byte of a rewritten record.
pub const UPDATE: u8 = 2;

/// What a record's flag byte says about it.
#[derive(Debug, Clone, Copy, PartialEq, Eq, Structural)]
pub enum FlagType {
    Insert,
    Delete,
    Update,
}

/// The byte that stands for a flag on disk.
pub open spec fn flag_code(tp: FlagType) -> u8 {
    match tp {
        FlagType::Delete => DELETE,
        FlagType::Insert => INSERT,
        FlagType::Update => UPDATE,
    }
}

/// The flag that a byte on disk stands for. Every byte other than the codes
/// of `Update` and `Delete` reads as `Insert`.
pub open spec fn flag_of(value: u8) -> FlagType {
    if value == UPDATE {
        FlagType::Update
    } else if value == DELETE {
        FlagType::Delete
    } else {
        FlagType::Insert
    }
}

/// Reading back the code of a flag gives the flag.
pub proof fn lemma_flag_code_round_trip(tp: FlagType)
    ensures
        flag_of(flag_code(tp)) == tp,
{
}

/// Conversion between flags and their codes.
pub struct Flag;

impl Flag {
    pub fn get_value(tp: FlagType) -> (value: u8)
        ensures
            value == flag_code(tp),
    {
        match tp {
            FlagType::Delete => DELETE,
            FlagType::Insert => INSERT,
            FlagType::Update => UPDATE,
        }
    }

    pub fn get_type(value: u8) -> (tp: FlagType)
        ensures
            tp == flag_of(value),
    {
        if value == UPDATE {
            FlagType::Update
        } else if value == DELETE {
            FlagType::Delete
        } else {
            FlagType::Insert
        }
    }
}

} // verus!
