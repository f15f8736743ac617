use vstd::prelude::*;

verus! {

/// The width and kind of a number in a constant record.
#[derive(Debug, Clone, Copy, PartialEq, Eq, Structural)]
pub enum TypeSize {
    U8,
    U16,
    U32,
    U64,
    I32,
    I64,
    F32,
    F64,
}

/// The width selector `v` names, if any (0..7 in the order of the variants).
pub open spec fn type_size_of(v: nat) -> Option<TypeSize> {
    if v == 0 {
        Some(TypeSize::U8)
    } else if v == 1 {
        Some(TypeSize::U16)
    } else if v == 2 {
        Some(TypeSize::U32)
    } else if v == 3 {
        Some(TypeSize::U64)
    } else if v == 4 {
        Some(TypeSize::I32)
    } else if v == 5 {
        Some(TypeSize::I64)
    } else if v == 6 {
        Some(TypeSize::F32)
    } else if v == 7 {
        Some(TypeSize::F64)
    } else {
        None
    }
}

impl TypeSize {
    /// How many bytes a number of this kind takes.
    pub open spec fn width(self) -> nat {
        match self {
            TypeSize::U8 => 1,
            TypeSize::U16 => 2,
            TypeSize::U32 | TypeSize::I32 | TypeSize::F32 => 4,
            TypeSize::U64 | TypeSize::I64 | TypeSize::F64 => 8,
        }
    }

    /// The width selector `value`, or `None` past the eighth.
    pub fn from(value: u8) -> (r: Option<Self>)
        ensures
            r == type_size_of(value as nat),
    {
        match value {
            0 => Some(TypeSize::U8),
            1 => Some(TypeSize::U16),
            2 => Some(TypeSize::U32),
            3 => Some(TypeSize::U64),
            4 => Some(TypeSize::I32),
            5 => Some(TypeSize::I64),
            6 => Some(TypeSize::F32),
            7 => Some(TypeSize::F64),
            _ => None,
        }
    }

    /// Splits a tag byte into the width its top three bits select and its low three bits.
    pub fn extract(opcode: u8) -> (r: (Option<Self>, u8))
        ensures
            r.0 == type_size_of(opcode as nat / 32),
            r.1 == opcode % 8,
            r.0 is Some,
    {
        let high = opcode >> 5;
        let low = opcode & 0b111;
        assert(opcode >> 5 == opcode / 32) by (bit_vector);
        assert(opcode & 0b111 == opcode % 8) by (bit_vector);
        (Self::from(high), low)
    }
}

} // verus!
