use vstd::prelude::*;

verus! {

/// Why a class could not be loaded. Every decoding step stops at the first of these.
#[derive(Debug, Clone, Copy, PartialEq, Eq, Structural)]
pub enum ClassError {
    OutOfMemory,
    BadClassType,
    BadClassName,
    BadClassMagic,
    BadAccessModifier,
    BadCodePos,
    BadCodeSize,
    BadCodeData,
    BadEnumSize,
    BadEnumField,
    BadFieldSize,
    BadMethodSize,
    BadConstSize,
    BadConstType,
    BadConstData,
    BadConstIndex,
}

/// The result of a decoding step.
pub type ClassResult<T> = Result<T, ClassError>;

} // verus!
