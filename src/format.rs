//! The class-file format, stated as spec functions.
use vstd::prelude::*;
use crate::class_error::ClassError;
use crate::class_file::FieldVal;
use crate::const_pool::{ConstVal, str_at};
use crate::opcodes::{TypeSize, type_size_of};
use crate::reader::{le_nat, signed_of};

verus! {

// The class-file format, stated as a parser over the bytes of a file. Each
// step takes the position it starts at and gives what it read and the
// position after it, or the error of the first thing that is wrong.

/// The four bytes a class file starts with: `$GLR`.
pub open spec fn magic() -> Seq<u8> {
    seq![36u8, 71u8, 76u8, 82u8]
}

/// The byte at `p`, if there is one.
pub open spec fn byte_at(b: Seq<u8>, p: int) -> Option<u8> {
    if 0 <= p < b.len() {
        Some(b[p])
    } else {
        None
    }
}

/// The `w` bytes from `p` read as a number, least significant first.
pub open spec fn num_at(b: Seq<u8>, p: int, w: nat) -> Option<nat> {
    if 0 <= p && p + w <= b.len() {
        Some(le_nat(b.subrange(p, p + w)))
    } else {
        None
    }
}

/// The width that the top three bits of a tag byte select.
pub open spec fn tag_size(tag: u8) -> TypeSize {
    type_size_of(tag as nat / 32)->Some_0
}

/// Whether a tag byte marks a string.
pub open spec fn tag_is_string(tag: u8) -> bool {
    tag % 2 == 1
}

/// The constant a number of kind `ts` with bits `v` stands for.
pub open spec fn num_val(ts: TypeSize, v: nat) -> ConstVal {
    match ts {
        TypeSize::I32 => ConstVal::Int(signed_of(v, 32)),
        TypeSize::I64 => ConstVal::Int(signed_of(v, 64)),
        TypeSize::F32 => ConstVal::Float32(v as u32),
        TypeSize::F64 => ConstVal::Float64(v as u64),
        _ => ConstVal::UInt(v),
    }
}

/// A number of kind `ts` at `p`.
pub open spec fn parse_num(ts: TypeSize, b: Seq<u8>, p: int) -> Result<(ConstVal, int), ClassError> {
    match num_at(b, p, ts.width()) {
        None => Err(ClassError::BadConstData),
        Some(v) => Ok((num_val(ts, v), p + ts.width())),
    }
}

/// A constant record at `p`: a tag byte, a number, and for a string that
/// many raw bytes.
pub open spec fn parse_const(b: Seq<u8>, p: int) -> Result<(ConstVal, int), ClassError> {
    match byte_at(b, p) {
        None => Err(ClassError::BadConstType),
        Some(tag) => if tag_is_string(tag) {
            match parse_num(tag_size(tag), b, p + 1) {
                Err(e) => Err(e),
                Ok((v, q)) => match v {
                    ConstVal::UInt(n) => if q + n <= b.len() {
                        Ok((ConstVal::Str(b.subrange(q, q + n)), q + n))
                    } else {
                        Err(ClassError::BadConstData)
                    },
                    _ => Err(ClassError::BadConstType),
                },
            }
        } else {
            parse_num(tag_size(tag), b, p + 1)
        },
    }
}

/// `n` constant records from `p`.
pub open spec fn parse_consts(b: Seq<u8>, p: int, n: nat) -> Result<(Seq<ConstVal>, int), ClassError>
    decreases n,
{
    if n == 0 {
        Ok((Seq::empty(), p))
    } else {
        match parse_consts(b, p, (n - 1) as nat) {
            Err(e) => Err(e),
            Ok((cs, q)) => match parse_const(b, q) {
                Err(e) => Err(e),
                Ok((c, r)) => Ok((cs.push(c), r)),
            },
        }
    }
}

/// A constant pool at `p`: a two-byte count, never zero, then the constants.
pub open spec fn parse_pool(b: Seq<u8>, p: int) -> Result<(Seq<ConstVal>, int), ClassError> {
    match num_at(b, p, 2) {
        None => Err(ClassError::BadConstSize),
        Some(n) => if n == 0 {
            Err(ClassError::BadConstSize)
        } else {
            parse_consts(b, p + 2, n)
        },
    }
}

/// `n` two-byte pool indices of enum values from `p`.
pub open spec fn parse_values(b: Seq<u8>, p: int, n: nat) -> Result<(Seq<u16>, int), ClassError>
    decreases n,
{
    if n == 0 {
        Ok((Seq::empty(), p))
    } else {
        match parse_values(b, p, (n - 1) as nat) {
            Err(e) => Err(e),
            Ok((vs, q)) => match num_at(b, q, 2) {
                None => Err(ClassError::BadEnumField),
                Some(v) => Ok((vs.push(v as u16), q + 2)),
            },
        }
    }
}

/// A field record at `p` of a class of kind `kind`.
pub open spec fn parse_field(kind: u8, b: Seq<u8>, p: int) -> Result<(FieldVal, int), ClassError> {
    if kind == 2 {
        match num_at(b, p, 2) {
            None => Err(ClassError::BadConstIndex),
            Some(m) => Ok((FieldVal::Module(m as u16), p + 2)),
        }
    } else if kind == 1 {
        match num_at(b, p, 2) {
            None => Err(ClassError::BadConstIndex),
            Some(n) => match num_at(b, p + 2, 2) {
                None => Err(ClassError::BadConstIndex),
                Some(t) => Ok((FieldVal::Struct(n as u16, t as u16), p + 4)),
            },
        }
    } else if kind == 0 {
        match num_at(b, p, 2) {
            None => Err(ClassError::BadConstIndex),
            Some(n) => match num_at(b, p + 2, 2) {
                None => Err(ClassError::BadEnumSize),
                Some(count) => match parse_values(b, p + 4, count) {
                    Err(e) => Err(e),
                    Ok((vs, q)) => Ok((FieldVal::Enum(n as u16, vs), q)),
                },
            },
        }
    } else {
        Err(ClassError::BadClassType)
    }
}

/// `n` field records from `p`.
pub open spec fn parse_fields_n(kind: u8, b: Seq<u8>, p: int, n: nat) -> Result<
    (Seq<FieldVal>, int),
    ClassError,
>
    decreases n,
{
    if n == 0 {
        Ok((Seq::empty(), p))
    } else {
        match parse_fields_n(kind, b, p, (n - 1) as nat) {
            Err(e) => Err(e),
            Ok((fs, q)) => match parse_field(kind, b, q) {
                Err(e) => Err(e),
                Ok((f, r)) => Ok((fs.push(f), r)),
            },
        }
    }
}

/// The fields at `p`: a two-byte count, then the records.
pub open spec fn parse_fields(kind: u8, b: Seq<u8>, p: int) -> Result<(Seq<FieldVal>, int), ClassError> {
    match num_at(b, p, 2) {
        None => Err(ClassError::BadFieldSize),
        Some(n) => parse_fields_n(kind, b, p + 2, n),
    }
}

/// A method record as a mathematical value.
pub struct MethodVal {
    pub name: u16,
    pub access: u8,
    pub code_pos: u64,
}

/// A method record at `p`, whose code position must lie within `code_size`.
pub open spec fn parse_method(code_size: nat, b: Seq<u8>, p: int) -> Result<(MethodVal, int), ClassError> {
    match num_at(b, p, 2) {
        None => Err(ClassError::BadConstIndex),
        Some(name) => match byte_at(b, p + 2) {
            None => Err(ClassError::BadAccessModifier),
            Some(access) => match byte_at(b, p + 3) {
                None => Err(ClassError::BadCodePos),
                Some(tag) => match parse_num(tag_size(tag), b, p + 4) {
                    Err(e) => Err(e),
                    Ok((v, q)) => match v {
                        ConstVal::UInt(pos) => if pos <= code_size {
                            Ok((MethodVal { name: name as u16, access, code_pos: pos as u64 }, q))
                        } else {
                            Err(ClassError::BadCodePos)
                        },
                        _ => Err(ClassError::BadCodePos),
                    },
                },
            },
        },
    }
}

/// `n` method records from `p`.
pub open spec fn parse_methods_n(code_size: nat, b: Seq<u8>, p: int, n: nat) -> Result<
    (Seq<MethodVal>, int),
    ClassError,
>
    decreases n,
{
    if n == 0 {
        Ok((Seq::empty(), p))
    } else {
        match parse_methods_n(code_size, b, p, (n - 1) as nat) {
            Err(e) => Err(e),
            Ok((ms, q)) => match parse_method(code_size, b, q) {
                Err(e) => Err(e),
                Ok((m, r)) => Ok((ms.push(m), r)),
            },
        }
    }
}

/// The methods at `p`: a two-byte count, then the records.
pub open spec fn parse_methods(code_size: nat, b: Seq<u8>, p: int) -> Result<
    (Seq<MethodVal>, int),
    ClassError,
> {
    match num_at(b, p, 2) {
        None => Err(ClassError::BadMethodSize),
        Some(n) => parse_methods_n(code_size, b, p + 2, n),
    }
}

/// A class as a mathematical value: what a class file holds.
pub struct ClassVal {
    pub kind: u8,
    pub access: u8,
    pub pool: Seq<ConstVal>,
    pub fields: Seq<FieldVal>,
    pub methods: Seq<MethodVal>,
    pub code: Seq<u8>,
}

/// What the class file `b` holds, or the first thing wrong with it.
pub open spec fn parse_class(b: Seq<u8>) -> Result<ClassVal, ClassError> {
    if b.len() < 4 || b.subrange(0, 4) != magic() {
        Err(ClassError::BadClassMagic)
    } else {
        match byte_at(b, 4) {
            None => Err(ClassError::BadClassType),
            Some(kind) => if kind > 2 {
                Err(ClassError::BadClassType)
            } else {
                match byte_at(b, 5) {
                None => Err(ClassError::BadAccessModifier),
                Some(access) => match parse_pool(b, 6) {
                    Err(e) => Err(e),
                    Ok((pool, p)) => match num_at(b, p, 4) {
                        None => Err(ClassError::BadCodeSize),
                        Some(code_size) => match parse_fields(kind, b, p + 4) {
                            Err(e) => Err(e),
                            Ok((fields, q)) => match parse_methods(code_size, b, q) {
                                Err(e) => Err(e),
                                Ok((methods, r)) => if r + code_size > b.len() {
                                    Err(ClassError::BadCodeData)
                                } else {
                                    Ok(
                                        ClassVal {
                                            kind,
                                            access,
                                            pool,
                                            fields,
                                            methods,
                                            code: b.subrange(r, r + code_size),
                                        },
                                    )
                                },
                            },
                        },
                    },
                },
            }
            },
        }
    }
}

/// The name of the field record `f` in a class with pool `pool`.
pub open spec fn field_key(pool: Seq<ConstVal>, f: FieldVal) -> Seq<u8> {
    str_at(pool, f.name_index() as int)
}

/// The name of the method record `m` in a class with pool `pool`.
pub open spec fn method_key(pool: Seq<ConstVal>, m: MethodVal) -> Seq<u8> {
    str_at(pool, m.name as int)
}

/// A method record whose code position, an unsigned number, lies past the
/// bytecode is refused with `BadCodePos`.
pub proof fn lemma_code_pos_past_end(code_size: nat, b: Seq<u8>, p: int, pos: nat, q: int)
    requires
        num_at(b, p, 2) is Some,
        byte_at(b, p + 2) is Some,
        byte_at(b, p + 3) is Some,
        parse_num(tag_size(byte_at(b, p + 3)->Some_0), b, p + 4) == Ok::<(ConstVal, int), ClassError>(
            (ConstVal::UInt(pos), q),
        ),
        pos > code_size,
    ensures
        parse_method(code_size, b, p) == Err::<(MethodVal, int), ClassError>(ClassError::BadCodePos),
{
}

} // verus!
