use vstd::prelude::*;
use crate::class_error::{ClassError, ClassResult};
use crate::class_file::{Class, ClassFile, Field, FieldContext, FieldVal, Method};
use crate::const_pool::{Const, ConstPool, ConstVal, const_vals, str_at};
use crate::format::{
    ClassVal, MethodVal, byte_at, field_key, magic, method_key, num_at, parse_class, parse_const,
    parse_consts, parse_field, parse_fields, parse_fields_n, parse_method, parse_methods,
    parse_methods_n, parse_num, parse_pool, parse_values,
};
use crate::mapping::{Mappable, Mapping, agree_count, kept, lemma_count_empty, occupied, only_from};
use crate::mem::MemoryRange;
use crate::opcodes::TypeSize;
use crate::reader::{Reader, le_nat};

verus! {

/// The arena keeps its place, size, page and kind; only its cursor moves.
pub open spec fn same_range(a: MemoryRange, b: MemoryRange) -> bool {
    &&& a.base() == b.base()
    &&& a.reserved() == b.reserved()
    &&& a.page() == b.page()
    &&& a.is_exec() == b.is_exec()
}

/// `k` records of `size` bytes each.
pub open spec fn sized(size: nat, k: nat) -> nat
    decreases k,
{
    if k == 0 {
        0
    } else {
        sized(size, (k - 1) as nat) + size
    }
}

/// The arena bytes a constant's own data takes: a string's bytes.
pub open spec fn const_cost(c: ConstVal) -> nat {
    match c {
        ConstVal::Str(s) => s.len(),
        _ => 0,
    }
}

/// The arena bytes the strings of `cs` take.
pub open spec fn str_cost(cs: Seq<ConstVal>) -> nat
    decreases cs.len(),
{
    if cs.len() == 0 {
        0
    } else {
        str_cost(cs.drop_last()) + const_cost(cs.last())
    }
}

/// The arena bytes a constant pool takes: its slots, then its strings.
pub open spec fn pool_cost(cs: Seq<ConstVal>) -> nat {
    vstd::layout::size_of::<Const>() * cs.len() + str_cost(cs)
}

/// The arena bytes a field record takes: one field for each named value of
/// an enum field, then one for the record.
pub open spec fn field_cost(f: FieldVal) -> nat {
    values_cost(f) + vstd::layout::size_of::<Field>()
}

/// The arena bytes the named values of an enum field take.
pub open spec fn values_cost(f: FieldVal) -> nat {
    match f {
        FieldVal::Enum(_, vs) => sized(vstd::layout::size_of::<Field>(), vs.len()),
        _ => 0,
    }
}

pub open spec fn fields_cost_n(fs: Seq<FieldVal>) -> nat
    decreases fs.len(),
{
    if fs.len() == 0 {
        0
    } else {
        fields_cost_n(fs.drop_last()) + field_cost(fs.last())
    }
}

/// The arena bytes a class's fields take: the table's slots, then the records.
pub open spec fn fields_cost(fs: Seq<FieldVal>) -> nat {
    if fs.len() == 0 {
        0
    } else {
        vstd::layout::size_of::<Field>() * fs.len() + fields_cost_n(fs)
    }
}

/// The arena bytes a class's methods take: the table's slots, then the records.
pub open spec fn methods_cost(ms: Seq<MethodVal>) -> nat {
    if ms.len() == 0 {
        0
    } else {
        vstd::layout::size_of::<Method>() * ms.len() + sized(vstd::layout::size_of::<Method>(), ms.len())
    }
}

/// The metadata-arena bytes a class takes.
pub open spec fn class_cost(v: ClassVal) -> nat {
    pool_cost(v.pool) + fields_cost(v.fields) + methods_cost(v.methods)
}

proof fn lemma_sized_mono(size: nat, i: nat, n: nat)
    requires
        i <= n,
    ensures
        sized(size, i) <= sized(size, n),
    decreases n,
{
    if i < n {
        lemma_sized_mono(size, i, (n - 1) as nat);
    }
}

proof fn lemma_consts_prefix(b: Seq<u8>, p: int, i: nat, n: nat)
    requires
        i <= n,
        parse_consts(b, p, n) is Ok,
    ensures
        parse_consts(b, p, i) is Ok,
        parse_consts(b, p, n)->Ok_0.0.len() == n,
        parse_consts(b, p, i)->Ok_0.0 == parse_consts(b, p, n)->Ok_0.0.subrange(0, i as int),
    decreases n,
{
    let all = parse_consts(b, p, n)->Ok_0.0;
    if n > 0 {
        lemma_consts_prefix(b, p, if i < n { i } else { (n - 1) as nat }, (n - 1) as nat);
        let prev = parse_consts(b, p, (n - 1) as nat)->Ok_0.0;
        assert(all.subrange(0, n - 1) =~= prev);
        if i < n {
            assert(all.subrange(0, i as int) =~= prev.subrange(0, i as int));
        } else {
            assert(all.subrange(0, i as int) =~= all);
        }
    } else {
        assert(all.subrange(0, 0) =~= all);
    }
}

proof fn lemma_str_cost_prefix(cs: Seq<ConstVal>, i: nat)
    requires
        i <= cs.len(),
    ensures
        str_cost(cs.subrange(0, i as int)) <= str_cost(cs),
    decreases cs.len(),
{
    if i < cs.len() {
        lemma_str_cost_prefix(cs.drop_last(), i);
        assert(cs.drop_last().subrange(0, i as int) =~= cs.subrange(0, i as int));
    } else {
        assert(cs.subrange(0, i as int) =~= cs);
    }
}

proof fn lemma_values_prefix(b: Seq<u8>, p: int, i: nat, n: nat)
    requires
        i <= n,
        parse_values(b, p, n) is Ok,
    ensures
        parse_values(b, p, i) is Ok,
        parse_values(b, p, n)->Ok_0.0.len() == n,
    decreases n,
{
    if n > 0 {
        lemma_values_prefix(b, p, if i < n { i } else { (n - 1) as nat }, (n - 1) as nat);
    }
}

proof fn lemma_fields_prefix(kind: u8, b: Seq<u8>, p: int, i: nat, n: nat)
    requires
        i <= n,
        parse_fields_n(kind, b, p, n) is Ok,
    ensures
        parse_fields_n(kind, b, p, i) is Ok,
        parse_fields_n(kind, b, p, n)->Ok_0.0.len() == n,
        parse_fields_n(kind, b, p, i)->Ok_0.0 == parse_fields_n(kind, b, p, n)->Ok_0.0.subrange(
            0,
            i as int,
        ),
    decreases n,
{
    let all = parse_fields_n(kind, b, p, n)->Ok_0.0;
    if n > 0 {
        lemma_fields_prefix(kind, b, p, if i < n { i } else { (n - 1) as nat }, (n - 1) as nat);
        let prev = parse_fields_n(kind, b, p, (n - 1) as nat)->Ok_0.0;
        assert(all.subrange(0, n - 1) =~= prev);
        if i < n {
            assert(all.subrange(0, i as int) =~= prev.subrange(0, i as int));
        } else {
            assert(all.subrange(0, i as int) =~= all);
        }
    } else {
        assert(all.subrange(0, 0) =~= all);
    }
}

proof fn lemma_fields_cost_prefix(fs: Seq<FieldVal>, i: nat)
    requires
        i <= fs.len(),
    ensures
        fields_cost_n(fs.subrange(0, i as int)) <= fields_cost_n(fs),
    decreases fs.len(),
{
    if i < fs.len() {
        lemma_fields_cost_prefix(fs.drop_last(), i);
        assert(fs.drop_last().subrange(0, i as int) =~= fs.subrange(0, i as int));
    } else {
        assert(fs.subrange(0, i as int) =~= fs);
    }
}

proof fn lemma_methods_len(c: nat, b: Seq<u8>, p: int, i: nat, n: nat)
    requires
        i <= n,
        parse_methods_n(c, b, p, n) is Ok,
    ensures
        parse_methods_n(c, b, p, i) is Ok,
        parse_methods_n(c, b, p, n)->Ok_0.0.len() == n,
    decreases n,
{
    if n > 0 {
        lemma_methods_len(c, b, p, if i < n { i } else { (n - 1) as nat }, (n - 1) as nat);
    }
}

/// How many of the first `n` items parse: the largest `i <= n` with `ok(i)`,
/// where `ok(i)` says that the first `i` items parse.
pub open spec fn done(ok: spec_fn(nat) -> bool, n: nat) -> nat
    decreases n,
{
    if n == 0 || ok(n) {
        n
    } else {
        done(ok, (n - 1) as nat)
    }
}

/// If the first `c` items parse, so do the first `a` for every `a <= c`.
pub open spec fn down_closed(ok: spec_fn(nat) -> bool) -> bool {
    forall|a: nat, c: nat| #![trigger ok(a), ok(c)] a <= c && ok(c) ==> ok(a)
}

proof fn lemma_done_stop(ok: spec_fn(nat) -> bool, i: nat, n: nat)
    requires
        down_closed(ok),
        ok(i),
        !ok(i + 1),
        i < n,
    ensures
        done(ok, n) == i,
    decreases n,
{
    if n > i + 1 {
        if ok(n) {
            assert(ok((i + 1) as nat));
        }
        lemma_done_stop(ok, i, (n - 1) as nat);
    } else {
        assert(done(ok, i) == i);
    }
}

proof fn lemma_done_ge(ok: spec_fn(nat) -> bool, m: nat, n: nat)
    requires
        down_closed(ok),
        ok(m),
        m <= n,
    ensures
        m <= done(ok, n) <= n,
        ok(done(ok, n)),
    decreases n,
{
    if n > m && !ok(n) {
        lemma_done_ge(ok, m, (n - 1) as nat);
    } else if n == m && !ok(n) {
        assert(false);
    }
}

proof fn lemma_consts_closed(b: Seq<u8>, p: int)
    ensures
        down_closed(consts_ok(b, p)),
{
    assert forall|a: nat, c: nat| #![trigger consts_ok(b, p)(a), consts_ok(b, p)(c)]
        a <= c && consts_ok(b, p)(c) implies consts_ok(b, p)(a) by {
        lemma_consts_prefix(b, p, a, c);
    }
}

proof fn lemma_values_closed(b: Seq<u8>, p: int)
    ensures
        down_closed(values_ok(b, p)),
{
    assert forall|a: nat, c: nat| #![trigger values_ok(b, p)(a), values_ok(b, p)(c)]
        a <= c && values_ok(b, p)(c) implies values_ok(b, p)(a) by {
        lemma_values_prefix(b, p, a, c);
    }
}

proof fn lemma_fields_closed(kind: u8, b: Seq<u8>, p: int)
    ensures
        down_closed(fields_ok(kind, b, p)),
{
    assert forall|a: nat, c: nat| #![trigger fields_ok(kind, b, p)(a), fields_ok(kind, b, p)(c)]
        a <= c && fields_ok(kind, b, p)(c) implies fields_ok(kind, b, p)(a) by {
        lemma_fields_prefix(kind, b, p, a, c);
    }
}

proof fn lemma_methods_closed(c: nat, b: Seq<u8>, p: int)
    ensures
        down_closed(methods_ok(c, b, p)),
{
    assert forall|a: nat, d: nat| #![trigger methods_ok(c, b, p)(a), methods_ok(c, b, p)(d)]
        a <= d && methods_ok(c, b, p)(d) implies methods_ok(c, b, p)(a) by {
        lemma_methods_len(c, b, p, a, d);
    }
}

pub open spec fn consts_ok(b: Seq<u8>, p: int) -> spec_fn(nat) -> bool {
    |i: nat| parse_consts(b, p, i) is Ok
}

pub open spec fn values_ok(b: Seq<u8>, p: int) -> spec_fn(nat) -> bool {
    |i: nat| parse_values(b, p, i) is Ok
}

pub open spec fn fields_ok(kind: u8, b: Seq<u8>, p: int) -> spec_fn(nat) -> bool {
    |i: nat| parse_fields_n(kind, b, p, i) is Ok
}

pub open spec fn methods_ok(c: nat, b: Seq<u8>, p: int) -> spec_fn(nat) -> bool {
    |i: nat| parse_methods_n(c, b, p, i) is Ok
}

/// The metadata bytes that reading a constant pool at `p` takes before it
/// succeeds or meets its first format error.
pub open spec fn pool_spent(b: Seq<u8>, p: int) -> nat {
    match num_at(b, p, 2) {
        None => 0,
        Some(n) => if n == 0 {
            0
        } else {
            vstd::layout::size_of::<Const>() * n + str_cost(
                parse_consts(b, p + 2, done(consts_ok(b, p + 2), n))->Ok_0.0,
            )
        },
    }
}

/// The metadata bytes that reading a field record at `p` takes before it
/// succeeds or meets its first format error: one field per named value read.
pub open spec fn field_spent(kind: u8, b: Seq<u8>, p: int) -> nat {
    if kind == 0 {
        match num_at(b, p, 2) {
            None => 0,
            Some(_) => match num_at(b, p + 2, 2) {
                None => 0,
                Some(c) => sized(vstd::layout::size_of::<Field>(), done(values_ok(b, p + 4), c)),
            },
        }
    } else {
        0
    }
}

/// The metadata bytes that reading the fields at `p` takes before it
/// succeeds or meets its first format error.
pub open spec fn fields_spent(kind: u8, b: Seq<u8>, p: int) -> nat {
    match num_at(b, p, 2) {
        None => 0,
        Some(n) => if n == 0 {
            0
        } else {
            let d = done(fields_ok(kind, b, p + 2), n);
            let (fs, q) = parse_fields_n(kind, b, p + 2, d)->Ok_0;
            vstd::layout::size_of::<Field>() * n + fields_cost_n(fs) + if d < n {
                field_spent(kind, b, q)
            } else {
                0
            }
        },
    }
}

/// The metadata bytes that reading the methods at `p` takes before it
/// succeeds or meets its first format error.
pub open spec fn methods_spent(c: nat, b: Seq<u8>, p: int) -> nat {
    match num_at(b, p, 2) {
        None => 0,
        Some(n) => if n == 0 {
            0
        } else {
            vstd::layout::size_of::<Method>() * n + sized(
                vstd::layout::size_of::<Method>(),
                done(methods_ok(c, b, p + 2), n),
            )
        },
    }
}

/// The metadata bytes that loading the class file `b` takes before it
/// succeeds or meets its first format error.
pub open spec fn class_spent(b: Seq<u8>) -> nat {
    if b.len() < 4 || b.subrange(0, 4) != magic() {
        0
    } else {
        match byte_at(b, 4) {
            None => 0,
            Some(kind) => if kind > 2 {
                0
            } else {
                match byte_at(b, 5) {
                    None => 0,
                    Some(_) => pool_spent(b, 6) + match parse_pool(b, 6) {
                        Err(_) => 0,
                        Ok((_, p)) => match num_at(b, p, 4) {
                            None => 0,
                            Some(cs) => fields_spent(kind, b, p + 4) + match parse_fields(
                                kind,
                                b,
                                p + 4,
                            ) {
                                Err(_) => 0,
                                Ok((_, q)) => methods_spent(cs, b, q),
                            },
                        },
                    },
                }
            },
        }
    }
}

/// The code bytes that loading the class file `b` takes: its bytecode, once
/// everything before it has been read.
pub open spec fn code_spent(b: Seq<u8>) -> nat {
    match parse_class(b) {
        Ok(v) => v.code.len(),
        Err(_) => 0,
    }
}

proof fn lemma_le_nat_one(s: Seq<u8>)
    requires
        s.len() == 1,
    ensures
        le_nat(s) == s[0],
{
    assert(s.drop_first() =~= Seq::<u8>::empty());
    assert(le_nat(s.drop_first()) == 0);
}

proof fn lemma_consts_err(b: Seq<u8>, p: int, m: nat, n: nat)
    requires
        m <= n,
        parse_consts(b, p, m) is Err,
    ensures
        parse_consts(b, p, n) == parse_consts(b, p, m),
    decreases n,
{
    if m < n {
        lemma_consts_err(b, p, m, (n - 1) as nat);
    }
}

proof fn lemma_values_err(b: Seq<u8>, p: int, m: nat, n: nat)
    requires
        m <= n,
        parse_values(b, p, m) is Err,
    ensures
        parse_values(b, p, n) == parse_values(b, p, m),
    decreases n,
{
    if m < n {
        lemma_values_err(b, p, m, (n - 1) as nat);
    }
}

proof fn lemma_fields_err(kind: u8, b: Seq<u8>, p: int, m: nat, n: nat)
    requires
        m <= n,
        parse_fields_n(kind, b, p, m) is Err,
    ensures
        parse_fields_n(kind, b, p, n) == parse_fields_n(kind, b, p, m),
    decreases n,
{
    if m < n {
        lemma_fields_err(kind, b, p, m, (n - 1) as nat);
    }
}

proof fn lemma_methods_err(c: nat, b: Seq<u8>, p: int, m: nat, n: nat)
    requires
        m <= n,
        parse_methods_n(c, b, p, m) is Err,
    ensures
        parse_methods_n(c, b, p, n) == parse_methods_n(c, b, p, m),
    decreases n,
{
    if m < n {
        lemma_methods_err(c, b, p, m, (n - 1) as nat);
    }
}

/// Reads a number of kind `type_size`; `BadConstData` where the bytes run out.
pub fn read_const_num(type_size: TypeSize, reader: &mut Reader) -> (r: ClassResult<Const>)
    ensures
        final(reader).data() == old(reader).data(),
        match parse_num(type_size, old(reader).data(), old(reader).position() as int) {
            Ok((v, q)) => r is Ok && r->Ok_0@ == v && final(reader).position() == q,
            Err(e) => r == Err::<Const, ClassError>(e) && final(reader).position() == old(
                reader,
            ).position(),
        },
{
    let ghost b = reader.data();
    let ghost p = reader.position() as int;
    proof {
        if p + 1 <= b.len() {
            lemma_le_nat_one(b.subrange(p, p + 1));
        }
    }
    match type_size {
        TypeSize::U8 => match reader.read_u8() {
            Some(v) => Ok(Const::UInt(v as u64)),
            None => Err(ClassError::BadConstData),
        },
        TypeSize::U16 => match reader.read_u16() {
            Some(v) => Ok(Const::UInt(v as u64)),
            None => Err(ClassError::BadConstData),
        },
        TypeSize::U32 => match reader.read_u32() {
            Some(v) => Ok(Const::UInt(v as u64)),
            None => Err(ClassError::BadConstData),
        },
        TypeSize::U64 => match reader.read_u64() {
            Some(v) => Ok(Const::UInt(v)),
            None => Err(ClassError::BadConstData),
        },
        TypeSize::I32 => match reader.read_i32() {
            Some(v) => Ok(Const::Int(v as i64)),
            None => Err(ClassError::BadConstData),
        },
        TypeSize::I64 => match reader.read_i64() {
            Some(v) => Ok(Const::Int(v)),
            None => Err(ClassError::BadConstData),
        },
        TypeSize::F32 => match reader.read_u32() {
            Some(v) => Ok(Const::Float32(v)),
            None => Err(ClassError::BadConstData),
        },
        TypeSize::F64 => match reader.read_u64() {
            Some(v) => Ok(Const::Float64(v)),
            None => Err(ClassError::BadConstData),
        },
    }
}

impl Const {
    /// Reads a constant record; a string's bytes are copied into room taken
    /// from `memory`.
    pub fn load(reader: &mut Reader, memory: &mut MemoryRange) -> (r: ClassResult<Const>)
        ensures
            final(reader).data() == old(reader).data(),
            same_range(*final(memory), *old(memory)),
            final(memory).cursor() >= old(memory).cursor(),
            r is Ok ==> final(memory).cursor() == old(memory).cursor() + const_cost(r->Ok_0@),
            r is Err ==> *final(memory) == *old(memory),
            match parse_const(old(reader).data(), old(reader).position() as int) {
                Err(e) => r == Err::<Const, ClassError>(e),
                Ok((v, q)) => if v is Str && old(memory).cursor() + v->Str_0.len()
                    > old(memory).reserved() {
                    r == Err::<Const, ClassError>(ClassError::OutOfMemory)
                } else {
                    r is Ok && r->Ok_0@ == v && final(reader).position() == q
                },
            },
    {
        let ghost b = reader.data();
        let ghost p = reader.position() as int;
        let tag = match reader.read_u8() {
            Some(t) => t,
            None => return Err(ClassError::BadConstType),
        };
        let (type_size, flags) = TypeSize::extract(tag);
        let type_size = match type_size {
            Some(t) => t,
            None => return Err(ClassError::BadConstType),
        };
        if flags % 2 == 1 {
            let string_size = match read_const_num(type_size, reader) {
                Ok(Const::UInt(n)) => n,
                Ok(_) => return Err(ClassError::BadConstType),
                Err(e) => return Err(e),
            };
            if string_size > reader.remaining() as u64 {
                return Err(ClassError::BadConstData);
            }
            let bytes = match reader.read_bytes(string_size as usize) {
                Some(bytes) => bytes,
                None => return Err(ClassError::BadConstData),
            };
            match memory.alloc_bytes(string_size as usize) {
                Some(_) => {},
                None => return Err(ClassError::OutOfMemory),
            }
            Ok(Const::Str(vstd::slice::slice_to_vec(bytes)))
        } else {
            read_const_num(type_size, reader)
        }
    }
}

impl ConstPool {
    /// Reads a constant pool: a two-byte count, which may not be zero, then
    /// that many constants, with room for them taken from `memory`.
    pub fn load(reader: &mut Reader, memory: &mut MemoryRange) -> (r: ClassResult<ConstPool>)
        ensures
            final(reader).data() == old(reader).data(),
            same_range(*final(memory), *old(memory)),
            final(memory).cursor() >= old(memory).cursor(),
            r is Ok ==> parse_pool(old(reader).data(), old(reader).position() as int) == Ok::<
                (Seq<ConstVal>, int),
                ClassError,
            >((r->Ok_0.vals(), final(reader).position() as int)),
            r is Err && r->Err_0 != ClassError::OutOfMemory ==> parse_pool(
                old(reader).data(),
                old(reader).position() as int,
            ) == Err::<(Seq<ConstVal>, int), ClassError>(r->Err_0),
            parse_pool(old(reader).data(), old(reader).position() as int) is Err ==> r is Err,
            r is Ok ==> final(memory).cursor() == old(memory).cursor() + pool_cost(r->Ok_0.vals()),
            parse_pool(old(reader).data(), old(reader).position() as int) is Ok && old(memory).cursor()
                + pool_cost(parse_pool(old(reader).data(), old(reader).position() as int)->Ok_0.0)
                <= old(memory).reserved() ==> r is Ok,
            num_at(old(reader).data(), old(reader).position() as int, 2) == Some(0nat) ==> {
                &&& r == Err::<ConstPool, ClassError>(ClassError::BadConstSize)
                &&& final(reader).position() == old(reader).position() + 2
                &&& *final(memory) == *old(memory)
            },
            num_at(old(reader).data(), old(reader).position() as int, 2) is None ==> {
                &&& r == Err::<ConstPool, ClassError>(ClassError::BadConstSize)
                &&& *final(memory) == *old(memory)
            },
            old(memory).cursor() + pool_spent(old(reader).data(), old(reader).position() as int)
                <= old(memory).reserved() ==> {
                &&& final(memory).cursor() == old(memory).cursor() + pool_spent(
                    old(reader).data(),
                    old(reader).position() as int,
                )
                &&& match parse_pool(old(reader).data(), old(reader).position() as int) {
                    Ok((cs, q)) => r is Ok && r->Ok_0.vals() == cs && final(reader).position() == q,
                    Err(e) => r == Err::<ConstPool, ClassError>(e),
                }
            },
    {
        let ghost b = reader.data();
        let ghost p = reader.position() as int;
        let count = match reader.read_u16() {
            Some(n) => n as usize,
            None => return Err(ClassError::BadConstSize),
        };
        if count == 0 {
            return Err(ClassError::BadConstSize);
        }
        let ghost start = memory.cursor();
        let ghost total = parse_pool(b, p);
        let ghost ok = consts_ok(b, p + 2);
        let ghost room = start + pool_spent(b, p) <= memory.reserved();
        proof {
            lemma_consts_closed(b, p + 2);
            lemma_done_ge(ok, 0, count as nat);
        }
        match memory.alloc_many::<Const>(count) {
            Some(_) => {},
            None => {
                proof {
                    if total is Ok {
                        lemma_consts_prefix(b, p + 2, count as nat, count as nat);
                    }
                }
                return Err(ClassError::OutOfMemory);
            },
        }
        let mut pool: Vec<Const> = Vec::new();
        let mut i: usize = 0;
        assert(const_vals(pool@) =~= Seq::<ConstVal>::empty());
        proof {
            if total is Ok {
                lemma_consts_prefix(b, p + 2, 0, count as nat);
                assert(total->Ok_0.0.subrange(0, 0) =~= Seq::<ConstVal>::empty());
            }
        }
        while i < count
            invariant
                reader.data() == b,
                b == old(reader).data(),
                p == old(reader).position(),
                0 <= p,
                num_at(b, p, 2) == Some(count as nat),
                i <= count,
                parse_consts(b, p + 2, i as nat) == Ok::<(Seq<ConstVal>, int), ClassError>(
                    (const_vals(pool@), reader.position() as int),
                ),
                same_range(*memory, *old(memory)),
                memory.cursor() >= old(memory).cursor(),
                start == old(memory).cursor(),
                total == parse_pool(b, p),
                memory.cursor() == start + vstd::layout::size_of::<Const>() * count + str_cost(
                    const_vals(pool@),
                ),
                const_vals(pool@).len() == i,
                total is Ok ==> total->Ok_0.0.len() == count && const_vals(pool@)
                    == total->Ok_0.0.subrange(0, i as int),
                ok == consts_ok(b, p + 2),
                down_closed(ok),
                room == (start + pool_spent(b, p) <= memory.reserved()),
                memory.reserved() == old(memory).reserved(),
            decreases count - i,
        {
            let ghost before = pool@;
            let ghost q = reader.position() as int;
            match Const::load(reader, memory) {
                Ok(c) => {
                    pool.push(c);
                    proof {
                        assert(const_vals(pool@) =~= const_vals(before).push(c@));
                        assert(const_vals(pool@).drop_last() =~= const_vals(before));
                        if total is Ok {
                            lemma_consts_prefix(b, p + 2, (i + 1) as nat, count as nat);
                        }
                    }
                },
                Err(e) => {
                    proof {
                        if e != ClassError::OutOfMemory {
                            lemma_consts_err(b, p + 2, (i + 1) as nat, count as nat);
                            assert(ok(i as nat));
                            assert(!ok((i + 1) as nat));
                            lemma_done_stop(ok, i as nat, count as nat);
                        } else if room {
                            let d = done(ok, count as nat);
                            assert(ok((i + 1) as nat));
                            lemma_done_ge(ok, (i + 1) as nat, count as nat);
                            assert(ok(d));
                            lemma_consts_prefix(b, p + 2, (i + 1) as nat, d);
                            let all = parse_consts(b, p + 2, d)->Ok_0.0;
                            assert(all.subrange(0, i + 1).drop_last() =~= const_vals(pool@));
                            lemma_str_cost_prefix(all, (i + 1) as nat);
                            assert(false);
                        }
                        if total is Ok && e == ClassError::OutOfMemory {
                            let all = total->Ok_0.0;
                            lemma_consts_prefix(b, p + 2, (i + 1) as nat, count as nat);
                            let next = all.subrange(0, i + 1);
                            assert(next.drop_last() =~= all.subrange(0, i as int));
                            lemma_str_cost_prefix(all, (i + 1) as nat);
                        }
                    }
                    return Err(e);
                },
            }
            i = i + 1;
        }
        proof {
            if total is Ok {
                assert(total->Ok_0.0.subrange(0, count as int) =~= total->Ok_0.0);
            }
            assert(ok(count as nat));
            lemma_done_ge(ok, count as nat, count as nat);
        }
        Ok(ConstPool::new(pool))
    }
}

impl Method {
    /// Reads a method record: name index, access flags, and a tagged code
    /// position, which must be an unsigned number no larger than `code_size`.
    /// Its name is resolved in `pool`.
    pub fn load(code_size: u32, reader: &mut Reader, pool: &ConstPool) -> (r: ClassResult<Method>)
        ensures
            final(reader).data() == old(reader).data(),
            match parse_method(code_size as nat, old(reader).data(), old(reader).position() as int) {
                Ok((m, q)) => {
                    &&& r is Ok
                    &&& r->Ok_0.name == m.name
                    &&& r->Ok_0.access == m.access
                    &&& r->Ok_0.code_pos == m.code_pos
                    &&& r->Ok_0.next_method == 0
                    &&& r->Ok_0.key@ == method_key(pool.vals(), m)
                    &&& r->Ok_0.class@ == str_at(pool.vals(), 0)
                    &&& final(reader).position() == q
                },
                Err(e) => r == Err::<Method, ClassError>(e),
            },
    {
        let ghost b = reader.data();
        let ghost p = reader.position() as int;
        let name = match reader.read_u16() {
            Some(n) => n,
            None => return Err(ClassError::BadConstIndex),
        };
        let access = match reader.read_u8() {
            Some(a) => a,
            None => return Err(ClassError::BadAccessModifier),
        };
        let tag = match reader.read_u8() {
            Some(t) => t,
            None => return Err(ClassError::BadCodePos),
        };
        let (type_size, _) = TypeSize::extract(tag);
        let type_size = match type_size {
            Some(t) => t,
            None => return Err(ClassError::BadCodePos),
        };
        let code_pos = match read_const_num(type_size, reader) {
            Ok(Const::UInt(pos)) => {
                if pos <= code_size as u64 {
                    pos
                } else {
                    return Err(ClassError::BadCodePos);
                }
            },
            Ok(_) => return Err(ClassError::BadCodePos),
            Err(e) => return Err(e),
        };
        let key = vstd::slice::slice_to_vec(pool.str_or_empty(name as usize));
        let class = vstd::slice::slice_to_vec(pool.str_or_empty(0));
        Ok(Method { name, access, code_pos, next_method: 0, key, class })
    }
}

/// The field record `f` is the decoded record `v`, its name resolved in
/// `pool`, and owned by the class that `pool` names.
pub open spec fn field_is(f: Field, pool: Seq<ConstVal>, v: FieldVal) -> bool {
    &&& f@ == v
    &&& f.ctx().name@ == field_key(pool, v)
    &&& f.ctx().class@ == str_at(pool, 0)
}

/// The method record `m` is the decoded record `v`, its name resolved in
/// `pool`, and owned by the class that `pool` names.
pub open spec fn method_is(m: Method, pool: Seq<ConstVal>, v: MethodVal) -> bool {
    &&& m.name == v.name
    &&& m.access == v.access
    &&& m.code_pos == v.code_pos
    &&& m.key@ == method_key(pool, v)
    &&& m.class@ == str_at(pool, 0)
}

/// How many of the decoded records `fs` the field record `r` stands for.
pub open spec fn field_matches(fs: Seq<FieldVal>, pool: Seq<ConstVal>, r: Field) -> nat
    decreases fs.len(),
{
    if fs.len() == 0 {
        0
    } else {
        field_matches(fs.drop_last(), pool, r) + if field_is(r, pool, fs.last()) {
            1nat
        } else {
            0
        }
    }
}

/// How many of the decoded records `ms` the method record `r` stands for.
pub open spec fn method_matches(ms: Seq<MethodVal>, pool: Seq<ConstVal>, r: Method) -> nat
    decreases ms.len(),
{
    if ms.len() == 0 {
        0
    } else {
        method_matches(ms.drop_last(), pool, r) + if method_is(r, pool, ms.last()) {
            1nat
        } else {
            0
        }
    }
}

/// The slots of `s` hold exactly the records `fs`: each taken slot one of
/// them, and each of them in some taken slot. Opaque: `reveal(fields_in)`
/// brings in its body.
#[verifier::opaque]
pub open spec fn fields_in(s: Seq<Option<Field>>, pool: Seq<ConstVal>, fs: Seq<FieldVal>) -> bool {
    &&& forall|j: int|
        #[trigger] occupied(s, j) ==> exists|i: int|
            0 <= i < fs.len() && field_is(s[j]->Some_0, pool, #[trigger] fs[i])
    &&& forall|i: int|
        0 <= i < fs.len() ==> exists|j: int|
            #[trigger] occupied(s, j) && field_is(s[j]->Some_0, pool, #[trigger] fs[i])
}

/// The slots of `s` hold exactly the records `ms`: each taken slot one of
/// them, and each of them in some taken slot. Opaque: `reveal(methods_in)`
/// brings in its body.
#[verifier::opaque]
pub open spec fn methods_in(s: Seq<Option<Method>>, pool: Seq<ConstVal>, ms: Seq<MethodVal>) -> bool {
    &&& forall|j: int|
        #[trigger] occupied(s, j) ==> exists|i: int|
            0 <= i < ms.len() && method_is(s[j]->Some_0, pool, #[trigger] ms[i])
    &&& forall|i: int|
        0 <= i < ms.len() ==> exists|j: int|
            #[trigger] occupied(s, j) && method_is(s[j]->Some_0, pool, #[trigger] ms[i])
}

/// A class's field table holds exactly the records `fs`, one per slot
/// taken, under their names; a class without fields has no table.
pub open spec fn holds_fields(m: Option<Mapping<Field>>, pool: Seq<ConstVal>, fs: Seq<FieldVal>) -> bool {
    match m {
        None => fs.len() == 0,
        Some(t) => {
            &&& fs.len() > 0
            &&& t.wf()
            &&& t.count() == fs.len()
            &&& fields_in(t.slots(), pool, fs)
            &&& forall|r: Field| #[trigger] agree_count(t.slots(), r) == field_matches(fs, pool, r)
            &&& forall|k: Seq<u8>|
                #[trigger] t.contains(k) <==> exists|i: int|
                    0 <= i < fs.len() && field_key(pool, #[trigger] fs[i]) == k
        },
    }
}

/// A class's method table holds exactly the records `ms`, one per slot
/// taken, under their names; a class without methods has no table.
pub open spec fn holds_methods(m: Option<Mapping<Method>>, pool: Seq<ConstVal>, ms: Seq<MethodVal>) -> bool {
    match m {
        None => ms.len() == 0,
        Some(t) => {
            &&& ms.len() > 0
            &&& t.wf()
            &&& t.count() == ms.len()
            &&& methods_in(t.slots(), pool, ms)
            &&& forall|r: Method| #[trigger] agree_count(t.slots(), r) == method_matches(ms, pool, r)
            &&& forall|k: Seq<u8>|
                #[trigger] t.contains(k) <==> exists|i: int|
                    0 <= i < ms.len() && method_key(pool, #[trigger] ms[i]) == k
        },
    }
}

proof fn lemma_fields_step(
    s0: Seq<Option<Field>>,
    s1: Seq<Option<Field>>,
    f: Field,
    pool: Seq<ConstVal>,
    fs: Seq<FieldVal>,
    v: FieldVal,
)
    requires
        fields_in(s0, pool, fs),
        field_is(f, pool, v),
        kept(s0, s1, None),
        only_from(s1, s0, f),
        exists|j: int| #[trigger] occupied(s1, j) && s1[j]->Some_0.agrees(f),
    ensures
        fields_in(s1, pool, fs.push(v)),
{
    reveal(fields_in);
    let fs2 = fs.push(v);
    assert forall|j: int| #[trigger] occupied(s1, j) implies exists|i: int|
        0 <= i < fs2.len() && field_is(s1[j]->Some_0, pool, #[trigger] fs2[i]) by {
        let w = s1[j]->Some_0;
        if w.agrees(f) {
            assert(fs2[fs.len() as int] == v);
        } else {
            let j0 = choose|j0: int| #[trigger] occupied(s0, j0) && w.agrees(s0[j0]->Some_0);
            let i = choose|i: int| 0 <= i < fs.len() && field_is(s0[j0]->Some_0, pool, #[trigger] fs[i]);
            assert(fs2[i] == fs[i]);
        }
    }
    assert forall|i: int| 0 <= i < fs2.len() implies exists|j: int|
        #[trigger] occupied(s1, j) && field_is(s1[j]->Some_0, pool, #[trigger] fs2[i]) by {
        if i == fs.len() {
            let j = choose|j: int| #[trigger] occupied(s1, j) && s1[j]->Some_0.agrees(f);
            assert(occupied(s1, j) && field_is(s1[j]->Some_0, pool, fs2[i]));
        } else {
            assert(fs2[i] == fs[i]);
            let j0 = choose|j0: int| #[trigger] occupied(s0, j0) && field_is(s0[j0]->Some_0, pool, fs[i]);
            let j = choose|j: int| #[trigger] occupied(s1, j) && s1[j]->Some_0.agrees(s0[j0]->Some_0);
            assert(occupied(s1, j) && field_is(s1[j]->Some_0, pool, fs2[i]));
        }
    }
}

proof fn lemma_methods_step(
    s0: Seq<Option<Method>>,
    s1: Seq<Option<Method>>,
    m: Method,
    pool: Seq<ConstVal>,
    ms: Seq<MethodVal>,
    v: MethodVal,
)
    requires
        methods_in(s0, pool, ms),
        method_is(m, pool, v),
        kept(s0, s1, None),
        only_from(s1, s0, m),
        exists|j: int| #[trigger] occupied(s1, j) && s1[j]->Some_0.agrees(m),
    ensures
        methods_in(s1, pool, ms.push(v)),
{
    reveal(methods_in);
    let ms2 = ms.push(v);
    assert forall|j: int| #[trigger] occupied(s1, j) implies exists|i: int|
        0 <= i < ms2.len() && method_is(s1[j]->Some_0, pool, #[trigger] ms2[i]) by {
        let w = s1[j]->Some_0;
        if w.agrees(m) {
            assert(ms2[ms.len() as int] == v);
        } else {
            let j0 = choose|j0: int| #[trigger] occupied(s0, j0) && w.agrees(s0[j0]->Some_0);
            let i = choose|i: int| 0 <= i < ms.len() && method_is(s0[j0]->Some_0, pool, #[trigger] ms[i]);
            assert(ms2[i] == ms[i]);
        }
    }
    assert forall|i: int| 0 <= i < ms2.len() implies exists|j: int|
        #[trigger] occupied(s1, j) && method_is(s1[j]->Some_0, pool, #[trigger] ms2[i]) by {
        if i == ms.len() {
            let j = choose|j: int| #[trigger] occupied(s1, j) && s1[j]->Some_0.agrees(m);
            assert(occupied(s1, j) && method_is(s1[j]->Some_0, pool, ms2[i]));
        } else {
            assert(ms2[i] == ms[i]);
            let j0 = choose|j0: int| #[trigger] occupied(s0, j0) && method_is(s0[j0]->Some_0, pool, ms[i]);
            let j = choose|j: int| #[trigger] occupied(s1, j) && s1[j]->Some_0.agrees(s0[j0]->Some_0);
            assert(occupied(s1, j) && method_is(s1[j]->Some_0, pool, ms2[i]));
        }
    }
}

/// A class holds what the class-file value `v` says.
pub open spec fn class_holds(c: Class, v: ClassVal) -> bool {
    &&& c.kind() == v.kind
    &&& c.file().access == v.access
    &&& c.file().const_pool.vals() == v.pool
    &&& c.file().bytecode@ == v.code
    &&& holds_fields(c.file().fields, v.pool, v.fields)
    &&& holds_methods(c.file().methods, v.pool, v.methods)
}

/// A class equal but for its probe counter to one that holds `v` holds it too.
pub proof fn lemma_holds_agrees(a: Class, b: Class, v: ClassVal)
    requires
        a.agrees(b),
        class_holds(b, v),
    ensures
        class_holds(a, v),
{
}

/// A freshly loaded class holds what `v` says and has not been placed in a table.
pub open spec fn class_matches(c: Class, v: ClassVal) -> bool {
    class_holds(c, v) && c.file().next_class == 0
}

impl Field {
    /// Reads a field record of a class of kind `kind`; an enum field's named
    /// values each take room for a field from `memory`. Its name is resolved
    /// in `pool`.
    pub fn load(kind: u8, reader: &mut Reader, memory: &mut MemoryRange, pool: &ConstPool) -> (r:
        ClassResult<Field>)
        ensures
            final(reader).data() == old(reader).data(),
            same_range(*final(memory), *old(memory)),
            final(memory).cursor() >= old(memory).cursor(),
            r is Ok ==> {
                &&& parse_field(kind, old(reader).data(), old(reader).position() as int) == Ok::<
                    (FieldVal, int),
                    ClassError,
                >((r->Ok_0@, final(reader).position() as int))
                &&& r->Ok_0.ctx().name@ == field_key(pool.vals(), r->Ok_0@)
                &&& r->Ok_0.ctx().class@ == str_at(pool.vals(), 0)
                &&& r->Ok_0.ctx().next_field == 0
                &&& final(memory).cursor() == old(memory).cursor() + values_cost(r->Ok_0@)
            },
            parse_field(kind, old(reader).data(), old(reader).position() as int) is Ok && old(
                memory,
            ).cursor() + values_cost(
                parse_field(kind, old(reader).data(), old(reader).position() as int)->Ok_0.0,
            ) <= old(memory).reserved() ==> r is Ok,
            r is Err && r->Err_0 != ClassError::OutOfMemory ==> parse_field(
                kind,
                old(reader).data(),
                old(reader).position() as int,
            ) == Err::<(FieldVal, int), ClassError>(r->Err_0),
            parse_field(kind, old(reader).data(), old(reader).position() as int) is Err ==> r is Err,
            parse_field(kind, old(reader).data(), old(reader).position() as int) is Ok ==> field_spent(
                kind,
                old(reader).data(),
                old(reader).position() as int,
            ) == values_cost(
                parse_field(kind, old(reader).data(), old(reader).position() as int)->Ok_0.0,
            ),
            old(memory).cursor() + field_spent(kind, old(reader).data(), old(reader).position() as int)
                <= old(memory).reserved() ==> {
                &&& final(memory).cursor() == old(memory).cursor() + field_spent(
                    kind,
                    old(reader).data(),
                    old(reader).position() as int,
                )
                &&& match parse_field(kind, old(reader).data(), old(reader).position() as int) {
                    Ok((f, q)) => r is Ok && r->Ok_0@ == f && final(reader).position() == q,
                    Err(e) => r == Err::<Field, ClassError>(e),
                }
            },
    {
        let ghost b = reader.data();
        let ghost p = reader.position() as int;
        if kind == 2 {
            let module = match reader.read_u16() {
                Some(m) => m,
                None => return Err(ClassError::BadConstIndex),
            };
            let name = vstd::slice::slice_to_vec(pool.str_or_empty(module as usize));
            let class = vstd::slice::slice_to_vec(pool.str_or_empty(0));
            Ok(Field::Module(FieldContext { next_field: 0, name, class }, module))
        } else if kind == 1 {
            let field_name = match reader.read_u16() {
                Some(n) => n,
                None => return Err(ClassError::BadConstIndex),
            };
            let field_type = match reader.read_u16() {
                Some(t) => t,
                None => return Err(ClassError::BadConstIndex),
            };
            let name = vstd::slice::slice_to_vec(pool.str_or_empty(field_name as usize));
            let class = vstd::slice::slice_to_vec(pool.str_or_empty(0));
            Ok(Field::Struct(FieldContext { next_field: 0, name, class }, field_name, field_type))
        } else if kind == 0 {
            let field_name = match reader.read_u16() {
                Some(n) => n,
                None => return Err(ClassError::BadConstIndex),
            };
            let num_values = match reader.read_u16() {
                Some(n) => n,
                None => return Err(ClassError::BadEnumSize),
            };
            let ghost q = reader.position() as int;
            let ghost start = memory.cursor();
            let ghost sz = vstd::layout::size_of::<Field>();
            let ghost ok = values_ok(b, q);
            let ghost room = start + field_spent(kind, b, p) <= memory.reserved();
            proof {
                lemma_values_closed(b, q);
            }
            let mut values: Vec<u16> = Vec::new();
            let mut i: u16 = 0;
            while i < num_values
                invariant
                    reader.data() == b,
                    b == old(reader).data(),
                    p == old(reader).position(),
                    q == p + 4,
                    kind == 0,
                    num_at(b, p, 2) == Some(field_name as nat),
                    num_at(b, p + 2, 2) == Some(num_values as nat),
                    i <= num_values,
                    parse_values(b, q, i as nat) == Ok::<(Seq<u16>, int), ClassError>(
                        (values@, reader.position() as int),
                    ),
                    same_range(*memory, *old(memory)),
                    memory.cursor() >= old(memory).cursor(),
                    start == old(memory).cursor(),
                    sz == vstd::layout::size_of::<Field>(),
                    memory.cursor() == start + sized(sz, i as nat),
                    values@.len() == i,
                    ok == values_ok(b, q),
                    down_closed(ok),
                    room == (start + field_spent(kind, b, p) <= memory.reserved()),
                    memory.reserved() == old(memory).reserved(),
                decreases num_values - i,
            {
                let value = match reader.read_u16() {
                    Some(v) => v,
                    None => {
                        proof {
                            assert(num_at(b, reader.position() as int, 2) is None);
                            assert(parse_values(b, q, (i + 1) as nat) is Err);
                            lemma_values_err(b, q, (i + 1) as nat, num_values as nat);
                            assert(ok(i as nat));
                            assert(!ok((i + 1) as nat));
                            lemma_done_stop(ok, i as nat, num_values as nat);
                        }
                        return Err(ClassError::BadEnumField);
                    },
                };
                match memory.alloc_many::<Field>(1) {
                    Some(_) => {},
                    None => {
                        proof {
                            if parse_values(b, q, num_values as nat) is Ok {
                                lemma_values_prefix(b, q, num_values as nat, num_values as nat);
                                lemma_sized_mono(sz, (i + 1) as nat, num_values as nat);
                            }
                            if room {
                                assert(ok((i + 1) as nat));
                                lemma_done_ge(ok, (i + 1) as nat, num_values as nat);
                                lemma_sized_mono(sz, (i + 1) as nat, done(ok, num_values as nat));
                                assert(false);
                            }
                        }
                        return Err(ClassError::OutOfMemory);
                    },
                }
                values.push(value);
                i = i + 1;
            }
            proof {
                assert(ok(num_values as nat));
                lemma_done_ge(ok, num_values as nat, num_values as nat);
            }
            let name = vstd::slice::slice_to_vec(pool.str_or_empty(field_name as usize));
            let class = vstd::slice::slice_to_vec(pool.str_or_empty(0));
            Ok(Field::Enum(FieldContext { next_field: 0, name, class }, field_name, values))
        } else {
            Err(ClassError::BadClassType)
        }
    }
}

/// Reads the fields of a class of kind `kind`: a two-byte count, then the
/// records. Where there are any, they go into a table sized to the count,
/// its slots and each record taking room from `memory`.
pub fn load_fields(kind: u8, reader: &mut Reader, memory: &mut MemoryRange, pool: &ConstPool) -> (r:
    ClassResult<Option<Mapping<Field>>>)
    ensures
        final(reader).data() == old(reader).data(),
        same_range(*final(memory), *old(memory)),
        final(memory).cursor() >= old(memory).cursor(),
        r is Ok ==> {
            &&& parse_fields(kind, old(reader).data(), old(reader).position() as int) is Ok
            &&& parse_fields(kind, old(reader).data(), old(reader).position() as int)->Ok_0.1
                == final(reader).position()
            &&& holds_fields(
                r->Ok_0,
                pool.vals(),
                parse_fields(kind, old(reader).data(), old(reader).position() as int)->Ok_0.0,
            )
        },
        r is Err && r->Err_0 != ClassError::OutOfMemory ==> parse_fields(
            kind,
            old(reader).data(),
            old(reader).position() as int,
        ) == Err::<(Seq<FieldVal>, int), ClassError>(r->Err_0),
        parse_fields(kind, old(reader).data(), old(reader).position() as int) is Err ==> r is Err,
        r is Ok ==> final(memory).cursor() == old(memory).cursor() + fields_cost(
            parse_fields(kind, old(reader).data(), old(reader).position() as int)->Ok_0.0,
        ),
        parse_fields(kind, old(reader).data(), old(reader).position() as int) is Ok && old(
            memory,
        ).cursor() + fields_cost(
            parse_fields(kind, old(reader).data(), old(reader).position() as int)->Ok_0.0,
        ) <= old(memory).reserved() ==> r is Ok,
        old(memory).cursor() + fields_spent(kind, old(reader).data(), old(reader).position() as int)
            <= old(memory).reserved() ==> {
            &&& final(memory).cursor() == old(memory).cursor() + fields_spent(
                kind,
                old(reader).data(),
                old(reader).position() as int,
            )
            &&& match parse_fields(kind, old(reader).data(), old(reader).position() as int) {
                Ok((fs, q)) => r is Ok && final(reader).position() == q,
                Err(e) => r == Err::<Option<Mapping<Field>>, ClassError>(e),
            }
        },
{
    let ghost b = reader.data();
    let ghost p = reader.position() as int;
    let count = match reader.read_u16() {
        Some(n) => n as usize,
        None => return Err(ClassError::BadFieldSize),
    };
    let ghost total = parse_fields_n(kind, b, p + 2, count as nat);
    let ghost start = memory.cursor();
    let ghost sz = vstd::layout::size_of::<Field>();
    let ghost ok = fields_ok(kind, b, p + 2);
    let ghost room = start + fields_spent(kind, b, p) <= memory.reserved();
    proof {
        lemma_fields_closed(kind, b, p + 2);
        lemma_done_ge(ok, 0, count as nat);
    }
    if count == 0 {
        proof {
            assert(total->Ok_0.0 =~= Seq::<FieldVal>::empty());
        }
        return Ok(None);
    }
    let mut mapping = match Mapping::<Field>::from(memory, count) {
        Some(m) => m,
        None => {
            proof {
                if total is Ok {
                    lemma_fields_prefix(kind, b, p + 2, count as nat, count as nat);
                }
            }
            return Err(ClassError::OutOfMemory);
        },
    };
    let ghost mut fs: Seq<FieldVal> = Seq::empty();
    proof {
        mapping.lemma_empty();
        lemma_count_empty(mapping.slots());
        reveal(fields_in);
        reveal(methods_in);
        if total is Ok {
            lemma_fields_prefix(kind, b, p + 2, 0, count as nat);
            assert(total->Ok_0.0.subrange(0, 0) =~= fs);
        }
    }
    let mut i: usize = 0;
    while i < count
        invariant
            reader.data() == b,
            b == old(reader).data(),
            p == old(reader).position(),
            num_at(b, p, 2) == Some(count as nat),
            i <= count,
            parse_fields_n(kind, b, p + 2, i as nat) == Ok::<(Seq<FieldVal>, int), ClassError>(
                (fs, reader.position() as int),
            ),
            fs.len() == i,
            mapping.wf(),
            mapping.cap() == count,
            mapping.count() == i,
            forall|k: Seq<u8>|
                #[trigger] mapping.contains(k) <==> exists|j: int|
                    0 <= j < i && field_key(pool.vals(), #[trigger] fs[j]) == k,
            fields_in(mapping.slots(), pool.vals(), fs),
            forall|r: Field| #[trigger] agree_count(mapping.slots(), r) == field_matches(fs, pool.vals(), r),
            same_range(*memory, *old(memory)),
            memory.cursor() >= old(memory).cursor(),
            start == old(memory).cursor(),
            sz == vstd::layout::size_of::<Field>(),
            total == parse_fields_n(kind, b, p + 2, count as nat),
            memory.cursor() == start + sz * count + fields_cost_n(fs),
            total is Ok ==> total->Ok_0.0.len() == count && fs == total->Ok_0.0.subrange(
                0,
                i as int,
            ),
            ok == fields_ok(kind, b, p + 2),
            down_closed(ok),
            room == (start + fields_spent(kind, b, p) <= memory.reserved()),
            memory.reserved() == old(memory).reserved(),
        decreases count - i,
    {
        let ghost q = reader.position() as int;
        proof {
            if room {
                if parse_field(kind, b, q) is Ok {
                    let f0 = parse_field(kind, b, q)->Ok_0.0;
                    assert(ok((i + 1) as nat));
                    lemma_done_ge(ok, (i + 1) as nat, count as nat);
                    let d = done(ok, count as nat);
                    lemma_fields_prefix(kind, b, p + 2, (i + 1) as nat, d);
                    let all = parse_fields_n(kind, b, p + 2, d)->Ok_0.0;
                    let next = all.subrange(0, i + 1);
                    assert(next.drop_last() =~= fs);
                    assert(next.last() == f0);
                    lemma_fields_cost_prefix(all, (i + 1) as nat);
                } else {
                    assert(!ok((i + 1) as nat));
                    lemma_done_stop(ok, i as nat, count as nat);
                }
            }
        }
        let field = match Field::load(kind, reader, memory, pool) {
            Ok(f) => f,
            Err(e) => {
                proof {
                    if room {
                        assert(parse_field(kind, b, q) is Err);
                        lemma_fields_err(kind, b, p + 2, (i + 1) as nat, count as nat);
                    }
                    if e != ClassError::OutOfMemory {
                        lemma_fields_err(kind, b, p + 2, (i + 1) as nat, count as nat);
                    } else if total is Ok {
                        let all = total->Ok_0.0;
                        lemma_fields_prefix(kind, b, p + 2, (i + 1) as nat, count as nat);
                        assert(all.subrange(0, i + 1).drop_last() =~= all.subrange(0, i as int));
                        lemma_fields_cost_prefix(all, (i + 1) as nat);
                    }
                }
                return Err(e);
            },
        };
        match memory.alloc_many::<Field>(1) {
            Some(_) => {},
            None => {
                proof {
                    if room {
                        assert(false);
                    }
                    if total is Ok {
                        let all = total->Ok_0.0;
                        lemma_fields_prefix(kind, b, p + 2, (i + 1) as nat, count as nat);
                        assert(all.subrange(0, i + 1).drop_last() =~= all.subrange(0, i as int));
                        lemma_fields_cost_prefix(all, (i + 1) as nat);
                    }
                }
                return Err(ClassError::OutOfMemory);
            },
        }
        let ghost f = field@;
        let ghost old_fs = fs;
        let ghost old_mapping = mapping;
        let ghost fld = field;
        let _ = mapping.insert(field);
        proof {
            lemma_fields_step(old_mapping.slots(), mapping.slots(), fld, pool.vals(), fs, f);
            assert forall|r: Field| #[trigger] agree_count(mapping.slots(), r) == field_matches(
                fs.push(f),
                pool.vals(),
                r,
            ) by {
                assert(fs.push(f).drop_last() =~= fs);
            }
            fs = fs.push(f);
            assert(fs.drop_last() =~= old_fs);
            if total is Ok {
                lemma_fields_prefix(kind, b, p + 2, (i + 1) as nat, count as nat);
            }
            assert forall|k: Seq<u8>|
                #[trigger] mapping.contains(k) <==> exists|j: int|
                    0 <= j < i + 1 && field_key(pool.vals(), #[trigger] fs[j]) == k by {
                if old_mapping.contains(k) {
                    let j = choose|j: int| 0 <= j < i && field_key(pool.vals(), #[trigger] old_fs[j]) == k;
                    assert(fs[j] == old_fs[j]);
                }
                if k == field_key(pool.vals(), f) {
                    assert(fs[i as int] == f);
                }
                if exists|j: int| 0 <= j < i + 1 && field_key(pool.vals(), #[trigger] fs[j]) == k {
                    let j = choose|j: int| 0 <= j < i + 1 && field_key(pool.vals(), #[trigger] fs[j]) == k;
                    if j < i {
                        assert(fs[j] == old_fs[j]);
                    }
                }
            }
        }
        i = i + 1;
    }
    proof {
        assert(fs =~= total->Ok_0.0.subrange(0, count as int));
        assert(total->Ok_0.0.subrange(0, count as int) =~= total->Ok_0.0);
        assert(ok(count as nat));
        lemma_done_ge(ok, count as nat, count as nat);
    }
    Ok(Some(mapping))
}

/// Reads the methods of a class whose bytecode is `code_size` bytes long: a
/// two-byte count, then the records. Where there are any, they go into a
/// table sized to the count, its slots and each record taking room from
/// `memory`.
pub fn load_methods(code_size: u32, reader: &mut Reader, memory: &mut MemoryRange, pool: &ConstPool) -> (r:
    ClassResult<Option<Mapping<Method>>>)
    ensures
        final(reader).data() == old(reader).data(),
        same_range(*final(memory), *old(memory)),
        final(memory).cursor() >= old(memory).cursor(),
        r is Ok ==> {
            &&& parse_methods(code_size as nat, old(reader).data(), old(reader).position() as int) is Ok
            &&& parse_methods(code_size as nat, old(reader).data(), old(reader).position() as int)->Ok_0.1
                == final(reader).position()
            &&& holds_methods(
                r->Ok_0,
                pool.vals(),
                parse_methods(code_size as nat, old(reader).data(), old(reader).position() as int)->Ok_0.0,
            )
        },
        r is Err && r->Err_0 != ClassError::OutOfMemory ==> parse_methods(
            code_size as nat,
            old(reader).data(),
            old(reader).position() as int,
        ) == Err::<(Seq<MethodVal>, int), ClassError>(r->Err_0),
        parse_methods(code_size as nat, old(reader).data(), old(reader).position() as int) is Err ==> r is Err,
        r is Ok ==> final(memory).cursor() == old(memory).cursor() + methods_cost(
            parse_methods(code_size as nat, old(reader).data(), old(reader).position() as int)->Ok_0.0,
        ),
        parse_methods(code_size as nat, old(reader).data(), old(reader).position() as int) is Ok && old(
            memory,
        ).cursor() + methods_cost(
            parse_methods(code_size as nat, old(reader).data(), old(reader).position() as int)->Ok_0.0,
        ) <= old(memory).reserved() ==> r is Ok,
        old(memory).cursor() + methods_spent(code_size as nat, old(reader).data(), old(reader).position() as int)
            <= old(memory).reserved() ==> {
            &&& final(memory).cursor() == old(memory).cursor() + methods_spent(
                code_size as nat,
                old(reader).data(),
                old(reader).position() as int,
            )
            &&& match parse_methods(code_size as nat, old(reader).data(), old(reader).position() as int) {
                Ok((ms, q)) => r is Ok && final(reader).position() == q,
                Err(e) => r == Err::<Option<Mapping<Method>>, ClassError>(e),
            }
        },
{
    let ghost b = reader.data();
    let ghost p = reader.position() as int;
    let count = match reader.read_u16() {
        Some(n) => n as usize,
        None => return Err(ClassError::BadMethodSize),
    };
    let ghost total = parse_methods_n(code_size as nat, b, p + 2, count as nat);
    let ghost start = memory.cursor();
    let ghost sz = vstd::layout::size_of::<Method>();
    let ghost ok = methods_ok(code_size as nat, b, p + 2);
    let ghost room = start + methods_spent(code_size as nat, b, p) <= memory.reserved();
    proof {
        lemma_methods_closed(code_size as nat, b, p + 2);
        lemma_done_ge(ok, 0, count as nat);
    }
    if count == 0 {
        proof {
            assert(total->Ok_0.0 =~= Seq::<MethodVal>::empty());
        }
        return Ok(None);
    }
    let mut mapping = match Mapping::<Method>::from(memory, count) {
        Some(m) => m,
        None => {
            proof {
                if total is Ok {
                    lemma_methods_len(code_size as nat, b, p + 2, count as nat, count as nat);
                }
            }
            return Err(ClassError::OutOfMemory);
        },
    };
    let ghost mut ms: Seq<MethodVal> = Seq::empty();
    proof {
        mapping.lemma_empty();
        lemma_count_empty(mapping.slots());
        reveal(fields_in);
        reveal(methods_in);
    }
    let mut i: usize = 0;
    while i < count
        invariant
            reader.data() == b,
            b == old(reader).data(),
            p == old(reader).position(),
            num_at(b, p, 2) == Some(count as nat),
            i <= count,
            parse_methods_n(code_size as nat, b, p + 2, i as nat) == Ok::<(Seq<MethodVal>, int), ClassError>(
                (ms, reader.position() as int),
            ),
            ms.len() == i,
            mapping.wf(),
            mapping.cap() == count,
            mapping.count() == i,
            forall|k: Seq<u8>|
                #[trigger] mapping.contains(k) <==> exists|j: int|
                    0 <= j < i && method_key(pool.vals(), #[trigger] ms[j]) == k,
            methods_in(mapping.slots(), pool.vals(), ms),
            forall|r: Method| #[trigger] agree_count(mapping.slots(), r) == method_matches(ms, pool.vals(), r),
            same_range(*memory, *old(memory)),
            memory.cursor() >= old(memory).cursor(),
            start == old(memory).cursor(),
            sz == vstd::layout::size_of::<Method>(),
            total == parse_methods_n(code_size as nat, b, p + 2, count as nat),
            memory.cursor() == start + sz * count + sized(sz, i as nat),
            ok == methods_ok(code_size as nat, b, p + 2),
            down_closed(ok),
            room == (start + methods_spent(code_size as nat, b, p) <= memory.reserved()),
            memory.reserved() == old(memory).reserved(),
        decreases count - i,
    {
        let ghost q = reader.position() as int;
        let method = match Method::load(code_size, reader, pool) {
            Ok(m) => m,
            Err(e) => {
                proof {
                    lemma_methods_err(code_size as nat, b, p + 2, (i + 1) as nat, count as nat);
                    assert(ok(i as nat));
                    assert(!ok((i + 1) as nat));
                    lemma_done_stop(ok, i as nat, count as nat);
                }
                return Err(e);
            },
        };
        match memory.alloc_many::<Method>(1) {
            Some(_) => {},
            None => {
                proof {
                    if total is Ok {
                        lemma_methods_len(code_size as nat, b, p + 2, count as nat, count as nat);
                        lemma_sized_mono(sz, (i + 1) as nat, count as nat);
                    }
                    if room {
                        assert(ok((i + 1) as nat));
                        lemma_done_ge(ok, (i + 1) as nat, count as nat);
                        lemma_sized_mono(sz, (i + 1) as nat, done(ok, count as nat));
                        assert(false);
                    }
                }
                return Err(ClassError::OutOfMemory);
            },
        }
        let ghost m = parse_method(code_size as nat, b, q)->Ok_0.0;
        let ghost old_ms = ms;
        let ghost old_mapping = mapping;
        let ghost mth = method;
        let _ = mapping.insert(method);
        proof {
            lemma_methods_step(old_mapping.slots(), mapping.slots(), mth, pool.vals(), ms, m);
            assert forall|r: Method| #[trigger] agree_count(mapping.slots(), r) == method_matches(
                ms.push(m),
                pool.vals(),
                r,
            ) by {
                assert(ms.push(m).drop_last() =~= ms);
            }
            ms = ms.push(m);
            assert forall|k: Seq<u8>|
                #[trigger] mapping.contains(k) <==> exists|j: int|
                    0 <= j < i + 1 && method_key(pool.vals(), #[trigger] ms[j]) == k by {
                if old_mapping.contains(k) {
                    let j = choose|j: int| 0 <= j < i && method_key(pool.vals(), #[trigger] old_ms[j]) == k;
                    assert(ms[j] == old_ms[j]);
                }
                if k == method_key(pool.vals(), m) {
                    assert(ms[i as int] == m);
                }
                if exists|j: int| 0 <= j < i + 1 && method_key(pool.vals(), #[trigger] ms[j]) == k {
                    let j = choose|j: int| 0 <= j < i + 1 && method_key(pool.vals(), #[trigger] ms[j]) == k;
                    if j < i {
                        assert(ms[j] == old_ms[j]);
                    }
                }
            }
        }
        i = i + 1;
    }
    proof {
        assert(ok(count as nat));
        lemma_done_ge(ok, count as nat, count as nat);
    }
    Ok(Some(mapping))
}

impl Class {
    /// Decodes the class file `bytes`: magic, kind, access flags, constant
    /// pool, bytecode size, fields, methods, then the bytecode itself. Records
    /// take room from `memory`; the bytecode is copied into room taken from
    /// `code`. The first thing wrong ends the load with its error.
    #[verifier::rlimit(100)]
    pub fn load(bytes: &[u8], memory: &mut MemoryRange, code: &mut MemoryRange) -> (r: ClassResult<
        Class,
    >)
        ensures
            same_range(*final(memory), *old(memory)),
            final(memory).cursor() >= old(memory).cursor(),
            same_range(*final(code), *old(code)),
            final(code).cursor() >= old(code).cursor(),
            r is Ok ==> parse_class(bytes@) is Ok && class_matches(r->Ok_0, parse_class(bytes@)->Ok_0),
            r is Err && r->Err_0 != ClassError::OutOfMemory ==> parse_class(bytes@) == Err::<
                ClassVal,
                ClassError,
            >(r->Err_0),
            parse_class(bytes@) is Err ==> r is Err,
            r is Ok ==> {
                &&& final(memory).cursor() == old(memory).cursor() + class_cost(parse_class(bytes@)->Ok_0)
                &&& final(code).cursor() == old(code).cursor() + parse_class(bytes@)->Ok_0.code.len()
            },
            parse_class(bytes@) is Ok && old(memory).cursor() + class_cost(parse_class(bytes@)->Ok_0)
                <= old(memory).reserved() && old(code).cursor() + parse_class(bytes@)->Ok_0.code.len()
                <= old(code).reserved() ==> r is Ok,
            r is Err ==> *final(code) == *old(code),
            old(memory).cursor() + class_spent(bytes@) <= old(memory).reserved() && old(code).cursor()
                + code_spent(bytes@) <= old(code).reserved() ==> {
                &&& final(memory).cursor() == old(memory).cursor() + class_spent(bytes@)
                &&& final(code).cursor() == old(code).cursor() + code_spent(bytes@)
                &&& match parse_class(bytes@) {
                    Ok(v) => r is Ok && class_matches(r->Ok_0, v),
                    Err(e) => r == Err::<Class, ClassError>(e),
                }
            },
            bytes@.len() < 4 || bytes@.subrange(0, 4) != magic() ==> {
                &&& r == Err::<Class, ClassError>(ClassError::BadClassMagic)
                &&& *final(memory) == *old(memory)
                &&& *final(code) == *old(code)
            },
    {
        let ghost b = bytes@;
        let mut reader = Reader::from(bytes);
        let header = match reader.read_bytes(4) {
            Some(h) => h,
            None => return Err(ClassError::BadClassMagic),
        };
        if !(header[0] == 36 && header[1] == 71 && header[2] == 76 && header[3] == 82) {
            proof {
                assert(header@ != magic()) by {
                    if header@ == magic() {
                        assert(header@[0] == 36u8);
                    }
                }
            }
            return Err(ClassError::BadClassMagic);
        }
        proof {
            assert(b.subrange(0, 4) =~= magic());
        }
        let class_type = match reader.read_u8() {
            Some(t) => t,
            None => return Err(ClassError::BadClassType),
        };
        if class_type > 2 {
            return Err(ClassError::BadClassType);
        }
        let access = match reader.read_u8() {
            Some(a) => a,
            None => return Err(ClassError::BadAccessModifier),
        };
        let const_pool = match ConstPool::load(&mut reader, memory) {
            Ok(pool) => pool,
            Err(e) => return Err(e),
        };
        let ghost pool_end = reader.position() as int;
        let code_size = match reader.read_u32() {
            Some(n) => n,
            None => return Err(ClassError::BadCodeSize),
        };
        let fields = match load_fields(class_type, &mut reader, memory, &const_pool) {
            Ok(f) => f,
            Err(e) => return Err(e),
        };
        let ghost fields_end = reader.position() as int;
        let methods = match load_methods(code_size, &mut reader, memory, &const_pool) {
            Ok(m) => m,
            Err(e) => return Err(e),
        };
        let code_data = match reader.read_bytes(code_size as usize) {
            Some(c) => c,
            None => return Err(ClassError::BadCodeData),
        };
        let code_addr = match code.alloc_bytes(code_size as usize) {
            Some(a) => a,
            None => return Err(ClassError::OutOfMemory),
        };
        let class_file = ClassFile {
            access,
            next_class: 0,
            const_pool,
            fields,
            methods,
            bytecode: vstd::slice::slice_to_vec(code_data),
            code: code_addr,
        };
        match class_type {
            0 => Ok(Class::Enum(class_file)),
            1 => Ok(Class::Struct(class_file)),
            2 => Ok(Class::Module(class_file)),
            _ => Err(ClassError::BadClassType),
        }
    }
}

} // verus!
