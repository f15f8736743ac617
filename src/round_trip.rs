//! An encoder for class files, stated as spec functions, and the proof that
//! decoding what it writes gives back the class.
use vstd::prelude::*;
use vstd::arithmetic::div_mod::lemma_fundamental_div_mod;
use crate::class_file::FieldVal;
use crate::class_error::ClassError;
use crate::const_pool::ConstVal;
use crate::opcodes::TypeSize;
use crate::format::{
    ClassVal, MethodVal, byte_at, parse_num, tag_is_string, tag_size, magic, num_at, parse_class, parse_const, parse_consts,
    parse_field, parse_fields, parse_fields_n, parse_method, parse_methods, parse_methods_n,
    parse_pool, parse_values,
};
use crate::reader::{le_nat, lemma_pow256_values, pow256, signed_of};

verus! {

/// `n` written in `w` bytes, least significant first.
pub open spec fn le_bytes(n: nat, w: nat) -> Seq<u8>
    decreases w,
{
    if w == 0 {
        Seq::empty()
    } else {
        seq![(n % 256) as u8] + le_bytes(n / 256, (w - 1) as nat)
    }
}

/// The 64-bit two's complement bits of `i`.
pub open spec fn twos64(i: int) -> nat {
    if i >= 0 {
        i as nat
    } else {
        (i + 0x1_0000_0000_0000_0000) as nat
    }
}

/// A constant record: unsigned and signed numbers in eight bytes, floats in
/// their own width, strings with an eight-byte length.
pub open spec fn enc_const(c: ConstVal) -> Seq<u8> {
    match c {
        ConstVal::UInt(n) => seq![0x60u8] + le_bytes(n, 8),
        ConstVal::Int(i) => seq![0xA0u8] + le_bytes(twos64(i), 8),
        ConstVal::Float32(f) => seq![0xC0u8] + le_bytes(f as nat, 4),
        ConstVal::Float64(f) => seq![0xE0u8] + le_bytes(f as nat, 8),
        ConstVal::Str(s) => seq![0x61u8] + le_bytes(s.len(), 8) + s,
    }
}

pub open spec fn enc_consts(cs: Seq<ConstVal>) -> Seq<u8>
    decreases cs.len(),
{
    if cs.len() == 0 {
        Seq::empty()
    } else {
        enc_consts(cs.drop_last()) + enc_const(cs.last())
    }
}

pub open spec fn enc_values(vs: Seq<u16>) -> Seq<u8>
    decreases vs.len(),
{
    if vs.len() == 0 {
        Seq::empty()
    } else {
        enc_values(vs.drop_last()) + le_bytes(vs.last() as nat, 2)
    }
}

pub open spec fn enc_field(f: FieldVal) -> Seq<u8> {
    match f {
        FieldVal::Module(m) => le_bytes(m as nat, 2),
        FieldVal::Struct(n, t) => le_bytes(n as nat, 2) + le_bytes(t as nat, 2),
        FieldVal::Enum(n, vs) => le_bytes(n as nat, 2) + le_bytes(vs.len(), 2) + enc_values(vs),
    }
}

pub open spec fn enc_fields(fs: Seq<FieldVal>) -> Seq<u8>
    decreases fs.len(),
{
    if fs.len() == 0 {
        Seq::empty()
    } else {
        enc_fields(fs.drop_last()) + enc_field(fs.last())
    }
}

/// A method record, its code position written as an eight-byte unsigned number.
pub open spec fn enc_method(m: MethodVal) -> Seq<u8> {
    le_bytes(m.name as nat, 2) + seq![m.access] + seq![0x60u8] + le_bytes(m.code_pos as nat, 8)
}

pub open spec fn enc_methods(ms: Seq<MethodVal>) -> Seq<u8>
    decreases ms.len(),
{
    if ms.len() == 0 {
        Seq::empty()
    } else {
        enc_methods(ms.drop_last()) + enc_method(ms.last())
    }
}

/// The class file that holds `v`.
pub open spec fn encode_class(v: ClassVal) -> Seq<u8> {
    magic() + seq![v.kind, v.access] + le_bytes(v.pool.len(), 2) + enc_consts(v.pool) + le_bytes(
        v.code.len(),
        4,
    ) + le_bytes(v.fields.len(), 2) + enc_fields(v.fields) + le_bytes(v.methods.len(), 2)
        + enc_methods(v.methods) + v.code
}

/// A constant that the format can hold.
pub open spec fn const_ok(c: ConstVal) -> bool {
    match c {
        ConstVal::UInt(n) => n < 0x1_0000_0000_0000_0000,
        ConstVal::Int(i) => -0x8000_0000_0000_0000 <= i < 0x8000_0000_0000_0000,
        ConstVal::Str(s) => s.len() < 0x1_0000_0000_0000_0000,
        _ => true,
    }
}

/// A field record of the shape that a class of kind `kind` has.
pub open spec fn field_ok(kind: u8, f: FieldVal) -> bool {
    match f {
        FieldVal::Module(_) => kind == 2,
        FieldVal::Struct(_, _) => kind == 1,
        FieldVal::Enum(_, vs) => kind == 0 && vs.len() < 0x1_0000,
    }
}

/// A class that a class file can hold: a known kind, a pool of one to
/// 65535 constants, at most 65535 fields of the kind's shape and 65535
/// methods whose code starts within the bytecode, and under 4 GiB of bytecode.
pub open spec fn class_ok(v: ClassVal) -> bool {
    &&& v.kind <= 2
    &&& 0 < v.pool.len() < 0x1_0000
    &&& forall|i: int| 0 <= i < v.pool.len() ==> const_ok(#[trigger] v.pool[i])
    &&& v.fields.len() < 0x1_0000
    &&& forall|i: int| 0 <= i < v.fields.len() ==> field_ok(v.kind, #[trigger] v.fields[i])
    &&& v.methods.len() < 0x1_0000
    &&& forall|i: int| 0 <= i < v.methods.len() ==> #[trigger] v.methods[i].code_pos <= v.code.len()
    &&& v.code.len() < 0x1_0000_0000
}

/// `e` stands in `b` from `p`.
pub open spec fn at(b: Seq<u8>, p: int, e: Seq<u8>) -> bool {
    0 <= p && p + e.len() <= b.len() && b.subrange(p, p + e.len()) == e
}

proof fn lemma_split(b: Seq<u8>, p: int, e1: Seq<u8>, e2: Seq<u8>)
    requires
        at(b, p, e1 + e2),
    ensures
        at(b, p, e1),
        at(b, p + e1.len(), e2),
{
    let e = e1 + e2;
    assert(b.subrange(p, p + e1.len()) =~= e1) by {
        assert forall|i: int| 0 <= i < e1.len() implies b.subrange(p, p + e1.len())[i] == e1[i] by {
            assert(b.subrange(p, p + e.len())[i] == e[i]);
        }
    }
    assert(b.subrange(p + e1.len(), p + e1.len() + e2.len()) =~= e2) by {
        assert forall|i: int| 0 <= i < e2.len() implies b.subrange(
            p + e1.len(),
            p + e1.len() + e2.len(),
        )[i] == e2[i] by {
            assert(b.subrange(p, p + e.len())[e1.len() + i] == e[e1.len() + i]);
        }
    }
}

proof fn lemma_le_bytes(n: nat, w: nat)
    requires
        n < pow256(w),
    ensures
        le_bytes(n, w).len() == w,
        le_nat(le_bytes(n, w)) == n,
    decreases w,
{
    if w > 0 {
        let m = (w - 1) as nat;
        assert(pow256(w) == 256 * pow256(m));
        lemma_fundamental_div_mod(n as int, 256);
        assert(n / 256 < pow256(m)) by (nonlinear_arith)
            requires
                n < 256 * pow256(m),
        ;
        lemma_le_bytes(n / 256, m);
        let s = le_bytes(n, w);
        assert(s.drop_first() =~= le_bytes(n / 256, m));
    }
}

proof fn lemma_num(b: Seq<u8>, p: int, n: nat, w: nat)
    requires
        n < pow256(w),
        at(b, p, le_bytes(n, w)),
    ensures
        num_at(b, p, w) == Some(n),
        le_bytes(n, w).len() == w,
{
    lemma_le_bytes(n, w);
}

proof fn lemma_byte(b: Seq<u8>, p: int, x: u8)
    requires
        at(b, p, seq![x]),
    ensures
        byte_at(b, p) == Some(x),
{
    assert(b.subrange(p, p + 1)[0] == b[p]);
}

proof fn lemma_const(b: Seq<u8>, p: int, c: ConstVal)
    requires
        const_ok(c),
        at(b, p, enc_const(c)),
    ensures
        parse_const(b, p) == Ok::<(ConstVal, int), ClassError>((c, p + enc_const(c).len())),
{
    lemma_pow256_values();
    match c {
        ConstVal::UInt(n) => {
            lemma_split(b, p, seq![0x60u8], le_bytes(n, 8));
            lemma_byte(b, p, 0x60u8);
            lemma_num(b, p + 1, n, 8);
            assert(tag_size(0x60u8) == TypeSize::U64);
            assert(!tag_is_string(0x60u8));
            assert(parse_num(TypeSize::U64, b, p + 1) == Ok::<(ConstVal, int), ClassError>(
                (ConstVal::UInt(n), p + 9),
            ));
        },
        ConstVal::Int(i) => {
            lemma_split(b, p, seq![0xA0u8], le_bytes(twos64(i), 8));
            lemma_byte(b, p, 0xA0u8);
            lemma_num(b, p + 1, twos64(i), 8);
            assert(signed_of(twos64(i), 64) == i);
        },
        ConstVal::Float32(f) => {
            lemma_split(b, p, seq![0xC0u8], le_bytes(f as nat, 4));
            lemma_byte(b, p, 0xC0u8);
            lemma_num(b, p + 1, f as nat, 4);
        },
        ConstVal::Float64(f) => {
            lemma_split(b, p, seq![0xE0u8], le_bytes(f as nat, 8));
            lemma_byte(b, p, 0xE0u8);
            lemma_num(b, p + 1, f as nat, 8);
        },
        ConstVal::Str(s) => {
            lemma_split(b, p, seq![0x61u8] + le_bytes(s.len(), 8), s);
            lemma_split(b, p, seq![0x61u8], le_bytes(s.len(), 8));
            lemma_byte(b, p, 0x61u8);
            lemma_num(b, p + 1, s.len(), 8);
        },
    }
}

proof fn lemma_consts(b: Seq<u8>, p: int, cs: Seq<ConstVal>)
    requires
        forall|i: int| 0 <= i < cs.len() ==> const_ok(#[trigger] cs[i]),
        at(b, p, enc_consts(cs)),
    ensures
        parse_consts(b, p, cs.len()) == Ok::<(Seq<ConstVal>, int), ClassError>(
            (cs, p + enc_consts(cs).len()),
        ),
    decreases cs.len(),
{
    if cs.len() > 0 {
        let init = cs.drop_last();
        lemma_split(b, p, enc_consts(init), enc_const(cs.last()));
        assert forall|i: int| 0 <= i < init.len() implies const_ok(#[trigger] init[i]) by {
            assert(init[i] == cs[i]);
        }
        lemma_consts(b, p, init);
        assert(const_ok(cs[cs.len() - 1]));
        lemma_const(b, p + enc_consts(init).len(), cs.last());
        assert(init.push(cs.last()) =~= cs);
    } else {
        assert(cs =~= Seq::<ConstVal>::empty());
    }
}

proof fn lemma_values(b: Seq<u8>, p: int, vs: Seq<u16>)
    requires
        at(b, p, enc_values(vs)),
    ensures
        parse_values(b, p, vs.len()) == Ok::<(Seq<u16>, int), ClassError>(
            (vs, p + enc_values(vs).len()),
        ),
    decreases vs.len(),
{
    if vs.len() > 0 {
        let init = vs.drop_last();
        lemma_pow256_values();
        lemma_split(b, p, enc_values(init), le_bytes(vs.last() as nat, 2));
        lemma_values(b, p, init);
        lemma_num(b, p + enc_values(init).len(), vs.last() as nat, 2);
        assert(init.push(vs.last()) =~= vs);
    } else {
        assert(vs =~= Seq::<u16>::empty());
    }
}

proof fn lemma_field(b: Seq<u8>, p: int, kind: u8, f: FieldVal)
    requires
        field_ok(kind, f),
        at(b, p, enc_field(f)),
    ensures
        parse_field(kind, b, p) == Ok::<(FieldVal, int), ClassError>((f, p + enc_field(f).len())),
{
    lemma_pow256_values();
    match f {
        FieldVal::Module(m) => {
            lemma_num(b, p, m as nat, 2);
        },
        FieldVal::Struct(n, t) => {
            lemma_split(b, p, le_bytes(n as nat, 2), le_bytes(t as nat, 2));
            lemma_num(b, p, n as nat, 2);
            lemma_le_bytes(n as nat, 2);
            lemma_num(b, p + 2, t as nat, 2);
            lemma_le_bytes(t as nat, 2);
        },
        FieldVal::Enum(n, vs) => {
            lemma_split(b, p, le_bytes(n as nat, 2) + le_bytes(vs.len(), 2), enc_values(vs));
            lemma_split(b, p, le_bytes(n as nat, 2), le_bytes(vs.len(), 2));
            lemma_num(b, p, n as nat, 2);
            lemma_le_bytes(n as nat, 2);
            lemma_num(b, p + 2, vs.len(), 2);
            lemma_le_bytes(vs.len(), 2);
            lemma_values(b, p + 4, vs);
        },
    }
}

proof fn lemma_fields(b: Seq<u8>, p: int, kind: u8, fs: Seq<FieldVal>)
    requires
        forall|i: int| 0 <= i < fs.len() ==> field_ok(kind, #[trigger] fs[i]),
        at(b, p, enc_fields(fs)),
    ensures
        parse_fields_n(kind, b, p, fs.len()) == Ok::<(Seq<FieldVal>, int), ClassError>(
            (fs, p + enc_fields(fs).len()),
        ),
    decreases fs.len(),
{
    if fs.len() > 0 {
        let init = fs.drop_last();
        lemma_split(b, p, enc_fields(init), enc_field(fs.last()));
        assert forall|i: int| 0 <= i < init.len() implies field_ok(kind, #[trigger] init[i]) by {
            assert(init[i] == fs[i]);
        }
        lemma_fields(b, p, kind, init);
        assert(field_ok(kind, fs[fs.len() - 1]));
        lemma_field(b, p + enc_fields(init).len(), kind, fs.last());
        assert(init.push(fs.last()) =~= fs);
    } else {
        assert(fs =~= Seq::<FieldVal>::empty());
    }
}

proof fn lemma_method(b: Seq<u8>, p: int, code_size: nat, m: MethodVal)
    requires
        m.code_pos <= code_size,
        at(b, p, enc_method(m)),
    ensures
        parse_method(code_size, b, p) == Ok::<(MethodVal, int), ClassError>(
            (m, p + enc_method(m).len()),
        ),
{
    lemma_pow256_values();
    let e1 = le_bytes(m.name as nat, 2);
    lemma_le_bytes(m.name as nat, 2);
    lemma_split(b, p, e1 + seq![m.access] + seq![0x60u8], le_bytes(m.code_pos as nat, 8));
    lemma_split(b, p, e1 + seq![m.access], seq![0x60u8]);
    lemma_split(b, p, e1, seq![m.access]);
    lemma_num(b, p, m.name as nat, 2);
    lemma_byte(b, p + 2, m.access);
    lemma_byte(b, p + 3, 0x60u8);
    lemma_num(b, p + 4, m.code_pos as nat, 8);
    lemma_le_bytes(m.code_pos as nat, 8);
}

proof fn lemma_methods(b: Seq<u8>, p: int, code_size: nat, ms: Seq<MethodVal>)
    requires
        forall|i: int| 0 <= i < ms.len() ==> #[trigger] ms[i].code_pos <= code_size,
        at(b, p, enc_methods(ms)),
    ensures
        parse_methods_n(code_size, b, p, ms.len()) == Ok::<(Seq<MethodVal>, int), ClassError>(
            (ms, p + enc_methods(ms).len()),
        ),
    decreases ms.len(),
{
    if ms.len() > 0 {
        let init = ms.drop_last();
        lemma_split(b, p, enc_methods(init), enc_method(ms.last()));
        assert forall|i: int| 0 <= i < init.len() implies #[trigger] init[i].code_pos <= code_size by {
            assert(init[i] == ms[i]);
        }
        lemma_methods(b, p, code_size, init);
        assert(ms[ms.len() - 1].code_pos <= code_size);
        lemma_method(b, p + enc_methods(init).len(), code_size, ms.last());
        assert(init.push(ms.last()) =~= ms);
    } else {
        assert(ms =~= Seq::<MethodVal>::empty());
    }
}

/// Where each part of the file that holds `v` stands, and what it decodes to.
#[verifier::rlimit(100)]
proof fn lemma_pieces(v: ClassVal)
    requires
        class_ok(v),
    ensures
        ({
            let b = encode_class(v);
            let p2 = 8 + enc_consts(v.pool).len() as int;
            let p5 = p2 + 6 + enc_fields(v.fields).len() as int;
            let p7 = p5 + 2 + enc_methods(v.methods).len() as int;
            &&& b.len() >= 4 && b.subrange(0, 4) == magic()
            &&& byte_at(b, 4) == Some(v.kind)
            &&& byte_at(b, 5) == Some(v.access)
            &&& parse_pool(b, 6) == Ok::<(Seq<ConstVal>, int), ClassError>((v.pool, p2))
            &&& num_at(b, p2, 4) == Some(v.code.len())
            &&& parse_fields(v.kind, b, p2 + 4) == Ok::<(Seq<FieldVal>, int), ClassError>((v.fields, p5))
            &&& parse_methods(v.code.len(), b, p5) == Ok::<(Seq<MethodVal>, int), ClassError>(
                (v.methods, p7),
            )
            &&& p7 + v.code.len() == b.len()
            &&& b.subrange(p7, p7 + v.code.len()) == v.code
        }),
{
    lemma_pow256_values();
    let b = encode_class(v);
    let h0 = magic() + seq![v.kind, v.access];
    let h1 = h0 + le_bytes(v.pool.len(), 2);
    let h2 = h1 + enc_consts(v.pool);
    let h3 = h2 + le_bytes(v.code.len(), 4);
    let h4 = h3 + le_bytes(v.fields.len(), 2);
    let h5 = h4 + enc_fields(v.fields);
    let h6 = h5 + le_bytes(v.methods.len(), 2);
    let h7 = h6 + enc_methods(v.methods);
    assert(b == h7 + v.code);
    assert(at(b, 0, b)) by {
        assert(b.subrange(0, b.len() as int) =~= b);
    }
    lemma_split(b, 0, h7, v.code);
    lemma_split(b, 0, h6, enc_methods(v.methods));
    lemma_split(b, 0, h5, le_bytes(v.methods.len(), 2));
    lemma_split(b, 0, h4, enc_fields(v.fields));
    lemma_split(b, 0, h3, le_bytes(v.fields.len(), 2));
    lemma_split(b, 0, h2, le_bytes(v.code.len(), 4));
    lemma_split(b, 0, h1, enc_consts(v.pool));
    lemma_split(b, 0, h0, le_bytes(v.pool.len(), 2));
    lemma_split(b, 0, magic(), seq![v.kind, v.access]);
    assert(seq![v.kind, v.access] =~= seq![v.kind] + seq![v.access]);
    lemma_split(b, 4, seq![v.kind], seq![v.access]);
    lemma_byte(b, 4, v.kind);
    lemma_byte(b, 5, v.access);
    lemma_le_bytes(v.pool.len(), 2);
    lemma_le_bytes(v.code.len(), 4);
    lemma_le_bytes(v.fields.len(), 2);
    lemma_le_bytes(v.methods.len(), 2);
    lemma_num(b, 6, v.pool.len(), 2);
    lemma_consts(b, 8, v.pool);
    lemma_num(b, h2.len() as int, v.code.len(), 4);
    lemma_num(b, h3.len() as int, v.fields.len(), 2);
    lemma_fields(b, h4.len() as int, v.kind, v.fields);
    lemma_num(b, h5.len() as int, v.methods.len(), 2);
    lemma_methods(b, h6.len() as int, v.code.len(), v.methods);
    assert(parse_pool(b, 6) == Ok::<(Seq<ConstVal>, int), ClassError>((v.pool, h2.len() as int)));
    assert(parse_fields(v.kind, b, h3.len() as int) == Ok::<(Seq<FieldVal>, int), ClassError>(
        (v.fields, h5.len() as int),
    ));
    assert(parse_methods(v.code.len(), b, h5.len() as int) == Ok::<
        (Seq<MethodVal>, int),
        ClassError,
    >((v.methods, h7.len() as int)));
}

/// Decoding the class file that holds a class gives back that class: its
/// kind, access flags, constant pool (and so its name and the names of its
/// fields and methods), field and method records, and bytecode.
pub proof fn lemma_round_trip(v: ClassVal)
    requires
        class_ok(v),
    ensures
        parse_class(encode_class(v)) == Ok::<ClassVal, ClassError>(v),
{
    lemma_pieces(v);
}

} // verus!
