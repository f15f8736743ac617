use glr::class_error::ClassError;
use glr::class_file::Class;
use glr::class_load::ClassLoader;
use glr::const_pool::{Const, ConstPool};
use glr::mapping::Mappable;
use glr::mem::{MemoryRange, CLASS_MEMORY, CODE_MEMORY};
use glr::reader::Reader;

const PAGE: usize = 4096;

/// A string constant whose length fits a byte.
fn str_const(out: &mut Vec<u8>, s: &str) {
    out.push(0x01);
    out.push(s.len() as u8);
    out.extend_from_slice(s.as_bytes());
}

/// A struct class named `name` with the given field and method names,
/// each method starting at `code_pos`, and `code` as its bytecode.
fn struct_class(name: &str, fields: &[&str], methods: &[&str], code: &[u8], code_pos: u8) -> Vec<u8> {
    let mut out = b"$GLR".to_vec();
    out.push(1);
    out.push(0x05);
    let consts = 1 + fields.len() + methods.len();
    out.extend_from_slice(&(consts as u16).to_le_bytes());
    str_const(&mut out, name);
    for f in fields {
        str_const(&mut out, f);
    }
    for m in methods {
        str_const(&mut out, m);
    }
    out.extend_from_slice(&(code.len() as u32).to_le_bytes());
    out.extend_from_slice(&(fields.len() as u16).to_le_bytes());
    for i in 0..fields.len() {
        out.extend_from_slice(&((1 + i) as u16).to_le_bytes());
        out.extend_from_slice(&0u16.to_le_bytes());
    }
    out.extend_from_slice(&(methods.len() as u16).to_le_bytes());
    for i in 0..methods.len() {
        out.extend_from_slice(&((1 + fields.len() + i) as u16).to_le_bytes());
        out.push(0x01);
        out.push(0x00);
        out.push(code_pos);
    }
    out.extend_from_slice(code);
    out
}

fn arenas() -> (MemoryRange, MemoryRange) {
    (
        MemoryRange::at(CLASS_MEMORY, PAGE).unwrap(),
        MemoryRange::at_exec(CODE_MEMORY as usize, PAGE).unwrap(),
    )
}

fn point_file() -> Vec<u8> {
    let mut out = b"$GLR".to_vec();
    out.push(1);
    out.push(0);
    out.extend_from_slice(&1u16.to_le_bytes());
    str_const(&mut out, "Point");
    out.extend_from_slice(&0u32.to_le_bytes());
    out.extend_from_slice(&1u16.to_le_bytes());
    out.extend_from_slice(&0u16.to_le_bytes());
    out.extend_from_slice(&0u16.to_le_bytes());
    out.extend_from_slice(&0u16.to_le_bytes());
    out
}

#[test]
fn point_struct_loads_and_is_found() {
    let mut loader = ClassLoader::new(PAGE).unwrap();
    assert!(loader.load_class(&point_file()).is_ok());
    let class = loader.find(b"Point").unwrap();
    assert!(matches!(class, Class::Struct(_)));
    assert_eq!(class.kind_tag(), 1);
    assert_eq!(class.class_file().const_pool.get_str(0), Some(&b"Point"[..]));
    assert_eq!(class.class_file().access, 0);
    assert!(class.class_file().methods.is_none());
    let fields = class.class_file().fields.as_ref().unwrap();
    assert_eq!(fields.len(), 1);
    assert!(fields.find(b"Point").is_some());
}

#[test]
fn zero_pool_count_is_bad_const_size() {
    let bytes = [0u8, 0, 0xAA, 0xBB, 0xCC];
    let mut reader = Reader::from(&bytes[..]);
    let mut memory = MemoryRange::at(CLASS_MEMORY, PAGE).unwrap();
    let r = ConstPool::load(&mut reader, &mut memory);
    assert!(matches!(r, Err(ClassError::BadConstSize)));
    assert_eq!(reader.pos(), 2);
    assert_eq!(memory.taken(), 0);
}

#[test]
fn zero_pool_count_in_class_file() {
    let mut bytes = b"$GLR".to_vec();
    bytes.extend_from_slice(&[1, 0, 0, 0, 9, 9, 9, 9]);
    let (mut memory, mut code) = arenas();
    assert!(matches!(Class::load(&bytes, &mut memory, &mut code), Err(ClassError::BadConstSize)));
}

#[test]
fn bad_magic_fails_without_allocating() {
    let mut bytes = point_file();
    bytes[0] = b'#';
    let (mut memory, mut code) = arenas();
    let r = Class::load(&bytes, &mut memory, &mut code);
    assert!(matches!(r, Err(ClassError::BadClassMagic)));
    assert_eq!(memory.taken(), 0);
    assert_eq!(code.taken(), 0);
    assert_eq!(memory.committed_len(), PAGE);
}

#[test]
fn short_magic_is_bad_magic() {
    let (mut memory, mut code) = arenas();
    assert!(matches!(Class::load(b"$GL", &mut memory, &mut code), Err(ClassError::BadClassMagic)));
    assert_eq!(memory.taken(), 0);
}

#[test]
fn bad_magic_through_loader() {
    let mut loader = ClassLoader::new(PAGE).unwrap();
    assert!(matches!(loader.load_class(b"GLR$\x01\x00"), Err(ClassError::BadClassMagic)));
    assert!(loader.find(b"Point").is_none());
}

#[test]
fn code_pos_past_code_is_bad_code_pos() {
    let bytes = struct_class("Late", &[], &["run"], &[0xC3, 0x90], 3);
    let (mut memory, mut code) = arenas();
    assert!(matches!(Class::load(&bytes, &mut memory, &mut code), Err(ClassError::BadCodePos)));
}

#[test]
fn code_pos_at_code_end_is_accepted() {
    let bytes = struct_class("Edge", &[], &["run"], &[0xC3, 0x90], 2);
    let (mut memory, mut code) = arenas();
    let class = Class::load(&bytes, &mut memory, &mut code).unwrap();
    let methods = class.class_file().methods.as_ref().unwrap();
    assert_eq!(methods.find(b"run").unwrap().code_pos, 2);
}

#[test]
fn method_record_with_signed_code_pos_is_bad_code_pos() {
    // name 0, access 0, tag: i32 (selector 4), position 0
    let bytes = [0u8, 0, 0, 0x80, 0, 0, 0, 0];
    let mut reader = Reader::from(&bytes[..]);
    let pool = ConstPool::new(vec![]);
    assert!(matches!(glr::class_file::Method::load(10, &mut reader, &pool), Err(ClassError::BadCodePos)));
}

#[test]
fn round_trip_keeps_names_kind_access_and_code() {
    let code = [1u8, 2, 3, 4, 5];
    let bytes = struct_class("Shape", &["x", "y"], &["area", "draw"], &code, 4);
    let (mut memory, mut code_arena) = arenas();
    let class = Class::load(&bytes, &mut memory, &mut code_arena).unwrap();
    assert_eq!(class.name(), b"Shape");
    assert_eq!(class.kind_tag(), 1);
    assert_eq!(class.class_file().access, 0x05);
    assert_eq!(class.class_file().bytecode, code.to_vec());
    assert_eq!(code_arena.taken(), 5);
    let fields = class.class_file().fields.as_ref().unwrap();
    assert_eq!(fields.len(), 2);
    assert_eq!(fields.find(b"x").unwrap().name(), b"x");
    assert_eq!(fields.find(b"y").unwrap().name(), b"y");
    assert!(fields.find(b"z").is_none());
    let methods = class.class_file().methods.as_ref().unwrap();
    assert_eq!(methods.len(), 2);
    assert_eq!(methods.find(b"area").unwrap().code_pos, 4);
    assert_eq!(methods.find(b"draw").unwrap().name(), b"draw");
}

#[test]
fn module_and_enum_kinds() {
    let mut module = struct_class("Io", &[], &[], &[], 0);
    module[4] = 2;
    let (mut memory, mut code) = arenas();
    let class = Class::load(&module, &mut memory, &mut code).unwrap();
    assert!(matches!(class, Class::Module(_)));

    let mut e = b"$GLR".to_vec();
    e.extend_from_slice(&[0, 0]);
    e.extend_from_slice(&3u16.to_le_bytes());
    str_const(&mut e, "Color");
    str_const(&mut e, "Red");
    str_const(&mut e, "Blue");
    e.extend_from_slice(&0u32.to_le_bytes());
    e.extend_from_slice(&1u16.to_le_bytes());
    e.extend_from_slice(&0u16.to_le_bytes());
    e.extend_from_slice(&2u16.to_le_bytes());
    e.extend_from_slice(&1u16.to_le_bytes());
    e.extend_from_slice(&2u16.to_le_bytes());
    e.extend_from_slice(&0u16.to_le_bytes());
    let class = Class::load(&e, &mut memory, &mut code).unwrap();
    assert!(matches!(class, Class::Enum(_)));
    let fields = class.class_file().fields.as_ref().unwrap();
    match fields.find(b"Color").unwrap() {
        glr::class_file::Field::Enum(_, name, values) => {
            assert_eq!(*name, 0);
            assert_eq!(values, &vec![1u16, 2u16]);
        },
        _ => panic!("not an enum field"),
    }
}

#[test]
fn unknown_kind_is_bad_class_type() {
    let mut bytes = struct_class("Odd", &[], &[], &[], 0);
    bytes[4] = 7;
    let (mut memory, mut code) = arenas();
    assert!(matches!(Class::load(&bytes, &mut memory, &mut code), Err(ClassError::BadClassType)));
}

#[test]
fn truncated_files_give_the_error_of_the_missing_part() {
    let bytes = struct_class("Cut", &["f"], &["m"], &[9, 9], 1);
    let (mut memory, mut code) = arenas();
    let cases: &[(usize, ClassError)] = &[
        (4, ClassError::BadClassType),
        (5, ClassError::BadAccessModifier),
        (6, ClassError::BadConstSize),
        (8, ClassError::BadConstType),
        (9, ClassError::BadConstData),
        (10, ClassError::BadConstData),
    ];
    for (len, err) in cases {
        let r = Class::load(&bytes[..*len], &mut memory, &mut code);
        assert_eq!(r.err(), Some(*err));
    }
    let full = bytes.len();
    assert_eq!(Class::load(&bytes[..full - 1], &mut memory, &mut code).err(), Some(ClassError::BadCodeData));
}

#[test]
fn nameless_class_is_bad_class_name() {
    let mut loader = ClassLoader::new(PAGE).unwrap();
    let bytes = struct_class("", &[], &[], &[], 0);
    assert_eq!(loader.load_class(&bytes).err(), Some(ClassError::BadClassName));
    let mut numeric = b"$GLR".to_vec();
    numeric.extend_from_slice(&[1, 0, 1, 0, 0x00, 7, 0, 0, 0, 0, 0, 0, 0, 0]);
    assert_eq!(loader.load_class(&numeric).err(), Some(ClassError::BadClassName));
}

#[test]
fn reloading_a_class_keeps_the_first() {
    let mut loader = ClassLoader::new(PAGE).unwrap();
    assert!(loader.load_class(&struct_class("Twice", &["a"], &[], &[], 0)).is_ok());
    assert!(loader.load_class(&struct_class("Twice", &["b", "c"], &[], &[], 0)).is_ok());
    assert_eq!(loader.classes().len(), 1);
    let class = loader.find(b"Twice").unwrap();
    assert_eq!(class.class_file().fields.as_ref().unwrap().len(), 1);
}

#[test]
fn ninth_class_doubles_the_table_once() {
    let mut loader = ClassLoader::new(PAGE).unwrap();
    assert_eq!(loader.classes().capacity(), 8);
    for i in 0..8 {
        let name = format!("C{}", i);
        assert!(loader.load_class(&struct_class(&name, &[], &[], &[], 0)).is_ok());
        assert_eq!(loader.classes().capacity(), 8);
    }
    assert!(loader.load_class(&struct_class("C8", &[], &[], &[], 0)).is_ok());
    assert_eq!(loader.classes().capacity(), 16);
    assert_eq!(loader.classes().len(), 9);
    for i in 0..9 {
        let name = format!("C{}", i);
        let class = loader.find(name.as_bytes()).unwrap();
        assert_eq!(class.name(), name.as_bytes());
    }
}

#[test]
fn find_twice_gives_the_same_class() {
    let mut loader = ClassLoader::new(PAGE).unwrap();
    loader.load_class(&point_file()).unwrap();
    let a = loader.find(b"Point").unwrap();
    let b = loader.find(b"Point").unwrap();
    assert!(std::ptr::eq(a, b));
    assert!(loader.find(b"Pointer").is_none());
}

#[test]
fn loaded_class_starts_with_zero_probe() {
    let (mut memory, mut code) = arenas();
    let class = Class::load(&point_file(), &mut memory, &mut code).unwrap();
    assert_eq!(class.next(), 0);
    assert_eq!(class.id(), b"Point");
}

#[test]
fn truncated_records_give_their_errors() {
    let (mut memory, mut code) = arenas();
    // struct with one field and one method, no code
    let s = struct_class("R", &["f"], &["m"], &[], 0);
    // header 4+2, pool count 2, consts "R" (3) "f" (3) "m" (3) = 17, code size 4 = 21
    assert_eq!(Class::load(&s[..17], &mut memory, &mut code).err(), Some(ClassError::BadCodeSize));
    assert_eq!(Class::load(&s[..21], &mut memory, &mut code).err(), Some(ClassError::BadFieldSize));
    assert_eq!(Class::load(&s[..24], &mut memory, &mut code).err(), Some(ClassError::BadConstIndex));
    assert_eq!(Class::load(&s[..27], &mut memory, &mut code).err(), Some(ClassError::BadMethodSize));
    assert_eq!(Class::load(&s[..30], &mut memory, &mut code).err(), Some(ClassError::BadConstIndex));
    assert_eq!(Class::load(&s[..31], &mut memory, &mut code).err(), Some(ClassError::BadAccessModifier));
    assert_eq!(Class::load(&s[..32], &mut memory, &mut code).err(), Some(ClassError::BadCodePos));
    assert_eq!(Class::load(&s[..33], &mut memory, &mut code).err(), Some(ClassError::BadConstData));
    assert!(Class::load(&s, &mut memory, &mut code).is_ok());
}

#[test]
fn truncated_enum_field_gives_enum_errors() {
    let mut e = b"$GLR".to_vec();
    e.extend_from_slice(&[0, 0]);
    e.extend_from_slice(&1u16.to_le_bytes());
    str_const(&mut e, "E");
    e.extend_from_slice(&0u32.to_le_bytes());
    e.extend_from_slice(&1u16.to_le_bytes());
    e.extend_from_slice(&0u16.to_le_bytes());
    let name_end = e.len();
    e.extend_from_slice(&2u16.to_le_bytes());
    e.extend_from_slice(&0u16.to_le_bytes());
    let (mut memory, mut code) = arenas();
    assert_eq!(Class::load(&e[..name_end + 1], &mut memory, &mut code).err(), Some(ClassError::BadEnumSize));
    assert_eq!(Class::load(&e[..name_end + 4], &mut memory, &mut code).err(), Some(ClassError::BadEnumField));
    assert_eq!(Class::load(&e, &mut memory, &mut code).err(), Some(ClassError::BadEnumField));
}

#[test]
fn constants_of_every_width() {
    let mut bytes = b"$GLR".to_vec();
    bytes.extend_from_slice(&[2, 0]);
    bytes.extend_from_slice(&6u16.to_le_bytes());
    str_const(&mut bytes, "Consts");
    bytes.extend_from_slice(&[0x20, 0x34, 0x12]); // u16
    bytes.extend_from_slice(&[0x80, 0xFE, 0xFF, 0xFF, 0xFF]); // i32 -2
    bytes.push(0xA0); // i64 -3
    bytes.extend_from_slice(&(-3i64).to_le_bytes());
    bytes.push(0xC0); // f32 1.5
    bytes.extend_from_slice(&1.5f32.to_bits().to_le_bytes());
    bytes.push(0x21); // string with a u16 length
    bytes.extend_from_slice(&2u16.to_le_bytes());
    bytes.extend_from_slice(b"ok");
    bytes.extend_from_slice(&0u32.to_le_bytes());
    bytes.extend_from_slice(&0u16.to_le_bytes());
    bytes.extend_from_slice(&0u16.to_le_bytes());
    let (mut memory, mut code) = arenas();
    let class = Class::load(&bytes, &mut memory, &mut code).unwrap();
    let pool = &class.class_file().const_pool;
    assert_eq!(pool.len(), 6);
    assert_eq!(pool.get_uint(1), Some(0x1234));
    assert_eq!(pool.get_int(2), Some(-2));
    assert_eq!(pool.get_int(3), Some(-3));
    assert!(matches!(pool.as_slice()[4], Const::Float32(bits) if f32::from_bits(bits) == 1.5));
    assert_eq!(pool.get_str(5), Some(&b"ok"[..]));
    assert_eq!(pool.get_str(1), None);
    assert_eq!(pool.get_uint(9), None);
    // strings take arena room: 6 constant slots plus "Consts" and "ok"
    assert_eq!(memory.taken(), 6 * std::mem::size_of::<Const>() + 6 + 2);
}

#[test]
fn string_length_that_is_not_unsigned_is_bad_const_type() {
    // tag: i32 selector with the string bit
    let bytes = [0x81u8, 1, 0, 0, 0, b'x'];
    let mut reader = Reader::from(&bytes[..]);
    let mut memory = MemoryRange::at(CLASS_MEMORY, PAGE).unwrap();
    assert!(matches!(Const::load(&mut reader, &mut memory), Err(ClassError::BadConstType)));
}

#[test]
fn string_without_room_is_out_of_memory() {
    let bytes = [0x01u8, 5, b'h', b'e', b'l', b'l', b'o'];
    let mut reader = Reader::from(&bytes[..]);
    let mut memory = MemoryRange::at(4, PAGE).unwrap();
    assert!(matches!(Const::load(&mut reader, &mut memory), Err(ClassError::OutOfMemory)));
    assert_eq!(memory.taken(), 0);
}

#[test]
fn module_fields_resolve_names() {
    let mut m = b"$GLR".to_vec();
    m.extend_from_slice(&[2, 0]);
    m.extend_from_slice(&2u16.to_le_bytes());
    str_const(&mut m, "Main");
    str_const(&mut m, "Std");
    m.extend_from_slice(&0u32.to_le_bytes());
    m.extend_from_slice(&1u16.to_le_bytes());
    m.extend_from_slice(&1u16.to_le_bytes());
    m.extend_from_slice(&0u16.to_le_bytes());
    let (mut memory, mut code) = arenas();
    let class = Class::load(&m, &mut memory, &mut code).unwrap();
    let fields = class.class_file().fields.as_ref().unwrap();
    assert!(matches!(fields.find(b"Std").unwrap(), glr::class_file::Field::Module(_, 1)));
}

#[test]
fn loader_tables_come_from_metadata() {
    let mut loader = ClassLoader::new(PAGE).unwrap();
    let table: glr::mapping::Mapping<glr::class_file::Method> = loader.alloc_mapping(4).unwrap();
    assert_eq!(table.capacity(), 4);
    assert!(loader.alloc_bytes(16).is_ok());
    assert!(loader.alloc_many::<u64>(2).is_ok());
    assert_eq!(loader.alloc_bytes(usize::MAX).err(), Some(ClassError::OutOfMemory));
}

#[test]
fn unknown_kind_fails_before_the_pool_is_read() {
    let bytes = [0x24u8, 0x47, 0x4C, 0x52, 5, 0, 0, 0, 0xAA];
    let (mut memory, mut code) = arenas();
    assert_eq!(Class::load(&bytes, &mut memory, &mut code).err(), Some(ClassError::BadClassType));
    assert_eq!(memory.taken(), 0);
    let mut loader = ClassLoader::new(PAGE).unwrap();
    assert_eq!(loader.load_class(&bytes).err(), Some(ClassError::BadClassType));
}

#[test]
fn zero_pool_count_through_loader_is_bad_const_size() {
    let bytes = [0x24u8, 0x47, 0x4C, 0x52, 1, 0, 0, 0, 0xAA, 0xBB];
    let mut loader = ClassLoader::new(PAGE).unwrap();
    assert_eq!(loader.load_class(&bytes).err(), Some(ClassError::BadConstSize));
    assert_eq!(loader.classes().len(), 0);
}

#[test]
fn table_records_keep_their_values() {
    let bytes = struct_class("Vals", &["a", "b"], &["go"], &[1, 2, 3], 3);
    let (mut memory, mut code) = arenas();
    let class = Class::load(&bytes, &mut memory, &mut code).unwrap();
    let methods = class.class_file().methods.as_ref().unwrap();
    let go = methods.find(b"go").unwrap();
    assert_eq!(go.code_pos, 3);
    assert_eq!(go.access, 1);
    assert_eq!(go.name, 3);
    let fields = class.class_file().fields.as_ref().unwrap();
    assert!(matches!(fields.find(b"b").unwrap(), glr::class_file::Field::Struct(_, 2, 0)));
}

#[test]
fn fields_and_methods_name_their_class() {
    let bytes = struct_class("Owner", &["x"], &["run"], &[0], 0);
    let (mut memory, mut code) = arenas();
    let class = Class::load(&bytes, &mut memory, &mut code).unwrap();
    let fields = class.class_file().fields.as_ref().unwrap();
    assert_eq!(fields.find(b"x").unwrap().context().class, b"Owner".to_vec());
    let methods = class.class_file().methods.as_ref().unwrap();
    assert_eq!(methods.find(b"run").unwrap().class, b"Owner".to_vec());
}

#[test]
fn repeated_records_are_each_stored() {
    // two struct fields with the same name and type, and a third one
    let mut out = b"$GLR".to_vec();
    out.extend_from_slice(&[1, 0]);
    out.extend_from_slice(&2u16.to_le_bytes());
    str_const(&mut out, "Dup");
    str_const(&mut out, "a");
    out.extend_from_slice(&0u32.to_le_bytes());
    out.extend_from_slice(&3u16.to_le_bytes());
    for (n, t) in [(1u16, 0u16), (1, 0), (0, 0)] {
        out.extend_from_slice(&n.to_le_bytes());
        out.extend_from_slice(&t.to_le_bytes());
    }
    out.extend_from_slice(&0u16.to_le_bytes());
    let (mut memory, mut code) = arenas();
    let class = Class::load(&out, &mut memory, &mut code).unwrap();
    let fields = class.class_file().fields.as_ref().unwrap();
    assert_eq!(fields.len(), 3);
    let mut it = fields.iter();
    let mut named_a = 0;
    let mut named_dup = 0;
    while let Some(f) = it.next() {
        if f.name() == b"a" {
            named_a += 1;
        } else if f.name() == b"Dup" {
            named_dup += 1;
        }
    }
    assert_eq!((named_a, named_dup), (2, 1));
}

#[test]
fn loader_allocations_move_the_cursor() {
    let mut loader = ClassLoader::new(PAGE).unwrap();
    let a = loader.alloc_bytes(10).unwrap();
    let b = loader.alloc_bytes(6).unwrap();
    assert_eq!(a, CLASS_MEMORY);
    assert_eq!(b, CLASS_MEMORY + 10);
    let c = loader.alloc_many::<u32>(2).unwrap();
    assert_eq!(c, CLASS_MEMORY + 16);
    assert_eq!(loader.alloc_bytes(16).unwrap(), CLASS_MEMORY + 24);
}
