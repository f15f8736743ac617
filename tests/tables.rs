use glr::class_file::Method;
use glr::mapping::{bytes_eq, Hash32, Mappable, Mapping};
use glr::mem::MemoryRange;

fn method(name: &str) -> Method {
    Method { name: 0, access: 0, code_pos: 0, next_method: 0, key: name.as_bytes().to_vec(), class: b"Owner".to_vec() }
}

fn arena(size: usize) -> MemoryRange {
    MemoryRange::at(size, 4096).unwrap()
}

#[test]
fn fnv1a_known_values() {
    assert_eq!(b""[..].hash32(), 0x811c9dc5);
    assert_eq!(b"a"[..].hash32(), 0xe40c292c);
    assert_eq!(b"foobar"[..].hash32(), 0xbf9cf968);
}

#[test]
fn bytes_eq_compares_contents() {
    assert!(bytes_eq(b"abc", b"abc"));
    assert!(!bytes_eq(b"abc", b"abd"));
    assert!(!bytes_eq(b"ab", b"abc"));
    assert!(bytes_eq(b"", b""));
}

#[test]
fn every_inserted_name_is_found_and_probes_stay_small() {
    let mut memory = arena(1 << 20);
    let n = 32;
    let mut table: Mapping<Method> = Mapping::from(&mut memory, n).unwrap();
    for i in 0..n {
        assert!(table.insert(method(&format!("m{}", i))).is_some());
        assert_eq!(table.len(), i + 1);
    }
    for i in 0..n {
        let name = format!("m{}", i);
        let found = table.find(name.as_bytes()).unwrap();
        assert_eq!(found.id(), name.as_bytes());
        assert!(found.next() < n);
    }
    assert!(table.find(b"absent").is_none());
    let mut seen = 0;
    let mut it = table.iter();
    while let Some(m) = it.next() {
        assert!(m.next() < table.len());
        seen += 1;
    }
    assert_eq!(seen, n);
}

#[test]
fn full_table_refuses_insert() {
    let mut memory = arena(1 << 20);
    let mut table: Mapping<Method> = Mapping::from(&mut memory, 2).unwrap();
    assert!(table.insert(method("a")).is_some());
    assert!(table.insert(method("b")).is_some());
    assert!(table.insert(method("c")).is_none());
    assert_eq!(table.len(), 2);
    assert!(table.find(b"c").is_none());
}

#[test]
fn empty_table_finds_nothing() {
    let mut memory = arena(1 << 20);
    let table: Mapping<Method> = Mapping::from(&mut memory, 8).unwrap();
    assert!(table.find(b"x").is_none());
    assert!(table.iter().next().is_none());
}

#[test]
fn expand_doubles_and_keeps_names() {
    let mut memory = arena(1 << 20);
    let mut table: Mapping<Method> = Mapping::from(&mut memory, 8).unwrap();
    for i in 0..8 {
        table.insert(method(&format!("k{}", i))).unwrap();
    }
    let before = memory.taken();
    assert!(table.expand(&mut memory));
    assert_eq!(table.capacity(), 16);
    assert_eq!(table.len(), 8);
    assert_eq!(memory.taken(), before + 16 * std::mem::size_of::<Method>());
    assert!(table.insert(method("k8")).is_some());
    for i in 0..9 {
        assert!(table.find(format!("k{}", i).as_bytes()).is_some());
    }
}

#[test]
fn expand_without_room_changes_nothing() {
    let slots = 8 * std::mem::size_of::<Method>();
    let mut memory = arena(slots);
    let mut table: Mapping<Method> = Mapping::from(&mut memory, 8).unwrap();
    for i in 0..8 {
        table.insert(method(&format!("k{}", i))).unwrap();
    }
    assert!(table.insert(method("k8")).is_none());
    assert!(!table.expand(&mut memory));
    assert_eq!(table.capacity(), 8);
    assert_eq!(memory.taken(), slots);
    assert!(table.insert(method("k8")).is_none());
}

#[test]
fn table_without_room_is_none() {
    let mut memory = arena(8);
    let table: Option<Mapping<Method>> = Mapping::from(&mut memory, 8);
    assert!(table.is_none());
    assert_eq!(memory.taken(), 0);
}

#[test]
fn colliding_names_are_all_found() {
    // a table of one slot per name: every name collides somewhere
    let mut memory = arena(1 << 20);
    let names = ["a", "b", "c", "d", "e"];
    let mut table: Mapping<Method> = Mapping::from(&mut memory, 5).unwrap();
    for n in names.iter() {
        table.insert(method(n)).unwrap();
    }
    for n in names.iter() {
        assert_eq!(table.find(n.as_bytes()).unwrap().id(), n.as_bytes());
    }
}
