use mrubyedge::hierarchy::{class_compare, class_order, inherits_from};
use mrubyedge::error::Error;
use mrubyedge::ivar::IvarMap;
use mrubyedge::object::{instance_variable_defined, instance_variable_get, instance_variable_set};
use mrubyedge::text::ivar_name;
use mrubyedge::value::RType;

fn name(raw: &str) -> String {
    let chars: Vec<char> = raw.chars().collect();
    ivar_name(&chars).into_iter().collect()
}

/// FNV-1a, 64 bits, computed here independently of the library.
fn fnv1a(bytes: &[u8]) -> u64 {
    let mut h: u64 = 0xcbf2_9ce4_8422_2325;
    for b in bytes {
        h ^= *b as u64;
        h = h.wrapping_mul(0x100_0000_01b3);
    }
    h
}

#[test]
fn ivar_set_updates_object_state() {
    let mut ivars: IvarMap<i64> = IvarMap::new();
    ivars.insert(&name("@score"), 99);
    assert_eq!(ivars.get(&name("@score")), Some(&99));
    assert!(!ivars.contains_key(&name("@nope")));
}

#[test]
fn ivar_reflection_accepts_bare_names() {
    let mut ivars: IvarMap<i64> = IvarMap::new();
    ivars.insert(&name("score"), 5);
    assert_eq!(ivars.get(&name("score")), Some(&5));
    assert_eq!(ivars.get(&name("score")), Some(&5));
    assert!(ivars.contains_key(&name("score")));
    assert_eq!(ivars.get("@score"), Some(&5));
}

fn cs(s: &str) -> Vec<char> {
    s.chars().collect()
}

#[test]
fn immediates_reject_ivars() {
    // 5.instance_variable_set(:@x, 1) and true.instance_variable_set(:@x, 1)
    let mut five: IvarMap<i64> = IvarMap::new();
    let e = instance_variable_set(&mut five, RType::Integer, &cs("Integer"), b"@x", 1).unwrap_err();
    assert!(matches!(&e, Error::FrozenError(m) if m.contains("Integer")), "{e:?}");
    assert_eq!(e, Error::FrozenError("can't modify frozen Integer".to_string()));
    let mut t: IvarMap<i64> = IvarMap::new();
    let e = instance_variable_set(&mut t, RType::Bool, &cs("TrueClass"), b"@x", 1).unwrap_err();
    assert!(matches!(&e, Error::FrozenError(m) if m.contains("TrueClass")), "{e:?}");
    // Nothing was stored: instance_variable_get(:@x) is nil for both.
    assert!(instance_variable_get(&five, b"@x").is_none());
    assert!(instance_variable_get(&t, b"@x").is_none());
    // Any other object stores the value, under the name with or without `@`.
    let mut obj: IvarMap<i64> = IvarMap::new();
    assert_eq!(instance_variable_set(&mut obj, RType::Instance, &cs("Point"), b"x", 3), Ok(()));
    assert_eq!(instance_variable_get(&obj, b"@x"), Some(&3));
    assert!(instance_variable_defined(&obj, b"x"));
    assert!(!instance_variable_defined(&obj, b"@y"));
}

#[test]
fn later_insert_replaces_and_others_survive_growth() {
    let mut ivars: IvarMap<usize> = IvarMap::new();
    for i in 0..100 {
        ivars.insert(&format!("@v{i}"), i);
    }
    ivars.insert("@v7", 700);
    for i in 0..100 {
        let want = if i == 7 { 700 } else { i };
        assert_eq!(ivars.get(&format!("@v{i}")), Some(&want));
    }
    assert!(ivars.get("@v100").is_none());
    let mut keys: Vec<String> = ivars.keys().into_iter().map(|k| String::from_utf8(k).unwrap()).collect();
    keys.sort();
    assert_eq!(keys.len(), 100);
    keys.dedup();
    assert_eq!(keys.len(), 100);
}

#[test]
fn precomputed_hash_finds_the_same_entry() {
    let mut ivars: IvarMap<&str> = IvarMap::default();
    assert!(ivars.get("@hp").is_none());
    ivars.insert_hashed("@hp", fnv1a(b"@hp"), "thirty");
    assert_eq!(ivars.get("@hp"), Some(&"thirty"));
    assert_eq!(ivars.get_hashed("@hp", fnv1a(b"@hp")), Some(&"thirty"));
    assert_eq!(fnv1a(b""), 0xcbf2_9ce4_8422_2325);
}

#[test]
fn instance_variable_reflection() {
    // P.new sets @hp = 30 and @mp = 10.
    let mut ivars: IvarMap<i64> = IvarMap::new();
    ivars.insert(&name("hp"), 30);
    ivars.insert(&name("mp"), 10);
    assert_eq!(ivars.get(&name("@hp")), Some(&30));
    assert!(ivars.contains_key(&name("@mp")));
    let mut names: Vec<String> = ivars.keys().into_iter().map(|k| String::from_utf8(k).unwrap()).collect();
    names.sort();
    assert_eq!(names.join(","), "@hp,@mp");
}

/// Object (0) <- Numeric (1) <- Integer (2); Object <- String (3).
const CLASSES: [Option<usize>; 4] = [None, Some(0), Some(1), Some(0)];

#[test]
fn class_comparisons_follow_the_superclass_chain() {
    let s = &CLASSES;
    assert!(inherits_from(s, 2, 0));
    assert!(inherits_from(s, 2, 1));
    assert!(!inherits_from(s, 0, 2));
    assert!(!inherits_from(s, 3, 1));
    // Integer < Numeric, Integer <= Integer, not Integer < Integer.
    assert!(class_compare(s, 2, 1, true, true));
    assert!(class_compare(s, 2, 2, false, true));
    assert!(!class_compare(s, 2, 2, true, true));
    // Numeric > Integer, Object >= String; unrelated classes answer false.
    assert!(class_compare(s, 1, 2, true, false));
    assert!(class_compare(s, 0, 3, false, false));
    assert!(!class_compare(s, 3, 1, true, true));
    assert!(!class_compare(s, 3, 1, true, false));
    // <=>: 0, -1 for a subclass, 1 otherwise (also for unrelated classes).
    assert_eq!(class_order(s, 2, 2), 0);
    assert_eq!(class_order(s, 2, 0), -1);
    assert_eq!(class_order(s, 0, 2), 1);
    assert_eq!(class_order(s, 3, 1), 1);
    assert_eq!(class_order(s, 1, 3), 1);
}
