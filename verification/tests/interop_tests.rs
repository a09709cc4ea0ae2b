use serde_store::interop::{Person, TestCollections, TestEnum, TestStrings};
use serde_store::text::hex;
use serde_store::value::{to_bytes, Value};

#[test]
fn sample_strings() {
    let t = TestStrings::sample();
    assert_eq!(t.ts_string, "Hello from Rust!");
    assert_eq!(t.ts_empty, "");
    assert_eq!(t.ts_unicode, "こんにちは 🦀 Γειά σου");
}

#[test]
fn sample_collections() {
    let t = TestCollections::sample();
    assert_eq!(t.tc_list, vec![1, 2, 3, 4, 5]);
    assert_eq!(t.tc_map.len(), 3);
    assert_eq!(t.tc_map.get("alpha"), Some(&1));
    assert_eq!(t.tc_map.get("beta"), Some(&2));
    assert_eq!(t.tc_map.get("gamma"), Some(&3));
    assert!(t.tc_empty.is_empty());
}

#[test]
fn sample_person() {
    let p = Person::sample("Alice", 30, Some("alice@rustcorp.com"));
    assert_eq!(p.person_name, "Alice");
    assert_eq!(p.person_age, 30);
    assert_eq!(p.person_email.as_deref(), Some("alice@rustcorp.com"));
    let q = Person::sample("Bob", 25, None);
    assert_eq!(q.person_email, None);
}

#[test]
fn sample_enums() {
    assert_eq!(
        TestEnum::samples(),
        vec![
            TestEnum::VariantA,
            TestEnum::VariantB(42),
            TestEnum::VariantC { vc_x: 10, vc_y: 20 }
        ]
    );
}

#[test]
fn hex_of_enum_encodings() {
    let a = to_bytes(&Value::Variant(0, Box::new(Value::Unit))).unwrap();
    let b = to_bytes(&Value::Variant(1, Box::new(Value::I32(42)))).unwrap();
    let c = to_bytes(&Value::Variant(
        2,
        Box::new(Value::Tuple(vec![Value::I32(10), Value::I32(20)])),
    ))
    .unwrap();
    assert_eq!(hex(&a), "00 00 00 00 00 00 00 00");
    assert_eq!(hex(&b), "01 00 00 00 00 00 00 00 2a 00 00 00");
    assert_eq!(hex(&c), "02 00 00 00 00 00 00 00 0a 00 00 00 14 00 00 00");
    assert_eq!(hex(&[]), "");
    assert_eq!(hex(&[0xab]), "ab");
}
