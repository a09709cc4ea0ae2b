use serde_store::deserializer::{StoreDeserializer, StoreSeqAccess};
use serde_store::error::StoreError;
use serde_store::serializer::StoreSerializer;
use serde_store::value::{decode_into, encode_into, from_bytes, to_bytes, Schema, Value};

fn seq_of(s: Schema) -> Schema {
    Schema::Sequence(Box::new(s))
}
fn opt_of(s: Schema) -> Schema {
    Schema::Optional(Box::new(s))
}
fn map_of(k: Schema, v: Schema) -> Schema {
    Schema::Mapping(Box::new((k, v)))
}
fn text(s: &str) -> Value {
    Value::Str(s.to_string())
}
fn some(v: Value) -> Value {
    Value::Optional(Some(Box::new(v)))
}

// Helper function for roundtrip testing
fn assert_roundtrip(value: &Value, schema: &Schema) {
    let serialized = to_bytes(value).expect("Serialization failed");
    let deserialized = from_bytes(&serialized, schema).expect("Deserialization failed");
    assert_eq!(value, &deserialized, "Roundtrip failed for value: {:?}", value);
}

#[test]
fn test_roundtrip_primitives() {
    assert_roundtrip(&Value::Bool(true), &Schema::Bool);
    assert_roundtrip(&Value::Bool(false), &Schema::Bool);
    assert_roundtrip(&Value::U8(42), &Schema::U8);
    assert_roundtrip(&Value::U16(42), &Schema::U16);
    assert_roundtrip(&Value::U32(42), &Schema::U32);
    assert_roundtrip(&Value::U64(42), &Schema::U64);
    assert_roundtrip(&Value::I8(-42), &Schema::I8);
    assert_roundtrip(&Value::I16(-42), &Schema::I16);
    assert_roundtrip(&Value::I32(-42), &Schema::I32);
    assert_roundtrip(&Value::I64(-42), &Schema::I64);
    assert_roundtrip(&Value::F32Bits(3.14f32.to_bits()), &Schema::F32);
    assert_roundtrip(&Value::F64Bits(3.14159265f64.to_bits()), &Schema::F64);
}

#[test]
fn test_roundtrip_string() {
    assert_roundtrip(&text("Hello, World!"), &Schema::Str);
    assert_roundtrip(&text(""), &Schema::Str);
    assert_roundtrip(&text("🦀 Rust 🚀"), &Schema::Str);
}

#[test]
fn test_roundtrip_char() {
    assert_roundtrip(&Value::Char('A'), &Schema::Char);
    assert_roundtrip(&Value::Char('🦀'), &Schema::Char);
}

#[test]
fn test_roundtrip_bytes() {
    let bytes = |v: Vec<u8>| Value::Sequence(v.into_iter().map(Value::U8).collect());
    assert_roundtrip(&bytes(vec![1u8, 2, 3, 4, 5]), &seq_of(Schema::U8));
    assert_roundtrip(&bytes(vec![0u8; 100]), &seq_of(Schema::U8));
    assert_roundtrip(&bytes(Vec::<u8>::new()), &seq_of(Schema::U8));
    assert_roundtrip(&Value::Bytes(vec![1u8, 2, 3, 4, 5]), &Schema::Bytes);
}

#[test]
fn test_roundtrip_option() {
    assert_roundtrip(&some(Value::U32(42)), &opt_of(Schema::U32));
    assert_roundtrip(&Value::Optional(None), &opt_of(Schema::U32));
    assert_roundtrip(&some(text("hello")), &opt_of(Schema::Str));
    assert_roundtrip(&Value::Optional(None), &opt_of(Schema::Str));
}

#[test]
fn test_roundtrip_vec() {
    let ints = |v: Vec<i32>| Value::Sequence(v.into_iter().map(Value::I32).collect());
    assert_roundtrip(&ints(vec![1, 2, 3, 4, 5]), &seq_of(Schema::I32));
    assert_roundtrip(&ints(Vec::<i32>::new()), &seq_of(Schema::I32));
    assert_roundtrip(
        &Value::Sequence(vec![text("a"), text("b"), text("c")]),
        &seq_of(Schema::Str),
    );
}

#[test]
fn test_roundtrip_array() {
    assert_roundtrip(
        &Value::Tuple([1u32, 2, 3, 4, 5].iter().map(|x| Value::U32(*x)).collect()),
        &Schema::Tuple((0..5).map(|_| Schema::U32).collect()),
    );
    assert_roundtrip(
        &Value::Tuple([0u8; 10].iter().map(|x| Value::U8(*x)).collect()),
        &Schema::Tuple((0..10).map(|_| Schema::U8).collect()),
    );
}

#[test]
fn test_roundtrip_tuple() {
    assert_roundtrip(
        &Value::Tuple(vec![Value::U32(1), text("hello"), Value::F64Bits(3.14f64.to_bits())]),
        &Schema::Tuple(vec![Schema::U32, Schema::Str, Schema::F64]),
    );
    assert_roundtrip(
        &Value::Tuple(vec![Value::Bool(true), Value::Bool(false)]),
        &Schema::Tuple(vec![Schema::Bool, Schema::Bool]),
    );
    assert_roundtrip(&Value::Unit, &Schema::Unit);
}

#[test]
fn test_roundtrip_struct() {
    // struct Point { x: i32, y: i32 }
    let point = |x: i32, y: i32| Value::Tuple(vec![Value::I32(x), Value::I32(y)]);
    let point_schema = || Schema::Tuple(vec![Schema::I32, Schema::I32]);

    assert_roundtrip(&point(10, 20), &point_schema());

    // struct Nested { name: String, point: Point, values: Vec<i32> }
    assert_roundtrip(
        &Value::Tuple(vec![
            text("test"),
            point(1, 2),
            Value::Sequence(vec![Value::I32(1), Value::I32(2), Value::I32(3)]),
        ]),
        &Schema::Tuple(vec![Schema::Str, point_schema(), seq_of(Schema::I32)]),
    );
}

#[test]
fn test_roundtrip_tuple_struct() {
    // struct Wrapper(u32, String)
    assert_roundtrip(
        &Value::Tuple(vec![Value::U32(42), text("hello")]),
        &Schema::Tuple(vec![Schema::U32, Schema::Str]),
    );
}

#[test]
fn test_roundtrip_enum() {
    // enum TestEnum { A, B(u32), C { x: i32, y: i32 } }
    let schema = Schema::Enum(vec![
        Schema::Unit,
        Schema::U32,
        Schema::Tuple(vec![Schema::I32, Schema::I32]),
    ]);

    assert_roundtrip(&Value::Variant(0, Box::new(Value::Unit)), &schema);
    assert_roundtrip(&Value::Variant(1, Box::new(Value::U32(42))), &schema);
    assert_roundtrip(
        &Value::Variant(2, Box::new(Value::Tuple(vec![Value::I32(10), Value::I32(20)]))),
        &schema,
    );
}

#[test]
fn test_roundtrip_map() {
    let entries = vec![("key1", 1), ("key2", 2), ("key3", 3)];
    let map = Value::Mapping(entries.iter().map(|(k, v)| (text(k), Value::I32(*v))).collect());

    let serialized = to_bytes(&map).unwrap();
    let deserialized = from_bytes(&serialized, &map_of(Schema::Str, Schema::I32)).unwrap();

    // Compare maps element by element
    match (&map, &deserialized) {
        (Value::Mapping(a), Value::Mapping(b)) => {
            assert_eq!(a.len(), b.len());
            for (k, v) in a {
                assert!(b.iter().any(|(k2, v2)| k2 == k && v2 == v));
            }
        }
        _ => panic!("not a map"),
    }
}

#[test]
fn test_roundtrip_btreemap() {
    let entries = vec![("key1", 1), ("key2", 2), ("key3", 3)];
    let map = Value::Mapping(entries.iter().map(|(k, v)| (text(k), Value::I32(*v))).collect());
    assert_roundtrip(&map, &map_of(Schema::Str, Schema::I32));
}

#[test]
fn test_roundtrip_set() {
    let set = Value::Sequence(vec![Value::I32(1), Value::I32(2), Value::I32(3)]);

    let serialized = to_bytes(&set).unwrap();
    let deserialized = from_bytes(&serialized, &seq_of(Schema::I32)).unwrap();

    match (&set, &deserialized) {
        (Value::Sequence(a), Value::Sequence(b)) => {
            assert_eq!(a.len(), b.len());
            for v in a {
                assert!(b.contains(v));
            }
        }
        _ => panic!("not a set"),
    }
}

#[test]
fn test_roundtrip_btreeset() {
    let set = Value::Sequence(vec![Value::I32(1), Value::I32(2), Value::I32(3)]);
    assert_roundtrip(&set, &seq_of(Schema::I32));
}

#[test]
fn test_roundtrip_complex() {
    // struct Complex { id: u64, name: String, values: Vec<f64>,
    //                  metadata: BTreeMap<String, String>, flags: Option<Vec<bool>> }
    let complex = Value::Tuple(vec![
        Value::U64(12345),
        text("Test Object"),
        Value::Sequence(
            [1.1f64, 2.2, 3.3].iter().map(|x| Value::F64Bits(x.to_bits())).collect(),
        ),
        Value::Mapping(vec![(text("author"), text("test")), (text("version"), text("1.0"))]),
        some(Value::Sequence(vec![Value::Bool(true), Value::Bool(false), Value::Bool(true)])),
    ]);
    let schema = Schema::Tuple(vec![
        Schema::U64,
        Schema::Str,
        seq_of(Schema::F64),
        map_of(Schema::Str, Schema::Str),
        opt_of(seq_of(Schema::Bool)),
    ]);
    assert_roundtrip(&complex, &schema);
}

#[test]
fn reading_past_the_end_is_an_io_error() {
    match from_bytes(&[1, 2, 3], &Schema::U32) {
        Err(StoreError::Io(e)) => assert_eq!(e.kind(), std::io::ErrorKind::UnexpectedEof),
        other => panic!("unexpected {:?}", other),
    }
    // A text whose length prefix promises more bytes than there are.
    let mut bytes = 10u64.to_le_bytes().to_vec();
    bytes.extend_from_slice(b"abc");
    assert!(matches!(from_bytes(&bytes, &Schema::Str), Err(StoreError::Io(_))));
    assert!(matches!(from_bytes(&[], &Schema::Bool), Err(StoreError::Io(_))));
}

#[test]
fn invalid_option_tag_is_rejected() {
    match from_bytes(&[2], &opt_of(Schema::U8)) {
        Err(StoreError::Serde(m)) => assert_eq!(m, "Invalid option tag: 2"),
        other => panic!("unexpected {:?}", other),
    }
    let mut de = StoreDeserializer::new(&[200, 1, 0]);
    match de.deserialize_option() {
        Err(StoreError::Serde(m)) => assert_eq!(m, "Invalid option tag: 200"),
        other => panic!("unexpected {:?}", other),
    }
    assert_eq!(de.position(), 0);
}

#[test]
fn invalid_utf8_is_rejected() {
    let mut bytes = 2u64.to_le_bytes().to_vec();
    bytes.extend_from_slice(&[0xff, 0xfe]);
    match from_bytes(&bytes, &Schema::Str) {
        Err(StoreError::Serde(m)) => assert!(m.starts_with("Invalid UTF-8: "), "{}", m),
        other => panic!("unexpected {:?}", other),
    }
}

#[test]
fn char_needs_exactly_one_character() {
    let mut empty = 0u64.to_le_bytes().to_vec();
    empty.extend_from_slice(b"");
    match from_bytes(&empty, &Schema::Char) {
        Err(StoreError::Serde(m)) => assert_eq!(m, "Empty string when deserializing char"),
        other => panic!("unexpected {:?}", other),
    }
    let mut two = 2u64.to_le_bytes().to_vec();
    two.extend_from_slice(b"ab");
    match from_bytes(&two, &Schema::Char) {
        Err(StoreError::Serde(m)) => assert_eq!(m, "Multiple characters when deserializing char"),
        other => panic!("unexpected {:?}", other),
    }
}

#[test]
fn unknown_variant_is_rejected() {
    let schema = Schema::Enum(vec![Schema::Unit, Schema::Unit, Schema::Unit]);
    match from_bytes(&5u64.to_le_bytes(), &schema) {
        Err(StoreError::Serde(m)) => {
            assert_eq!(m, "invalid value: integer `5`, expected variant index 0 <= i < 3")
        }
        other => panic!("unexpected {:?}", other),
    }
}

#[test]
fn bool_reads_any_nonzero_byte_as_true() {
    assert_eq!(from_bytes(&[7], &Schema::Bool).unwrap(), Value::Bool(true));
    assert_eq!(from_bytes(&[0], &Schema::Bool).unwrap(), Value::Bool(false));
    let mut de = StoreDeserializer::new(&[0, 3]);
    assert_eq!(de.deserialize_bool().unwrap(), false);
    assert_eq!(de.deserialize_bool().unwrap(), true);
}

#[test]
fn trailing_bytes_are_not_read() {
    assert_eq!(from_bytes(&[5, 9, 9, 9], &Schema::U8).unwrap(), Value::U8(5));
}

#[test]
fn deserialize_any_is_unsupported() {
    let de = StoreDeserializer::new(&[]);
    match de.deserialize_any() {
        StoreError::Serde(m) => assert_eq!(m, "deserialize_any not supported by Store format"),
        other => panic!("unexpected {:?}", other),
    }
}

#[test]
fn deserializer_reads_primitives_in_order() {
    let mut bytes = vec![0xffu8, 0xfe];
    bytes.extend_from_slice(&0x1234u16.to_le_bytes());
    bytes.extend_from_slice(&(-5i16).to_le_bytes());
    bytes.extend_from_slice(&70000u32.to_le_bytes());
    bytes.extend_from_slice(&(-70000i32).to_le_bytes());
    bytes.extend_from_slice(&u64::MAX.to_le_bytes());
    bytes.extend_from_slice(&i64::MIN.to_le_bytes());
    bytes.extend_from_slice(&3u64.to_le_bytes());
    bytes.extend_from_slice(&[1, 2, 3]);
    let mut de = StoreDeserializer::new(&bytes);
    assert_eq!(de.read_u8().unwrap(), 0xff);
    assert_eq!(de.read_i8().unwrap(), -2);
    assert_eq!(de.read_u16().unwrap(), 0x1234);
    assert_eq!(de.read_i16().unwrap(), -5);
    assert_eq!(de.read_u32().unwrap(), 70000);
    assert_eq!(de.read_i32().unwrap(), -70000);
    assert_eq!(de.read_u64().unwrap(), u64::MAX);
    assert_eq!(de.read_i64().unwrap(), i64::MIN);
    assert_eq!(de.read_bytes().unwrap(), vec![1, 2, 3]);
    assert_eq!(de.position(), bytes.len());
    assert!(matches!(de.read_u8(), Err(StoreError::Io(_))));
}

#[test]
fn seq_access_counts_down() {
    let mut a = StoreSeqAccess::new(2);
    assert_eq!(a.size_hint(), Some(2));
    assert!(a.next_element());
    assert!(a.next_element());
    assert!(!a.next_element());
    assert_eq!(a.size_hint(), Some(0));
}

#[test]
fn every_proper_prefix_ends_in_end_of_input() {
    let value = Value::Tuple(vec![
        text("héllo"),
        some(Value::I64(-3)),
        Value::Sequence(vec![Value::U16(7), Value::U16(8)]),
        Value::Variant(1, Box::new(Value::Char('🦀'))),
    ]);
    let schema = Schema::Tuple(vec![
        Schema::Str,
        opt_of(Schema::I64),
        seq_of(Schema::U16),
        Schema::Enum(vec![Schema::Unit, Schema::Char]),
    ]);
    let bytes = to_bytes(&value).unwrap();
    for j in 0..bytes.len() {
        match from_bytes(&bytes[..j], &schema) {
            Err(StoreError::Io(e)) => assert_eq!(e.kind(), std::io::ErrorKind::UnexpectedEof),
            other => panic!("prefix of {} bytes gave {:?}", j, other),
        }
    }
    assert_eq!(from_bytes(&bytes, &schema).unwrap(), value);
}

#[test]
fn values_written_in_turn_are_read_in_turn() {
    let mut ser = StoreSerializer::new();
    encode_into(&mut ser, &Value::U32(5)).unwrap();
    encode_into(&mut ser, &text("ab")).unwrap();
    encode_into(&mut ser, &some(Value::Bool(true))).unwrap();
    let mut expected = to_bytes(&Value::U32(5)).unwrap();
    expected.extend(to_bytes(&text("ab")).unwrap());
    expected.extend(to_bytes(&some(Value::Bool(true))).unwrap());
    assert_eq!(ser.as_slice(), &expected[..]);
    let bytes = ser.into_inner();
    assert_eq!(bytes, expected);

    let mut de = StoreDeserializer::new(&bytes);
    assert_eq!(decode_into(&mut de, &Schema::U32).unwrap(), Value::U32(5));
    assert_eq!(de.position(), 4);
    assert_eq!(decode_into(&mut de, &Schema::Str).unwrap(), text("ab"));
    assert_eq!(decode_into(&mut de, &opt_of(Schema::Bool)).unwrap(), some(Value::Bool(true)));
    assert_eq!(de.position(), bytes.len());
}
