//! Roundtrip (idempotence) tests: serialize(x) -> deserialize -> y implies x == y, and
//! serializing y gives the same bytes as serializing x.

use serde_store::value::{from_bytes, to_bytes, Schema, Value};

fn seq_of(s: Schema) -> Schema {
    Schema::Sequence(Box::new(s))
}
fn opt_of(s: Schema) -> Schema {
    Schema::Optional(Box::new(s))
}
fn map_of(k: Schema, v: Schema) -> Schema {
    Schema::Mapping(Box::new((k, v)))
}
fn text(s: &str) -> Value {
    Value::Str(s.to_string())
}
fn some(v: Value) -> Value {
    Value::Optional(Some(Box::new(v)))
}
fn none() -> Value {
    Value::Optional(None)
}
fn i32s(v: &[i32]) -> Value {
    Value::Sequence(v.iter().map(|x| Value::I32(*x)).collect())
}
fn variant(i: u32, v: Value) -> Value {
    Value::Variant(i, Box::new(v))
}

/// Helper function to test idempotence (roundtrip property)
fn assert_idempotent(value: &Value, schema: &Schema) {
    let serialized = to_bytes(value).expect("Serialization failed");
    let deserialized = from_bytes(&serialized, schema).expect("Deserialization failed");
    assert_eq!(
        value, &deserialized,
        "Idempotence failed: serialized value differs after deserialization"
    );

    // Double roundtrip to ensure stability
    let serialized2 = to_bytes(&deserialized).expect("Second serialization failed");
    assert_eq!(serialized, serialized2, "Binary representation changed after roundtrip");
}

#[test]
fn test_idempotent_primitives() {
    // Booleans
    assert_idempotent(&Value::Bool(true), &Schema::Bool);
    assert_idempotent(&Value::Bool(false), &Schema::Bool);

    // Unsigned integers
    assert_idempotent(&Value::U8(0), &Schema::U8);
    assert_idempotent(&Value::U8(255), &Schema::U8);
    assert_idempotent(&Value::U16(0), &Schema::U16);
    assert_idempotent(&Value::U16(65535), &Schema::U16);
    assert_idempotent(&Value::U32(0), &Schema::U32);
    assert_idempotent(&Value::U32(4294967295), &Schema::U32);
    assert_idempotent(&Value::U64(0), &Schema::U64);
    assert_idempotent(&Value::U64(18446744073709551615), &Schema::U64);

    // Signed integers
    assert_idempotent(&Value::I8(0), &Schema::I8);
    assert_idempotent(&Value::I8(127), &Schema::I8);
    assert_idempotent(&Value::I8(-128), &Schema::I8);
    assert_idempotent(&Value::I16(0), &Schema::I16);
    assert_idempotent(&Value::I16(32767), &Schema::I16);
    assert_idempotent(&Value::I16(-32768), &Schema::I16);
    assert_idempotent(&Value::I32(0), &Schema::I32);
    assert_idempotent(&Value::I32(2147483647), &Schema::I32);
    assert_idempotent(&Value::I32(-2147483648), &Schema::I32);
    assert_idempotent(&Value::I64(0), &Schema::I64);
    assert_idempotent(&Value::I64(9223372036854775807), &Schema::I64);
    assert_idempotent(&Value::I64(-9223372036854775808), &Schema::I64);

    // Floating point
    assert_idempotent(&Value::F32Bits(0.0f32.to_bits()), &Schema::F32);
    assert_idempotent(&Value::F32Bits(3.14159f32.to_bits()), &Schema::F32);
    assert_idempotent(&Value::F32Bits((-2.71828f32).to_bits()), &Schema::F32);
    assert_idempotent(&Value::F64Bits(0.0f64.to_bits()), &Schema::F64);
    assert_idempotent(&Value::F64Bits(3.141592653589793f64.to_bits()), &Schema::F64);
    assert_idempotent(&Value::F64Bits((-2.718281828459045f64).to_bits()), &Schema::F64);
}

#[test]
fn test_idempotent_strings() {
    // Empty string
    assert_idempotent(&Value::Str(String::new()), &Schema::Str);
    assert_idempotent(&text(""), &Schema::Str);

    // ASCII strings
    assert_idempotent(&text("Hello, World!"), &Schema::Str);
    assert_idempotent(&text("The quick brown fox jumps over the lazy dog"), &Schema::Str);

    // Unicode strings
    assert_idempotent(&text("こんにちは世界"), &Schema::Str);
    assert_idempotent(&text("🦀 Rust 🚀"), &Schema::Str);
    assert_idempotent(&text("Emoji: 😀😃😄😁"), &Schema::Str);
    assert_idempotent(&text("Mixed: Hello 世界 🌍"), &Schema::Str);

    // Special characters
    assert_idempotent(&text("Newline:\nTab:\tCarriage return:\r"), &Schema::Str);
    assert_idempotent(&text("Quotes: \"double\" 'single'"), &Schema::Str);
}

#[test]
fn test_idempotent_chars() {
    for c in ['A', 'z', '0', '🦀', '世', '\n', '\t'] {
        assert_idempotent(&Value::Char(c), &Schema::Char);
    }
}

#[test]
fn test_idempotent_bytes() {
    let bytes = |v: Vec<u8>| Value::Sequence(v.into_iter().map(Value::U8).collect());
    let schema = seq_of(Schema::U8);
    assert_idempotent(&bytes(Vec::<u8>::new()), &schema);
    assert_idempotent(&bytes(vec![0u8]), &schema);
    assert_idempotent(&bytes(vec![1u8, 2, 3, 4, 5]), &schema);
    assert_idempotent(&bytes(vec![255u8; 100]), &schema);
    assert_idempotent(&bytes((0..=255u8).collect::<Vec<_>>()), &schema);
}

#[test]
fn test_idempotent_options() {
    // None variants
    assert_idempotent(&none(), &opt_of(Schema::U32));
    assert_idempotent(&none(), &opt_of(Schema::Str));
    assert_idempotent(&none(), &opt_of(seq_of(Schema::I32)));

    // Some variants
    assert_idempotent(&some(Value::U32(42)), &opt_of(Schema::U32));
    assert_idempotent(&some(Value::I32(-42)), &opt_of(Schema::I32));
    assert_idempotent(&some(text("hello")), &opt_of(Schema::Str));
    assert_idempotent(&some(i32s(&[1, 2, 3])), &opt_of(seq_of(Schema::I32)));

    // Nested options
    assert_idempotent(&some(some(Value::U32(42))), &opt_of(opt_of(Schema::U32)));
    assert_idempotent(&some(none()), &opt_of(opt_of(Schema::U32)));
    assert_idempotent(&none(), &opt_of(opt_of(Schema::U32)));
}

#[test]
fn test_idempotent_vectors() {
    // Empty vectors
    assert_idempotent(&Value::Sequence(vec![]), &seq_of(Schema::U32));
    assert_idempotent(&Value::Sequence(vec![]), &seq_of(Schema::Str));

    // Homogeneous vectors
    assert_idempotent(&i32s(&[1, 2, 3, 4, 5]), &seq_of(Schema::I32));
    assert_idempotent(
        &Value::Sequence(vec![text("a"), text("b"), text("c")]),
        &seq_of(Schema::Str),
    );
    assert_idempotent(
        &Value::Sequence([true, false, true, false].iter().map(|b| Value::Bool(*b)).collect()),
        &seq_of(Schema::Bool),
    );

    // Nested vectors
    assert_idempotent(
        &Value::Sequence(vec![i32s(&[1, 2]), i32s(&[3, 4, 5]), i32s(&[])]),
        &seq_of(seq_of(Schema::I32)),
    );
    assert_idempotent(
        &Value::Sequence(vec![
            Value::Sequence(vec![text("a"), text("b")]),
            Value::Sequence(vec![text("c")]),
        ]),
        &seq_of(seq_of(Schema::Str)),
    );
}

#[test]
fn test_idempotent_arrays() {
    assert_idempotent(
        &Value::Tuple([1u32, 2, 3, 4, 5].iter().map(|x| Value::U32(*x)).collect()),
        &Schema::Tuple((0..5).map(|_| Schema::U32).collect()),
    );
    assert_idempotent(
        &Value::Tuple([0u8; 10].iter().map(|x| Value::U8(*x)).collect()),
        &Schema::Tuple((0..10).map(|_| Schema::U8).collect()),
    );
    assert_idempotent(
        &Value::Tuple([true, false, true].iter().map(|b| Value::Bool(*b)).collect()),
        &Schema::Tuple(vec![Schema::Bool, Schema::Bool, Schema::Bool]),
    );
}

#[test]
fn test_idempotent_tuples() {
    assert_idempotent(&Value::Unit, &Schema::Unit);
    assert_idempotent(&Value::Tuple(vec![Value::U32(1)]), &Schema::Tuple(vec![Schema::U32]));
    assert_idempotent(
        &Value::Tuple(vec![Value::U32(1), Value::U32(2)]),
        &Schema::Tuple(vec![Schema::U32, Schema::U32]),
    );
    assert_idempotent(
        &Value::Tuple(vec![Value::U32(1), text("hello")]),
        &Schema::Tuple(vec![Schema::U32, Schema::Str]),
    );
    assert_idempotent(
        &Value::Tuple(vec![Value::U32(1), text("hello"), Value::F64Bits(3.14f64.to_bits())]),
        &Schema::Tuple(vec![Schema::U32, Schema::Str, Schema::F64]),
    );
    assert_idempotent(
        &Value::Tuple(vec![Value::Bool(true), Value::Bool(false), Value::U32(42), text("test")]),
        &Schema::Tuple(vec![Schema::Bool, Schema::Bool, Schema::U32, Schema::Str]),
    );
    assert_idempotent(
        &Value::Tuple(vec![i32s(&[1, 2, 3]), some(Value::I32(42)), none()]),
        &Schema::Tuple(vec![seq_of(Schema::I32), opt_of(Schema::I32), opt_of(Schema::Str)]),
    );
}

fn point(x: i32, y: i32) -> Value {
    Value::Tuple(vec![Value::I32(x), Value::I32(y)])
}
fn point_schema() -> Schema {
    Schema::Tuple(vec![Schema::I32, Schema::I32])
}
fn person(name: &str, age: u32, email: Option<&str>) -> Value {
    Value::Tuple(vec![
        text(name),
        Value::U32(age),
        match email {
            Some(e) => some(text(e)),
            None => none(),
        },
    ])
}
fn person_schema() -> Schema {
    Schema::Tuple(vec![Schema::Str, Schema::U32, opt_of(Schema::Str)])
}

#[test]
fn test_idempotent_structs() {
    // struct Empty {}
    assert_idempotent(&Value::Tuple(vec![]), &Schema::Tuple(vec![]));

    // struct Point { x: i32, y: i32 }
    assert_idempotent(&point(0, 0), &point_schema());
    assert_idempotent(&point(10, -20), &point_schema());

    // struct Person { name: String, age: u32, email: Option<String> }
    assert_idempotent(&person("Alice", 30, Some("alice@example.com")), &person_schema());
    assert_idempotent(&person("Bob", 25, None), &person_schema());

    // struct Nested { id: u64, point: Point, people: Vec<Person> }
    assert_idempotent(
        &Value::Tuple(vec![
            Value::U64(123),
            point(5, 10),
            Value::Sequence(vec![
                person("Alice", 30, Some("alice@example.com")),
                person("Bob", 25, None),
            ]),
        ]),
        &Schema::Tuple(vec![Schema::U64, point_schema(), seq_of(person_schema())]),
    );
}

#[test]
fn test_idempotent_tuple_structs() {
    // struct Wrapper(u32): a newtype struct is its field
    assert_idempotent(&Value::U32(42), &Schema::U32);

    // struct Pair(i32, String)
    assert_idempotent(
        &Value::Tuple(vec![Value::I32(42), text("hello")]),
        &Schema::Tuple(vec![Schema::I32, Schema::Str]),
    );

    // struct Triple(u32, String, Vec<i32>)
    assert_idempotent(
        &Value::Tuple(vec![Value::U32(1), text("test"), i32s(&[1, 2, 3])]),
        &Schema::Tuple(vec![Schema::U32, Schema::Str, seq_of(Schema::I32)]),
    );
}

#[test]
fn test_idempotent_enums() {
    // enum Simple { A, B, C }
    let simple = Schema::Enum(vec![Schema::Unit, Schema::Unit, Schema::Unit]);
    assert_idempotent(&variant(0, Value::Unit), &simple);
    assert_idempotent(&variant(1, Value::Unit), &simple);
    assert_idempotent(&variant(2, Value::Unit), &simple);

    // enum WithData { Unit, NewType(u32), Tuple(i32, String), Struct { x: i32, y: i32 } }
    let with_data = Schema::Enum(vec![
        Schema::Unit,
        Schema::U32,
        Schema::Tuple(vec![Schema::I32, Schema::Str]),
        point_schema(),
    ]);
    assert_idempotent(&variant(0, Value::Unit), &with_data);
    assert_idempotent(&variant(1, Value::U32(42)), &with_data);
    assert_idempotent(
        &variant(2, Value::Tuple(vec![Value::I32(10), text("hello")])),
        &with_data,
    );
    assert_idempotent(&variant(3, point(5, 10)), &with_data);

    // enum Nested { Empty, Point { x, y }, List(Vec<i32>), Map(BTreeMap<String, i32>) }
    let nested = Schema::Enum(vec![
        Schema::Unit,
        point_schema(),
        seq_of(Schema::I32),
        map_of(Schema::Str, Schema::I32),
    ]);
    assert_idempotent(&variant(0, Value::Unit), &nested);
    assert_idempotent(&variant(1, point(1, 2)), &nested);
    assert_idempotent(&variant(2, i32s(&[1, 2, 3])), &nested);
    assert_idempotent(
        &variant(
            3,
            Value::Mapping(vec![(text("a"), Value::I32(1)), (text("b"), Value::I32(2))]),
        ),
        &nested,
    );
}

#[test]
fn test_idempotent_hashmaps() {
    let map = Value::Mapping(vec![
        (text("key1"), Value::I32(1)),
        (text("key2"), Value::I32(2)),
        (text("key3"), Value::I32(3)),
    ]);
    let serialized = to_bytes(&map).unwrap();
    let deserialized = from_bytes(&serialized, &map_of(Schema::Str, Schema::I32)).unwrap();
    assert_eq!(map, deserialized);

    // Test with different key/value types
    let map2 = Value::Mapping(vec![
        (Value::U32(1), text("one")),
        (Value::U32(2), text("two")),
    ]);
    let serialized2 = to_bytes(&map2).unwrap();
    let deserialized2 = from_bytes(&serialized2, &map_of(Schema::U32, Schema::Str)).unwrap();
    assert_eq!(map2, deserialized2);
}

#[test]
fn test_idempotent_btreemaps() {
    assert_idempotent(
        &Value::Mapping(vec![
            (text("key1"), Value::I32(1)),
            (text("key2"), Value::I32(2)),
            (text("key3"), Value::I32(3)),
        ]),
        &map_of(Schema::Str, Schema::I32),
    );
    assert_idempotent(
        &Value::Mapping(vec![
            (Value::U32(1), i32s(&[1, 2, 3])),
            (Value::U32(2), i32s(&[4, 5, 6])),
        ]),
        &map_of(Schema::U32, seq_of(Schema::I32)),
    );
}

#[test]
fn test_idempotent_hashsets() {
    let set = i32s(&[1, 2, 3]);
    let serialized = to_bytes(&set).unwrap();
    let deserialized = from_bytes(&serialized, &seq_of(Schema::I32)).unwrap();
    assert_eq!(set, deserialized);
}

#[test]
fn test_idempotent_btreesets() {
    assert_idempotent(&i32s(&[1, 2, 3]), &seq_of(Schema::I32));
    assert_idempotent(
        &Value::Sequence(vec![text("a"), text("b"), text("c")]),
        &seq_of(Schema::Str),
    );
}

#[test]
fn test_idempotent_complex_nested() {
    // struct NestedData { key: String, values: Vec<i32>, enabled: bool }
    let nested_data = |key: &str, values: &[i32], enabled: bool| {
        Value::Tuple(vec![text(key), i32s(values), Value::Bool(enabled)])
    };
    // struct ComplexData { id: u64, name: String, tags: Vec<String>,
    //   scores: BTreeMap<String, f64>, metadata: Option<BTreeMap<String, String>>,
    //   nested: Vec<NestedData> }
    let complex = Value::Tuple(vec![
        Value::U64(12345),
        text("Test Object"),
        Value::Sequence(vec![text("tag1"), text("tag2")]),
        Value::Mapping(vec![
            (text("math"), Value::F64Bits(95.5f64.to_bits())),
            (text("science"), Value::F64Bits(87.3f64.to_bits())),
        ]),
        some(Value::Mapping(vec![
            (text("author"), text("test")),
            (text("version"), text("1.0")),
        ])),
        Value::Sequence(vec![
            nested_data("item1", &[1, 2, 3], true),
            nested_data("item2", &[], false),
        ]),
    ]);
    let schema = Schema::Tuple(vec![
        Schema::U64,
        Schema::Str,
        seq_of(Schema::Str),
        map_of(Schema::Str, Schema::F64),
        opt_of(map_of(Schema::Str, Schema::Str)),
        seq_of(Schema::Tuple(vec![Schema::Str, seq_of(Schema::I32), Schema::Bool])),
    ]);
    assert_idempotent(&complex, &schema);
}

#[test]
fn test_idempotent_edge_cases() {
    // Very long strings
    let long_string = "a".repeat(10000);
    assert_idempotent(&Value::Str(long_string), &Schema::Str);

    // Large vectors
    let large_vec = Value::Sequence((0..1000u32).map(Value::U32).collect());
    assert_idempotent(&large_vec, &seq_of(Schema::U32));

    // Deeply nested options
    assert_idempotent(
        &some(some(some(some(Value::U32(42))))),
        &opt_of(opt_of(opt_of(opt_of(Schema::U32)))),
    );

    // Empty collections
    assert_idempotent(&Value::Sequence(vec![]), &seq_of(Schema::Str));
    assert_idempotent(&Value::Mapping(vec![]), &map_of(Schema::Str, Schema::I32));
    assert_idempotent(&Value::Sequence(vec![]), &seq_of(Schema::I32));
}

#[test]
fn test_binary_stability() {
    // The same value always produces the same bytes
    let value = Value::Tuple(vec![Value::U32(42), text("hello"), i32s(&[1, 2, 3])]);

    let bytes1 = to_bytes(&value).unwrap();
    let bytes2 = to_bytes(&value).unwrap();
    let bytes3 = to_bytes(&value).unwrap();

    assert_eq!(bytes1, bytes2);
    assert_eq!(bytes2, bytes3);
}

#[test]
fn test_multiple_roundtrips() {
    // struct Data { x: i32, y: String, z: Vec<f64> }
    let make = || {
        Value::Tuple(vec![
            Value::I32(42),
            text("test"),
            Value::Sequence([1.1f64, 2.2, 3.3].iter().map(|x| Value::F64Bits(x.to_bits())).collect()),
        ])
    };
    let schema = Schema::Tuple(vec![Schema::I32, Schema::Str, seq_of(Schema::F64)]);
    let original = make();

    let mut current = make();
    for _ in 0..10 {
        let bytes = to_bytes(&current).unwrap();
        current = from_bytes(&bytes, &schema).unwrap();
    }

    assert_eq!(original, current);
}
