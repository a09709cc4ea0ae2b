//! Whole values in the store format: a value tree, the schema that says what a reader
//! expects, and the encoding and decoding of one by the other.
//!
//! `Value` holds what a type hands to a serializer (serde's data model as this format
//! writes it); `Schema` holds what a type asks of a deserializer. Floating-point numbers
//! are carried by their IEEE-754 bit patterns, which is what the format writes.

use crate::bytes::{
    le_u16, le_u32, le_u64, lemma_u16_roundtrip, lemma_u32_roundtrip, lemma_u64_roundtrip,
    u16_from_le, u32_from_le, u64_from_le,
};
use crate::deserializer::{
    bool_at, byte_string_at, char_at, fixed_at, i16_at, i32_at, i64_at, i8_at, len_at, option_tag_at,
    reports, text_at, u16_at, u32_at, u64_at, u8_at, ReadFailure, StoreDeserializer,
};
use crate::error::StoreError;
use crate::ordered_map::{check_ascending_marker, ASCENDING_MAP_MARKER};
use crate::text::append_decimal;
use crate::serializer::{bool_byte, byte_string_bytes, len_bytes, text_bytes, StoreSerializer};
use vstd::prelude::*;
use vstd::string::*;

verus! {

/// A value as the store format writes it.
#[derive(Debug, PartialEq)]
pub enum Value {
    Bool(bool),
    U8(u8),
    U16(u16),
    U32(u32),
    U64(u64),
    I8(i8),
    I16(i16),
    I32(i32),
    I64(i64),
    /// An `f32`, by its bit pattern.
    F32Bits(u32),
    /// An `f64`, by its bit pattern.
    F64Bits(u64),
    Char(char),
    Str(String),
    Bytes(Vec<u8>),
    /// The unit value, a unit struct, or the absent fields of a unit variant.
    Unit,
    Optional(Option<Box<Value>>),
    /// A sequence (a `Vec`, a set, a slice): written with its length.
    Sequence(Vec<Value>),
    /// A product (a tuple, a struct, a tuple struct): its fields, with no length.
    Tuple(Vec<Value>),
    /// A map: written with its number of entries.
    Mapping(Vec<(Value, Value)>),
    /// A variant of a sum type: its index and its fields.
    Variant(u32, Box<Value>),
    /// A map written after the ascending-order marker.
    OrderedMapping(Vec<(Value, Value)>),
}

/// The mathematical model of a `Value`.
pub enum SpecValue {
    Bool(bool),
    U8(u8),
    U16(u16),
    U32(u32),
    U64(u64),
    I8(i8),
    I16(i16),
    I32(i32),
    I64(i64),
    F32Bits(u32),
    F64Bits(u64),
    Char(char),
    Str(Seq<char>),
    Bytes(Seq<u8>),
    Unit,
    Optional(Option<Box<SpecValue>>),
    Sequence(Seq<SpecValue>),
    Tuple(Seq<SpecValue>),
    Mapping(Seq<(SpecValue, SpecValue)>),
    Variant(u32, Box<SpecValue>),
    OrderedMapping(Seq<(SpecValue, SpecValue)>),
}

/// What a reader expects to find: the shape of a type.
#[derive(Debug, PartialEq)]
pub enum Schema {
    Bool,
    U8,
    U16,
    U32,
    U64,
    I8,
    I16,
    I32,
    I64,
    F32,
    F64,
    Char,
    Str,
    Bytes,
    Unit,
    Optional(Box<Schema>),
    /// A sequence whose elements all have the given shape.
    Sequence(Box<Schema>),
    /// A product whose fields have the given shapes, in order.
    Tuple(Vec<Schema>),
    /// A map whose keys and values have the given shapes.
    Mapping(Box<(Schema, Schema)>),
    /// A sum type whose variants' fields have the given shapes, by variant index.
    Enum(Vec<Schema>),
    /// A map written after the ascending-order marker.
    OrderedMapping(Box<(Schema, Schema)>),
}

/// The model of a value.
pub open spec fn value_view(v: Value) -> SpecValue
    decreases v,
{
    match v {
        Value::Bool(b) => SpecValue::Bool(b),
        Value::U8(x) => SpecValue::U8(x),
        Value::U16(x) => SpecValue::U16(x),
        Value::U32(x) => SpecValue::U32(x),
        Value::U64(x) => SpecValue::U64(x),
        Value::I8(x) => SpecValue::I8(x),
        Value::I16(x) => SpecValue::I16(x),
        Value::I32(x) => SpecValue::I32(x),
        Value::I64(x) => SpecValue::I64(x),
        Value::F32Bits(x) => SpecValue::F32Bits(x),
        Value::F64Bits(x) => SpecValue::F64Bits(x),
        Value::Char(c) => SpecValue::Char(c),
        Value::Str(s) => SpecValue::Str(s@),
        Value::Bytes(b) => SpecValue::Bytes(b@),
        Value::Unit => SpecValue::Unit,
        Value::Optional(o) => match o {
            Some(b) => SpecValue::Optional(Some(Box::new(value_view(*b)))),
            None => SpecValue::Optional(None),
        },
        Value::Sequence(xs) => SpecValue::Sequence(values_view(xs@)),
        Value::Tuple(xs) => SpecValue::Tuple(values_view(xs@)),
        Value::Mapping(ps) => SpecValue::Mapping(pairs_view(ps@)),
        Value::Variant(i, b) => SpecValue::Variant(i, Box::new(value_view(*b))),
        Value::OrderedMapping(ps) => SpecValue::OrderedMapping(pairs_view(ps@)),
    }
}

/// The models of a sequence of values.
pub open spec fn values_view(xs: Seq<Value>) -> Seq<SpecValue>
    decreases xs,
{
    if xs.len() == 0 {
        seq![]
    } else {
        seq![value_view(xs[0])] + values_view(xs.drop_first())
    }
}

/// The models of a sequence of key-value pairs.
pub open spec fn pairs_view(ps: Seq<(Value, Value)>) -> Seq<(SpecValue, SpecValue)>
    decreases ps,
{
    if ps.len() == 0 {
        seq![]
    } else {
        seq![(value_view(ps[0].0), value_view(ps[0].1))] + pairs_view(ps.drop_first())
    }
}

impl View for Value {
    type V = SpecValue;

    open spec fn view(&self) -> SpecValue {
        value_view(*self)
    }
}

/// The bytes that the store format writes for a value.
pub open spec fn encode(v: SpecValue) -> Seq<u8>
    decreases v,
{
    match v {
        SpecValue::Bool(b) => seq![bool_byte(b)],
        SpecValue::U8(x) => seq![x],
        SpecValue::U16(x) => le_u16(x),
        SpecValue::U32(x) => le_u32(x),
        SpecValue::U64(x) => le_u64(x),
        SpecValue::I8(x) => seq![x as u8],
        SpecValue::I16(x) => le_u16(x as u16),
        SpecValue::I32(x) => le_u32(x as u32),
        SpecValue::I64(x) => le_u64(x as u64),
        SpecValue::F32Bits(x) => le_u32(x),
        SpecValue::F64Bits(x) => le_u64(x),
        SpecValue::Char(c) => text_bytes(seq![c]),
        SpecValue::Str(s) => text_bytes(s),
        SpecValue::Bytes(b) => byte_string_bytes(b),
        SpecValue::Unit => Seq::empty(),
        SpecValue::Optional(o) => match o {
            None => seq![0u8],
            Some(b) => seq![1u8] + encode(*b),
        },
        SpecValue::Sequence(xs) => len_bytes(xs.len()) + encode_all(xs),
        SpecValue::Tuple(xs) => encode_all(xs),
        SpecValue::Mapping(ps) => len_bytes(ps.len()) + encode_pairs(ps),
        SpecValue::Variant(i, b) => le_u64(i as u64) + encode(*b),
        SpecValue::OrderedMapping(ps) => le_u32(ASCENDING_MAP_MARKER) + len_bytes(ps.len())
            + encode_pairs(ps),
    }
}

/// The bytes of values written one after another.
pub open spec fn encode_all(xs: Seq<SpecValue>) -> Seq<u8>
    decreases xs,
{
    if xs.len() == 0 {
        Seq::empty()
    } else {
        encode(xs[0]) + encode_all(xs.drop_first())
    }
}

/// The bytes of key-value pairs written one after another, each key before its value.
pub open spec fn encode_pairs(ps: Seq<(SpecValue, SpecValue)>) -> Seq<u8>
    decreases ps,
{
    if ps.len() == 0 {
        Seq::empty()
    } else {
        encode(ps[0].0) + encode(ps[0].1) + encode_pairs(ps.drop_first())
    }
}

/// `v` is a value of the shape `s`, and every length in it fits in `usize`. The keys of
/// a map are taken as they come (see `conforms` for the order of an ordered map's keys).
pub open spec fn shaped(v: SpecValue, s: Schema) -> bool
    decreases v,
{
    match (v, s) {
        (SpecValue::Bool(_), Schema::Bool) => true,
        (SpecValue::U8(_), Schema::U8) => true,
        (SpecValue::U16(_), Schema::U16) => true,
        (SpecValue::U32(_), Schema::U32) => true,
        (SpecValue::U64(_), Schema::U64) => true,
        (SpecValue::I8(_), Schema::I8) => true,
        (SpecValue::I16(_), Schema::I16) => true,
        (SpecValue::I32(_), Schema::I32) => true,
        (SpecValue::I64(_), Schema::I64) => true,
        (SpecValue::F32Bits(_), Schema::F32) => true,
        (SpecValue::F64Bits(_), Schema::F64) => true,
        (SpecValue::Char(_), Schema::Char) => true,
        (SpecValue::Str(t), Schema::Str) => vstd::utf8::encode_utf8(t).len() <= usize::MAX,
        (SpecValue::Bytes(b), Schema::Bytes) => b.len() <= usize::MAX,
        (SpecValue::Unit, Schema::Unit) => true,
        (SpecValue::Optional(o), Schema::Optional(e)) => match o {
            None => true,
            Some(b) => shaped(*b, *e),
        },
        (SpecValue::Sequence(xs), Schema::Sequence(e)) => xs.len() <= usize::MAX && shaped_all(
            xs,
            *e,
        ),
        (SpecValue::Tuple(xs), Schema::Tuple(fs)) => shaped_each(xs, fs@),
        (SpecValue::Mapping(ps), Schema::Mapping(kv)) => ps.len() <= usize::MAX && shaped_pairs(
            ps,
            *kv,
        ),
        (SpecValue::Variant(i, b), Schema::Enum(vs)) => i < vs@.len() && shaped(*b, vs@[i as int]),
        (SpecValue::OrderedMapping(ps), Schema::OrderedMapping(kv)) => ps.len() <= usize::MAX
            && shaped_pairs(ps, *kv),
        _ => false,
    }
}

/// Every value of `xs` has the shape `e`.
pub open spec fn shaped_all(xs: Seq<SpecValue>, e: Schema) -> bool
    decreases xs,
{
    if xs.len() == 0 {
        true
    } else {
        shaped(xs[0], e) && shaped_all(xs.drop_first(), e)
    }
}

/// The values `xs` have the shapes `fs`, one for one.
pub open spec fn shaped_each(xs: Seq<SpecValue>, fs: Seq<Schema>) -> bool
    decreases xs,
{
    if xs.len() == 0 {
        fs.len() == 0
    } else {
        fs.len() > 0 && shaped(xs[0], fs[0]) && shaped_each(xs.drop_first(), fs.drop_first())
    }
}

/// Every pair of `ps` has a key of the first shape of `kv` and a value of the second.
pub open spec fn shaped_pairs(ps: Seq<(SpecValue, SpecValue)>, kv: (Schema, Schema)) -> bool
    decreases ps,
{
    if ps.len() == 0 {
        true
    } else {
        shaped(ps[0].0, kv.0) && shaped(ps[0].1, kv.1) && shaped_pairs(ps.drop_first(), kv)
    }
}

/// `a` comes before `b` in the order of the Rust type the values come from: numbers and
/// chars by value, `false` before `true`, texts and byte strings and sequences and products
/// lexicographically (a proper prefix first), `None` before `Some`, variants by index and
/// then by their fields, maps as the sequences of their entries. Floating-point numbers have
/// no such order (`f32` and `f64` are not `Ord`), and neither do values of different kinds.
pub open spec fn value_lt(a: SpecValue, b: SpecValue) -> bool
    decreases a,
{
    match (a, b) {
        (SpecValue::Bool(x), SpecValue::Bool(y)) => !x && y,
        (SpecValue::U8(x), SpecValue::U8(y)) => x < y,
        (SpecValue::U16(x), SpecValue::U16(y)) => x < y,
        (SpecValue::U32(x), SpecValue::U32(y)) => x < y,
        (SpecValue::U64(x), SpecValue::U64(y)) => x < y,
        (SpecValue::I8(x), SpecValue::I8(y)) => x < y,
        (SpecValue::I16(x), SpecValue::I16(y)) => x < y,
        (SpecValue::I32(x), SpecValue::I32(y)) => x < y,
        (SpecValue::I64(x), SpecValue::I64(y)) => x < y,
        (SpecValue::Char(x), SpecValue::Char(y)) => (x as u32) < (y as u32),
        (SpecValue::Str(x), SpecValue::Str(y)) => chars_lt(x, y),
        (SpecValue::Bytes(x), SpecValue::Bytes(y)) => bytes_lt(x, y),
        (SpecValue::Optional(x), SpecValue::Optional(y)) => match (x, y) {
            (None, Some(_)) => true,
            (Some(u), Some(w)) => value_lt(*u, *w),
            _ => false,
        },
        (SpecValue::Sequence(xs), SpecValue::Sequence(ys)) => values_lt(xs, ys),
        (SpecValue::Tuple(xs), SpecValue::Tuple(ys)) => values_lt(xs, ys),
        (SpecValue::Mapping(xs), SpecValue::Mapping(ys)) => pairs_lt(xs, ys),
        (SpecValue::Variant(i, x), SpecValue::Variant(j, y)) => i < j || (i == j && value_lt(
            *x,
            *y,
        )),
        (SpecValue::OrderedMapping(xs), SpecValue::OrderedMapping(ys)) => pairs_lt(xs, ys),
        _ => false,
    }
}

/// `xs` comes before `ys` lexicographically in the order of `value_lt`.
pub open spec fn values_lt(xs: Seq<SpecValue>, ys: Seq<SpecValue>) -> bool
    decreases xs,
{
    if xs.len() == 0 {
        ys.len() > 0
    } else if ys.len() == 0 {
        false
    } else {
        value_lt(xs[0], ys[0]) || (xs[0] == ys[0] && values_lt(xs.drop_first(), ys.drop_first()))
    }
}

/// `xs` comes before `ys` lexicographically, each entry by its key and then by its value.
pub open spec fn pairs_lt(xs: Seq<(SpecValue, SpecValue)>, ys: Seq<(SpecValue, SpecValue)>) -> bool
    decreases xs,
{
    if xs.len() == 0 {
        ys.len() > 0
    } else if ys.len() == 0 {
        false
    } else {
        value_lt(xs[0].0, ys[0].0) || (xs[0].0 == ys[0].0 && value_lt(xs[0].1, ys[0].1)) || (
        xs[0] == ys[0] && pairs_lt(xs.drop_first(), ys.drop_first()))
    }
}

/// `x` comes before `y` lexicographically, characters compared by their code points (which
/// is the order of their UTF-8 bytes).
pub open spec fn chars_lt(x: Seq<char>, y: Seq<char>) -> bool
    decreases x.len(),
{
    if x.len() == 0 {
        y.len() > 0
    } else if y.len() == 0 {
        false
    } else {
        (x[0] as u32) < (y[0] as u32) || (x[0] == y[0] && chars_lt(x.drop_first(), y.drop_first()))
    }
}

/// `x` comes before `y` lexicographically.
pub open spec fn bytes_lt(x: Seq<u8>, y: Seq<u8>) -> bool
    decreases x.len(),
{
    if x.len() == 0 {
        y.len() > 0
    } else if y.len() == 0 {
        false
    } else {
        x[0] < y[0] || (x[0] == y[0] && bytes_lt(x.drop_first(), y.drop_first()))
    }
}

/// The keys of `ps` are distinct and strictly ascending, as a `BTreeMap` yields them.
pub open spec fn keys_ascending(ps: Seq<(SpecValue, SpecValue)>) -> bool {
    forall|i: int, j: int|
        0 <= i < j < ps.len() ==> ps[i].0 != ps[j].0 && #[trigger] value_lt(ps[i].0, ps[j].0)
}

/// Every map written after the ascending-order marker, anywhere in `v`, has distinct,
/// strictly ascending keys.
pub open spec fn maps_ascending(v: SpecValue) -> bool
    decreases v,
{
    match v {
        SpecValue::Optional(o) => match o {
            Some(b) => maps_ascending(*b),
            None => true,
        },
        SpecValue::Sequence(xs) => all_maps_ascending(xs),
        SpecValue::Tuple(xs) => all_maps_ascending(xs),
        SpecValue::Mapping(ps) => pairs_maps_ascending(ps),
        SpecValue::Variant(_, b) => maps_ascending(*b),
        SpecValue::OrderedMapping(ps) => keys_ascending(ps) && pairs_maps_ascending(ps),
        _ => true,
    }
}

/// `maps_ascending` holds of every value of `xs`.
pub open spec fn all_maps_ascending(xs: Seq<SpecValue>) -> bool
    decreases xs,
{
    if xs.len() == 0 {
        true
    } else {
        maps_ascending(xs[0]) && all_maps_ascending(xs.drop_first())
    }
}

/// `maps_ascending` holds of every key and every value of `ps`.
pub open spec fn pairs_maps_ascending(ps: Seq<(SpecValue, SpecValue)>) -> bool
    decreases ps,
{
    if ps.len() == 0 {
        true
    } else {
        maps_ascending(ps[0].0) && maps_ascending(ps[0].1) && pairs_maps_ascending(
            ps.drop_first(),
        )
    }
}

/// `v` is a value of the shape `s` that a Rust value of that type can be: it has the shape,
/// and every ordered map in it has distinct keys in ascending order.
pub open spec fn conforms(v: SpecValue, s: Schema) -> bool {
    shaped(v, s) && maps_ascending(v)
}

/// What a reader that expects the shape `s` makes of `input` from `pos`: the value and the
/// position after it, or why it fails.
pub open spec fn decode(s: Schema, input: Seq<u8>, pos: int) -> Result<(SpecValue, int), ReadFailure>
    decreases s, 0int,
{
    match s {
        Schema::Bool => match bool_at(input, pos) {
            Ok((x, p)) => Ok((SpecValue::Bool(x), p)),
            Err(f) => Err(f),
        },
        Schema::U8 => match u8_at(input, pos) {
            Ok((x, p)) => Ok((SpecValue::U8(x), p)),
            Err(f) => Err(f),
        },
        Schema::U16 => match u16_at(input, pos) {
            Ok((x, p)) => Ok((SpecValue::U16(x), p)),
            Err(f) => Err(f),
        },
        Schema::U32 => match u32_at(input, pos) {
            Ok((x, p)) => Ok((SpecValue::U32(x), p)),
            Err(f) => Err(f),
        },
        Schema::U64 => match u64_at(input, pos) {
            Ok((x, p)) => Ok((SpecValue::U64(x), p)),
            Err(f) => Err(f),
        },
        Schema::I8 => match i8_at(input, pos) {
            Ok((x, p)) => Ok((SpecValue::I8(x), p)),
            Err(f) => Err(f),
        },
        Schema::I16 => match i16_at(input, pos) {
            Ok((x, p)) => Ok((SpecValue::I16(x), p)),
            Err(f) => Err(f),
        },
        Schema::I32 => match i32_at(input, pos) {
            Ok((x, p)) => Ok((SpecValue::I32(x), p)),
            Err(f) => Err(f),
        },
        Schema::I64 => match i64_at(input, pos) {
            Ok((x, p)) => Ok((SpecValue::I64(x), p)),
            Err(f) => Err(f),
        },
        Schema::F32 => match u32_at(input, pos) {
            Ok((x, p)) => Ok((SpecValue::F32Bits(x), p)),
            Err(f) => Err(f),
        },
        Schema::F64 => match u64_at(input, pos) {
            Ok((x, p)) => Ok((SpecValue::F64Bits(x), p)),
            Err(f) => Err(f),
        },
        Schema::Char => match char_at(input, pos) {
            Ok((x, p)) => Ok((SpecValue::Char(x), p)),
            Err(f) => Err(f),
        },
        Schema::Str => match text_at(input, pos) {
            Ok((x, p)) => Ok((SpecValue::Str(x), p)),
            Err(f) => Err(f),
        },
        Schema::Bytes => match byte_string_at(input, pos) {
            Ok((x, p)) => Ok((SpecValue::Bytes(x), p)),
            Err(f) => Err(f),
        },
        Schema::Unit => Ok((SpecValue::Unit, pos)),
        Schema::Optional(e) => match option_tag_at(input, pos) {
            Ok((present, p)) => if present {
                match decode(*e, input, p) {
                    Ok((x, q)) => Ok((SpecValue::Optional(Some(Box::new(x))), q)),
                    Err(f) => Err(f),
                }
            } else {
                Ok((SpecValue::Optional(None), p))
            },
            Err(f) => Err(f),
        },
        Schema::Sequence(e) => match len_at(input, pos) {
            Ok((n, p)) => match decode_many(*e, input, p, n as nat) {
                Ok((xs, q)) => Ok((SpecValue::Sequence(xs), q)),
                Err(f) => Err(f),
            },
            Err(f) => Err(f),
        },
        Schema::Tuple(fs) => match decode_each(fs@, input, pos) {
            Ok((xs, q)) => Ok((SpecValue::Tuple(xs), q)),
            Err(f) => Err(f),
        },
        Schema::Mapping(kv) => match len_at(input, pos) {
            Ok((n, p)) => match decode_pairs(*kv, input, p, n as nat) {
                Ok((ps, q)) => Ok((SpecValue::Mapping(ps), q)),
                Err(f) => Err(f),
            },
            Err(f) => Err(f),
        },
        Schema::Enum(vs) => match u64_at(input, pos) {
            Ok((i, p)) => if i < vs@.len() && i <= u32::MAX {
                match decode(vs@[i as int], input, p) {
                    Ok((x, q)) => Ok((SpecValue::Variant(i as u32, Box::new(x)), q)),
                    Err(f) => Err(f),
                }
            } else {
                Err(ReadFailure::UnknownVariant(i, vs@.len()))
            },
            Err(f) => Err(f),
        },
        Schema::OrderedMapping(kv) => match u32_at(input, pos) {
            Ok((m, p)) => if m == ASCENDING_MAP_MARKER {
                match len_at(input, p) {
                    Ok((n, p2)) => match decode_pairs(*kv, input, p2, n as nat) {
                        Ok((ps, q)) => Ok((SpecValue::OrderedMapping(ps), q)),
                        Err(f) => Err(f),
                    },
                    Err(f) => Err(f),
                }
            } else {
                Err(ReadFailure::BadMarker(m))
            },
            Err(f) => Err(f),
        },
    }
}

/// Reading `n` values of the shape `e`, one after another.
pub open spec fn decode_many(e: Schema, input: Seq<u8>, pos: int, n: nat) -> Result<
    (Seq<SpecValue>, int),
    ReadFailure,
>
    decreases e, n,
{
    if n == 0 {
        Ok((Seq::empty(), pos))
    } else {
        match decode(e, input, pos) {
            Ok((x, p)) => match decode_many(e, input, p, (n - 1) as nat) {
                Ok((xs, q)) => Ok((seq![x] + xs, q)),
                Err(f) => Err(f),
            },
            Err(f) => Err(f),
        }
    }
}

/// Reading one value of each of the shapes `fs`, in order.
pub open spec fn decode_each(fs: Seq<Schema>, input: Seq<u8>, pos: int) -> Result<
    (Seq<SpecValue>, int),
    ReadFailure,
>
    decreases fs, 0int,
{
    if fs.len() == 0 {
        Ok((Seq::empty(), pos))
    } else {
        match decode(fs[0], input, pos) {
            Ok((x, p)) => match decode_each(fs.drop_first(), input, p) {
                Ok((xs, q)) => Ok((seq![x] + xs, q)),
                Err(f) => Err(f),
            },
            Err(f) => Err(f),
        }
    }
}

/// Reading `n` key-value pairs of the shapes `kv`, one after another.
pub open spec fn decode_pairs(kv: (Schema, Schema), input: Seq<u8>, pos: int, n: nat) -> Result<
    (Seq<(SpecValue, SpecValue)>, int),
    ReadFailure,
>
    decreases kv, n,
{
    if n == 0 {
        Ok((Seq::empty(), pos))
    } else {
        match decode(kv.0, input, pos) {
            Ok((k, p)) => match decode(kv.1, input, p) {
                Ok((v, p2)) => match decode_pairs(kv, input, p2, (n - 1) as nat) {
                    Ok((ps, q)) => Ok((seq![(k, v)] + ps, q)),
                    Err(f) => Err(f),
                },
                Err(f) => Err(f),
            },
            Err(f) => Err(f),
        }
    }
}

/// A value's model has as many elements as the value.
proof fn lemma_values_view_len(xs: Seq<Value>)
    ensures
        values_view(xs).len() == xs.len(),
    decreases xs.len(),
{
    if xs.len() > 0 {
        lemma_values_view_len(xs.drop_first());
    }
}

/// The model of a sequence with one more value at its end.
proof fn lemma_values_view_push(xs: Seq<Value>, x: Value)
    ensures
        values_view(xs.push(x)) == values_view(xs).push(value_view(x)),
    decreases xs.len(),
{
    if xs.len() == 0 {
        assert(xs.push(x).drop_first() == xs);
    } else {
        assert(xs.push(x).drop_first() == xs.drop_first().push(x));
        lemma_values_view_push(xs.drop_first(), x);
    }
}

/// The pairs' model has as many pairs as there are pairs.
proof fn lemma_pairs_view_len(ps: Seq<(Value, Value)>)
    ensures
        pairs_view(ps).len() == ps.len(),
    decreases ps.len(),
{
    if ps.len() > 0 {
        lemma_pairs_view_len(ps.drop_first());
    }
}

/// The model of pairs with one more pair at their end.
proof fn lemma_pairs_view_push(ps: Seq<(Value, Value)>, p: (Value, Value))
    ensures
        pairs_view(ps.push(p)) == pairs_view(ps).push((value_view(p.0), value_view(p.1))),
    decreases ps.len(),
{
    if ps.len() == 0 {
        assert(ps.push(p).drop_first() == ps);
    } else {
        assert(ps.push(p).drop_first() == ps.drop_first().push(p));
        lemma_pairs_view_push(ps.drop_first(), p);
    }
}

/// Writing one more value after a sequence of values.
proof fn lemma_encode_all_push(xs: Seq<SpecValue>, x: SpecValue)
    ensures
        encode_all(xs.push(x)) == encode_all(xs) + encode(x),
    decreases xs.len(),
{
    if xs.len() == 0 {
        assert(xs.push(x).drop_first() == xs);
    } else {
        assert(xs.push(x).drop_first() == xs.drop_first().push(x));
        lemma_encode_all_push(xs.drop_first(), x);
    }
}

/// Writing one more pair after a sequence of pairs.
proof fn lemma_encode_pairs_push(ps: Seq<(SpecValue, SpecValue)>, p: (SpecValue, SpecValue))
    ensures
        encode_pairs(ps.push(p)) == encode_pairs(ps) + encode(p.0) + encode(p.1),
    decreases ps.len(),
{
    if ps.len() == 0 {
        assert(ps.push(p).drop_first() == ps);
    } else {
        assert(ps.push(p).drop_first() == ps.drop_first().push(p));
        lemma_encode_pairs_push(ps.drop_first(), p);
    }
}

/// Writes the values `xs` one after another.
fn encode_values(ser: &mut StoreSerializer, xs: &Vec<Value>) -> (r: Result<(), StoreError>)
    ensures
        r is Ok,
        final(ser)@ == old(ser)@ + encode_all(values_view(xs@)),
    decreases xs, 0int,
{
    let ghost start = ser@;
    let mut i: usize = 0;
    while i < xs.len()
        invariant
            i <= xs@.len(),
            ser@ == start + encode_all(values_view(xs@.take(i as int))),
        decreases xs@.len() - i,
    {
        let ghost before = ser@;
        encode_into(ser, &xs[i])?;
        proof {
            assert(xs@.take(i + 1) == xs@.take(i as int).push(xs@[i as int]));
            lemma_values_view_push(xs@.take(i as int), xs@[i as int]);
            lemma_encode_all_push(values_view(xs@.take(i as int)), value_view(xs@[i as int]));
        }
        i = i + 1;
    }
    assert(xs@.take(xs@.len() as int) == xs@);
    Ok(())
}

/// Writes the pairs `ps` one after another, each key before its value.
fn encode_entries(ser: &mut StoreSerializer, ps: &Vec<(Value, Value)>) -> (r: Result<(), StoreError>)
    ensures
        r is Ok,
        final(ser)@ == old(ser)@ + encode_pairs(pairs_view(ps@)),
    decreases ps, 0int,
{
    let ghost start = ser@;
    let mut i: usize = 0;
    while i < ps.len()
        invariant
            i <= ps@.len(),
            ser@ == start + encode_pairs(pairs_view(ps@.take(i as int))),
        decreases ps@.len() - i,
    {
        let (k, v) = &ps[i];
        encode_into(ser, k)?;
        encode_into(ser, v)?;
        proof {
            assert(ps@.take(i + 1) == ps@.take(i as int).push(ps@[i as int]));
            lemma_pairs_view_push(ps@.take(i as int), ps@[i as int]);
            lemma_encode_pairs_push(
                pairs_view(ps@.take(i as int)),
                (value_view(ps@[i as int].0), value_view(ps@[i as int].1)),
            );
        }
        i = i + 1;
    }
    assert(ps@.take(ps@.len() as int) == ps@);
    Ok(())
}

/// Writes the value `v` after what `ser` already holds: the bytes of `v` are appended and
/// nothing before them changes, so values written one after another give their encodings
/// one after another.
pub fn encode_into(ser: &mut StoreSerializer, v: &Value) -> (r: Result<(), StoreError>)
    ensures
        r is Ok,
        final(ser)@ == old(ser)@ + encode(v@),
    decreases v, 1int,
{
    match v {
        Value::Bool(b) => ser.serialize_bool(*b),
        Value::U8(x) => ser.write_u8(*x),
        Value::U16(x) => ser.write_u16(*x),
        Value::U32(x) => ser.write_u32(*x),
        Value::U64(x) => ser.write_u64(*x),
        Value::I8(x) => ser.write_i8(*x),
        Value::I16(x) => ser.write_i16(*x),
        Value::I32(x) => ser.write_i32(*x),
        Value::I64(x) => ser.write_i64(*x),
        Value::F32Bits(x) => ser.write_u32(*x),
        Value::F64Bits(x) => ser.write_u64(*x),
        Value::Char(c) => ser.serialize_char(*c),
        Value::Str(t) => ser.write_text(t.as_str()),
        Value::Bytes(b) => ser.write_bytes(b.as_slice()),
        Value::Unit => Ok(()),
        Value::Optional(o) => match o {
            None => ser.serialize_none(),
            Some(b) => {
                ser.serialize_some()?;
                encode_into(ser, b)
            },
        },
        Value::Sequence(xs) => {
            proof {
                lemma_values_view_len(xs@);
            }
            ser.write_len(xs.len())?;
            encode_values(ser, xs)
        },
        Value::Tuple(xs) => encode_values(ser, xs),
        Value::Mapping(ps) => {
            proof {
                lemma_pairs_view_len(ps@);
            }
            ser.write_len(ps.len())?;
            encode_entries(ser, ps)
        },
        Value::Variant(i, b) => {
            ser.serialize_variant_index(*i)?;
            encode_into(ser, b)
        },
        Value::OrderedMapping(ps) => {
            proof {
                lemma_pairs_view_len(ps@);
            }
            ser.write_u32(ASCENDING_MAP_MARKER)?;
            ser.write_len(ps.len())?;
            encode_entries(ser, ps)
        },
    }
}

/// Serializes a value into the binary format of the Haskell `store` library.
pub fn to_bytes(value: &Value) -> (r: Result<Vec<u8>, StoreError>)
    ensures
        r matches Ok(b) && b@ == encode(value@),
{
    let mut ser = StoreSerializer::new();
    encode_into(&mut ser, value)?;
    Ok(ser.into_inner())
}

/// Reads `n` values of the shape `e`, one after another.
fn decode_values(de: &mut StoreDeserializer, e: &Schema, n: usize) -> (r: Result<
    Vec<Value>,
    StoreError,
>)
    ensures
        final(de).input() == old(de).input(),
        match decode_many(*e, old(de).input(), old(de).pos(), n as nat) {
            Ok((xs, p)) => r matches Ok(v) && values_view(v@) == xs && final(de).pos() == p,
            Err(f) => r matches Err(err) && reports(err, f),
        },
    decreases e, 1int,
{
    let ghost input = de.input();
    let ghost p0 = de.pos();
    let mut out: Vec<Value> = Vec::new();
    let mut i: usize = 0;
    assert(values_view(out@) + Seq::<SpecValue>::empty() =~= Seq::<SpecValue>::empty());
    while i < n
        invariant
            i <= n,
            de.input() == input,
            input == old(de).input(),
            p0 == old(de).pos(),
            decode_many(*e, input, p0, n as nat) == match decode_many(
                *e,
                input,
                de.pos(),
                (n - i) as nat,
            ) {
                Ok((rest, q)) => Ok((values_view(out@) + rest, q)),
                Err(f) => Err(f),
            },
        decreases n - i,
    {
        let ghost before = out@;
        let x = decode_into(de, e)?;
        out.push(x);
        proof {
            lemma_values_view_push(before, x);
            let vb = values_view(before);
            let xv = value_view(x);
            assert forall|rest: Seq<SpecValue>| #[trigger] (vb + (seq![xv] + rest)) == vb.push(xv) + rest by {
                assert(vb + (seq![xv] + rest) =~= vb.push(xv) + rest);
            }
        }
        i = i + 1;
    }
    assert(values_view(out@) + Seq::<SpecValue>::empty() =~= values_view(out@));
    Ok(out)
}

/// Reads one value of each of the shapes `fs`, in order.
fn decode_fields(de: &mut StoreDeserializer, fs: &Vec<Schema>) -> (r: Result<
    Vec<Value>,
    StoreError,
>)
    ensures
        final(de).input() == old(de).input(),
        match decode_each(fs@, old(de).input(), old(de).pos()) {
            Ok((xs, p)) => r matches Ok(v) && values_view(v@) == xs && final(de).pos() == p,
            Err(f) => r matches Err(err) && reports(err, f),
        },
    decreases fs, 1int,
{
    let ghost input = de.input();
    let ghost p0 = de.pos();
    let mut out: Vec<Value> = Vec::new();
    let mut i: usize = 0;
    assert(fs@.skip(0) == fs@);
    assert(values_view(out@) + Seq::<SpecValue>::empty() =~= Seq::<SpecValue>::empty());
    while i < fs.len()
        invariant
            i <= fs@.len(),
            de.input() == input,
            input == old(de).input(),
            p0 == old(de).pos(),
            decode_each(fs@, input, p0) == match decode_each(fs@.skip(i as int), input, de.pos()) {
                Ok((rest, q)) => Ok((values_view(out@) + rest, q)),
                Err(f) => Err(f),
            },
        decreases fs@.len() - i,
    {
        let ghost before = out@;
        assert(fs@.skip(i as int)[0] == fs@[i as int]);
        assert(fs@.skip(i as int).drop_first() == fs@.skip(i + 1));
        let x = decode_into(de, &fs[i])?;
        out.push(x);
        proof {
            lemma_values_view_push(before, x);
            let vb = values_view(before);
            let xv = value_view(x);
            assert forall|rest: Seq<SpecValue>| #[trigger] (vb + (seq![xv] + rest)) == vb.push(xv) + rest by {
                assert(vb + (seq![xv] + rest) =~= vb.push(xv) + rest);
            }
        }
        i = i + 1;
    }
    assert(fs@.skip(fs@.len() as int) == Seq::<Schema>::empty());
    assert(values_view(out@) + Seq::<SpecValue>::empty() =~= values_view(out@));
    Ok(out)
}

/// Reads `n` key-value pairs of the shapes `kv`, one after another.
fn decode_entries(de: &mut StoreDeserializer, kv: &(Schema, Schema), n: usize) -> (r: Result<
    Vec<(Value, Value)>,
    StoreError,
>)
    ensures
        final(de).input() == old(de).input(),
        match decode_pairs(*kv, old(de).input(), old(de).pos(), n as nat) {
            Ok((ps, p)) => r matches Ok(v) && pairs_view(v@) == ps && final(de).pos() == p,
            Err(f) => r matches Err(err) && reports(err, f),
        },
    decreases kv, 1int,
{
    let ghost input = de.input();
    let ghost p0 = de.pos();
    let mut out: Vec<(Value, Value)> = Vec::new();
    let mut i: usize = 0;
    assert(pairs_view(out@) + Seq::<(SpecValue, SpecValue)>::empty() =~= Seq::<
        (SpecValue, SpecValue),
    >::empty());
    while i < n
        invariant
            i <= n,
            de.input() == input,
            input == old(de).input(),
            p0 == old(de).pos(),
            decode_pairs(*kv, input, p0, n as nat) == match decode_pairs(
                *kv,
                input,
                de.pos(),
                (n - i) as nat,
            ) {
                Ok((rest, q)) => Ok((pairs_view(out@) + rest, q)),
                Err(f) => Err(f),
            },
        decreases n - i,
    {
        let ghost before = out@;
        let k = decode_into(de, &kv.0)?;
        let v = decode_into(de, &kv.1)?;
        let ghost pair = (k, v);
        out.push((k, v));
        proof {
            lemma_pairs_view_push(before, pair);
            let vb = pairs_view(before);
            let xv = (value_view(pair.0), value_view(pair.1));
            assert forall|rest: Seq<(SpecValue, SpecValue)>| #[trigger] (vb + (seq![xv] + rest))
                == vb.push(xv) + rest by {
                assert(vb + (seq![xv] + rest) =~= vb.push(xv) + rest);
            }
        }
        i = i + 1;
    }
    assert(pairs_view(out@) + Seq::<(SpecValue, SpecValue)>::empty() =~= pairs_view(out@));
    Ok(out)
}

/// The error for a variant index `i` out of the range of `n` variants.
fn unknown_variant(i: u64, n: usize) -> (e: StoreError)
    ensures
        reports(e, ReadFailure::UnknownVariant(i, n as nat)),
{
    let mut m = String::from_str("invalid value: integer `");
    append_decimal(&mut m, i);
    m.append("`, expected variant index 0 <= i < ");
    append_decimal(&mut m, n as u64);
    StoreError::Serde(m)
}

/// Reads a value of the shape `s` from where `de` stands: the value that the bytes from the
/// reader's current position give, and the reader moves to the end of them; or the error
/// that reports why they give none.
pub fn decode_into(de: &mut StoreDeserializer, s: &Schema) -> (r: Result<Value, StoreError>)
    ensures
        final(de).input() == old(de).input(),
        match decode(*s, old(de).input(), old(de).pos()) {
            Ok((v, p)) => r matches Ok(x) && x@ == v && final(de).pos() == p,
            Err(f) => r matches Err(err) && reports(err, f),
        },
    decreases s, 0int,
{
    match s {
        Schema::Bool => Ok(Value::Bool(de.deserialize_bool()?)),
        Schema::U8 => Ok(Value::U8(de.read_u8()?)),
        Schema::U16 => Ok(Value::U16(de.read_u16()?)),
        Schema::U32 => Ok(Value::U32(de.read_u32()?)),
        Schema::U64 => Ok(Value::U64(de.read_u64()?)),
        Schema::I8 => Ok(Value::I8(de.read_i8()?)),
        Schema::I16 => Ok(Value::I16(de.read_i16()?)),
        Schema::I32 => Ok(Value::I32(de.read_i32()?)),
        Schema::I64 => Ok(Value::I64(de.read_i64()?)),
        Schema::F32 => Ok(Value::F32Bits(de.read_u32()?)),
        Schema::F64 => Ok(Value::F64Bits(de.read_u64()?)),
        Schema::Char => Ok(Value::Char(de.deserialize_char()?)),
        Schema::Str => Ok(Value::Str(de.read_text()?)),
        Schema::Bytes => Ok(Value::Bytes(de.read_bytes()?)),
        Schema::Unit => Ok(Value::Unit),
        Schema::Optional(e) => {
            if de.deserialize_option()? {
                let x = decode_into(de, e)?;
                Ok(Value::Optional(Some(Box::new(x))))
            } else {
                Ok(Value::Optional(None))
            }
        },
        Schema::Sequence(e) => {
            let n = de.read_len()?;
            let xs = decode_values(de, e, n)?;
            Ok(Value::Sequence(xs))
        },
        Schema::Tuple(fs) => {
            let xs = decode_fields(de, fs)?;
            Ok(Value::Tuple(xs))
        },
        Schema::Mapping(kv) => {
            let n = de.read_len()?;
            let ps = decode_entries(de, kv, n)?;
            Ok(Value::Mapping(ps))
        },
        Schema::Enum(vs) => {
            let i = de.read_u64()?;
            if i < vs.len() as u64 && i <= u32::MAX as u64 {
                let x = decode_into(de, &vs[i as usize])?;
                Ok(Value::Variant(i as u32, Box::new(x)))
            } else {
                Err(unknown_variant(i, vs.len()))
            }
        },
        Schema::OrderedMapping(kv) => {
            let m = de.read_u32()?;
            match check_ascending_marker(Some(m)) {
                Ok(()) => {
                    let n = de.read_len()?;
                    let ps = decode_entries(de, kv, n)?;
                    Ok(Value::OrderedMapping(ps))
                },
                Err(msg) => Err(StoreError::Serde(msg)),
            }
        },
    }
}

/// Deserializes a value of the shape `schema` from binary data in the format of the
/// Haskell `store` library. Bytes after the value are not read.
pub fn from_bytes(bytes: &[u8], schema: &Schema) -> (r: Result<Value, StoreError>)
    ensures
        match decode(*schema, bytes@, 0) {
            Ok((v, _)) => r matches Ok(x) && x@ == v,
            Err(f) => r matches Err(e) && reports(e, f),
        },
{
    let mut de = StoreDeserializer::new(bytes);
    decode_into(&mut de, schema)
}

/// `bytes` occur in `input` at `pos`.
pub open spec fn occurs_at(input: Seq<u8>, pos: int, bytes: Seq<u8>) -> bool {
    0 <= pos && pos + bytes.len() <= input.len() && input.subrange(pos, pos + bytes.len()) == bytes
}

/// Where `a + b` occurs, `a` occurs, and `b` right after it.
proof fn lemma_occurs_split(input: Seq<u8>, pos: int, a: Seq<u8>, b: Seq<u8>)
    requires
        occurs_at(input, pos, a + b),
    ensures
        occurs_at(input, pos, a),
        occurs_at(input, pos + a.len(), b),
{
    let ab = input.subrange(pos, pos + (a + b).len());
    assert forall|i: int| 0 <= i < a.len() implies input.subrange(pos, pos + a.len())[i] == a[i] by {
        assert(ab[i] == (a + b)[i]);
    }
    assert(input.subrange(pos, pos + a.len()) =~= a);
    assert forall|i: int| 0 <= i < b.len() implies input.subrange(pos + a.len(), pos + a.len()
        + b.len())[i] == b[i] by {
        assert(ab[a.len() + i] == (a + b)[a.len() + i]);
    }
    assert(input.subrange(pos + a.len(), pos + a.len() + b.len()) =~= b);
}

/// Where a value's bytes occur, a reader that expects its shape reads it back and stops
/// right after those bytes.
#[verifier::rlimit(40)]
proof fn lemma_decode_encode(v: SpecValue, s: Schema, input: Seq<u8>, pos: int)
    requires
        shaped(v, s),
        occurs_at(input, pos, encode(v)),
    ensures
        decode(s, input, pos) == Ok::<(SpecValue, int), ReadFailure>((v, pos + encode(v).len())),
    decreases v,
{
    broadcast use vstd::utf8::encode_utf8_valid_utf8, vstd::utf8::encode_utf8_decode_utf8;

    match (v, s) {
        (SpecValue::I8(x), Schema::I8) => {
            assert((x as u8) as i8 == x) by (bit_vector);
        },
        (SpecValue::U16(x), Schema::U16) => {
            lemma_u16_roundtrip(x);
        },
        (SpecValue::I16(x), Schema::I16) => {
            lemma_u16_roundtrip(x as u16);
            assert((x as u16) as i16 == x) by (bit_vector);
        },
        (SpecValue::U32(x), Schema::U32) => {
            lemma_u32_roundtrip(x);
        },
        (SpecValue::I32(x), Schema::I32) => {
            lemma_u32_roundtrip(x as u32);
            assert((x as u32) as i32 == x) by (bit_vector);
        },
        (SpecValue::F32Bits(x), Schema::F32) => {
            lemma_u32_roundtrip(x);
        },
        (SpecValue::U64(x), Schema::U64) => {
            lemma_u64_roundtrip(x);
        },
        (SpecValue::I64(x), Schema::I64) => {
            lemma_u64_roundtrip(x as u64);
            assert((x as u64) as i64 == x) by (bit_vector);
        },
        (SpecValue::F64Bits(x), Schema::F64) => {
            lemma_u64_roundtrip(x);
        },
        (SpecValue::Char(c), Schema::Char) => {
            let t = seq![c];
            assert(t.drop_first() =~= Seq::<char>::empty());
            assert(vstd::utf8::encode_utf8(t.drop_first()).len() == 0);
            assert(vstd::utf8::encode_utf8(t) == vstd::utf8::encode_scalar(t[0] as u32)
                + vstd::utf8::encode_utf8(t.drop_first()));
            assert(vstd::utf8::encode_scalar(t[0] as u32).len() <= 4);
            lemma_text_roundtrip(seq![c], input, pos);
        },
        (SpecValue::Str(t), Schema::Str) => {
            lemma_text_roundtrip(t, input, pos);
        },
        (SpecValue::Bytes(b), Schema::Bytes) => {
            lemma_byte_string_roundtrip(b, input, pos);
        },
        (SpecValue::Optional(o), Schema::Optional(e)) => {
            match o {
                None => {},
                Some(b) => {
                    lemma_occurs_split(input, pos, seq![1u8], encode(*b));
                    lemma_decode_encode(*b, *e, input, pos + 1);
                },
            }
        },
        (SpecValue::Sequence(xs), Schema::Sequence(e)) => {
            lemma_occurs_split(input, pos, len_bytes(xs.len()), encode_all(xs));
            lemma_u64_roundtrip(xs.len() as u64);
            lemma_decode_encode_all(xs, *e, input, pos + 8);
        },
        (SpecValue::Tuple(xs), Schema::Tuple(fs)) => {
            lemma_decode_encode_each(xs, fs@, input, pos);
        },
        (SpecValue::Mapping(ps), Schema::Mapping(kv)) => {
            lemma_occurs_split(input, pos, len_bytes(ps.len()), encode_pairs(ps));
            lemma_u64_roundtrip(ps.len() as u64);
            lemma_decode_encode_pairs(ps, *kv, input, pos + 8);
        },
        (SpecValue::Variant(i, b), Schema::Enum(vs)) => {
            lemma_occurs_split(input, pos, le_u64(i as u64), encode(*b));
            lemma_u64_roundtrip(i as u64);
            lemma_decode_encode(*b, vs@[i as int], input, pos + 8);
        },
        (SpecValue::OrderedMapping(ps), Schema::OrderedMapping(kv)) => {
            lemma_occurs_split(
                input,
                pos,
                le_u32(ASCENDING_MAP_MARKER) + len_bytes(ps.len()),
                encode_pairs(ps),
            );
            lemma_occurs_split(input, pos, le_u32(ASCENDING_MAP_MARKER), len_bytes(ps.len()));
            lemma_u32_roundtrip(ASCENDING_MAP_MARKER);
            lemma_u64_roundtrip(ps.len() as u64);
            lemma_decode_encode_pairs(ps, *kv, input, pos + 12);
        },
        _ => {},
    }
}

/// Where a byte string's bytes occur, reading a byte string gives it back.
proof fn lemma_byte_string_roundtrip(b: Seq<u8>, input: Seq<u8>, pos: int)
    requires
        b.len() <= usize::MAX,
        occurs_at(input, pos, byte_string_bytes(b)),
    ensures
        byte_string_at(input, pos) == Ok::<(Seq<u8>, int), ReadFailure>(
            (b, pos + byte_string_bytes(b).len()),
        ),
{
    lemma_occurs_split(input, pos, len_bytes(b.len()), b);
    lemma_u64_roundtrip(b.len() as u64);
}

/// Where a text's bytes occur, reading a text gives it back.
proof fn lemma_text_roundtrip(t: Seq<char>, input: Seq<u8>, pos: int)
    requires
        vstd::utf8::encode_utf8(t).len() <= usize::MAX,
        occurs_at(input, pos, text_bytes(t)),
    ensures
        text_at(input, pos) == Ok::<(Seq<char>, int), ReadFailure>((t, pos + text_bytes(t).len())),
{
    broadcast use vstd::utf8::encode_utf8_valid_utf8, vstd::utf8::encode_utf8_decode_utf8;

    lemma_byte_string_roundtrip(vstd::utf8::encode_utf8(t), input, pos);
}

/// Where the bytes of values written one after another occur, reading that many values
/// of their shape gives them back.
proof fn lemma_decode_encode_all(xs: Seq<SpecValue>, e: Schema, input: Seq<u8>, pos: int)
    requires
        shaped_all(xs, e),
        occurs_at(input, pos, encode_all(xs)),
    ensures
        decode_many(e, input, pos, xs.len()) == Ok::<(Seq<SpecValue>, int), ReadFailure>(
            (xs, pos + encode_all(xs).len()),
        ),
    decreases xs,
{
    if xs.len() > 0 {
        lemma_occurs_split(input, pos, encode(xs[0]), encode_all(xs.drop_first()));
        lemma_decode_encode(xs[0], e, input, pos);
        lemma_decode_encode_all(xs.drop_first(), e, input, pos + encode(xs[0]).len());
        assert(seq![xs[0]] + xs.drop_first() =~= xs);
    } else {
        assert(xs =~= Seq::<SpecValue>::empty());
    }
}

/// Where the bytes of the fields of a product occur, reading one value of each of their
/// shapes gives them back.
proof fn lemma_decode_encode_each(xs: Seq<SpecValue>, fs: Seq<Schema>, input: Seq<u8>, pos: int)
    requires
        shaped_each(xs, fs),
        occurs_at(input, pos, encode_all(xs)),
    ensures
        decode_each(fs, input, pos) == Ok::<(Seq<SpecValue>, int), ReadFailure>(
            (xs, pos + encode_all(xs).len()),
        ),
    decreases xs,
{
    if xs.len() > 0 {
        lemma_occurs_split(input, pos, encode(xs[0]), encode_all(xs.drop_first()));
        lemma_decode_encode(xs[0], fs[0], input, pos);
        lemma_decode_encode_each(xs.drop_first(), fs.drop_first(), input, pos + encode(xs[0]).len());
        assert(seq![xs[0]] + xs.drop_first() =~= xs);
    } else {
        assert(xs =~= Seq::<SpecValue>::empty());
    }
}

/// Where the bytes of key-value pairs occur, reading that many pairs of their shapes gives
/// them back.
proof fn lemma_decode_encode_pairs(
    ps: Seq<(SpecValue, SpecValue)>,
    kv: (Schema, Schema),
    input: Seq<u8>,
    pos: int,
)
    requires
        shaped_pairs(ps, kv),
        occurs_at(input, pos, encode_pairs(ps)),
    ensures
        decode_pairs(kv, input, pos, ps.len()) == Ok::<(Seq<(SpecValue, SpecValue)>, int), ReadFailure>(
            (ps, pos + encode_pairs(ps).len()),
        ),
    decreases ps,
{
    if ps.len() > 0 {
        lemma_occurs_split(
            input,
            pos,
            encode(ps[0].0) + encode(ps[0].1),
            encode_pairs(ps.drop_first()),
        );
        lemma_occurs_split(input, pos, encode(ps[0].0), encode(ps[0].1));
        lemma_decode_encode(ps[0].0, kv.0, input, pos);
        lemma_decode_encode(ps[0].1, kv.1, input, pos + encode(ps[0].0).len());
        lemma_decode_encode_pairs(
            ps.drop_first(),
            kv,
            input,
            pos + encode(ps[0].0).len() + encode(ps[0].1).len(),
        );
        assert(seq![ps[0]] + ps.drop_first() =~= ps);
    } else {
        assert(ps =~= Seq::<(SpecValue, SpecValue)>::empty());
    }
}

/// Round trip: reading, with the shape of a value, the bytes that writing the value gave
/// — whatever stands before and after them — yields the value again and stops right
/// after those bytes.
pub proof fn law_roundtrip(v: SpecValue, s: Schema, before: Seq<u8>, after: Seq<u8>)
    requires
        conforms(v, s),
    ensures
        decode(s, before + encode(v) + after, before.len() as int) == Ok::<(SpecValue, int), ReadFailure>(
            (v, before.len() + encode(v).len() as int),
        ),
{
    let input = before + encode(v) + after;
    assert(input.subrange(before.len() as int, before.len() + encode(v).len() as int) =~= encode(v));
    lemma_decode_encode(v, s, input, before.len() as int);
}

/// Whatever a reader of the shape `s` accepts is a value of that shape, and the reader
/// stops within the input, at or after where it started.
proof fn lemma_decode_sound(s: Schema, input: Seq<u8>, pos: int)
    requires
        0 <= pos <= input.len(),
    ensures
        decode(s, input, pos) matches Ok((v, p)) ==> shaped(v, s) && pos <= p <= input.len(),
    decreases s, 0int,
{
    broadcast use vstd::utf8::decode_utf8_encode_utf8;

    match s {
        Schema::Optional(e) => {
            if let Ok((present, p)) = option_tag_at(input, pos) {
                if present {
                    lemma_decode_sound(*e, input, p);
                }
            }
        },
        Schema::Sequence(e) => {
            if let Ok((n, p)) = len_at(input, pos) {
                lemma_decode_many_sound(*e, input, p, n as nat);
            }
        },
        Schema::Tuple(fs) => {
            lemma_decode_each_sound(fs@, input, pos);
        },
        Schema::Mapping(kv) => {
            if let Ok((n, p)) = len_at(input, pos) {
                lemma_decode_pairs_sound(*kv, input, p, n as nat);
            }
        },
        Schema::Enum(vs) => {
            if let Ok((i, p)) = u64_at(input, pos) {
                if i < vs@.len() && i <= u32::MAX {
                    lemma_decode_sound(vs@[i as int], input, p);
                }
            }
        },
        Schema::OrderedMapping(kv) => {
            if let Ok((m, p)) = u32_at(input, pos) {
                if let Ok((n, p2)) = len_at(input, p) {
                    lemma_decode_pairs_sound(*kv, input, p2, n as nat);
                }
            }
        },
        _ => {},
    }
}

/// Reading `n` values of one shape gives `n` values of that shape, within the input.
proof fn lemma_decode_many_sound(e: Schema, input: Seq<u8>, pos: int, n: nat)
    requires
        0 <= pos <= input.len(),
    ensures
        decode_many(e, input, pos, n) matches Ok((xs, p)) ==> xs.len() == n && shaped_all(xs, e)
            && pos <= p <= input.len(),
    decreases e, n,
{
    if n > 0 {
        lemma_decode_sound(e, input, pos);
        if let Ok((x, p)) = decode(e, input, pos) {
            lemma_decode_many_sound(e, input, p, (n - 1) as nat);
            if let Ok((xs, q)) = decode_many(e, input, p, (n - 1) as nat) {
                assert((seq![x] + xs).drop_first() =~= xs);
            }
        }
    }
}

/// Reading one value of each of the shapes `fs` gives values of those shapes, within the input.
proof fn lemma_decode_each_sound(fs: Seq<Schema>, input: Seq<u8>, pos: int)
    requires
        0 <= pos <= input.len(),
    ensures
        decode_each(fs, input, pos) matches Ok((xs, p)) ==> shaped_each(xs, fs) && pos <= p
            <= input.len(),
    decreases fs, 0int,
{
    if fs.len() > 0 {
        lemma_decode_sound(fs[0], input, pos);
        if let Ok((x, p)) = decode(fs[0], input, pos) {
            lemma_decode_each_sound(fs.drop_first(), input, p);
            if let Ok((xs, q)) = decode_each(fs.drop_first(), input, p) {
                assert((seq![x] + xs).drop_first() =~= xs);
            }
        }
    }
}

/// Reading `n` key-value pairs gives `n` pairs of the shapes `kv`, within the input.
proof fn lemma_decode_pairs_sound(kv: (Schema, Schema), input: Seq<u8>, pos: int, n: nat)
    requires
        0 <= pos <= input.len(),
    ensures
        decode_pairs(kv, input, pos, n) matches Ok((ps, p)) ==> ps.len() == n && shaped_pairs(
            ps,
            kv,
        ) && pos <= p <= input.len(),
    decreases kv, n,
{
    if n > 0 {
        lemma_decode_sound(kv.0, input, pos);
        if let Ok((k, p)) = decode(kv.0, input, pos) {
            lemma_decode_sound(kv.1, input, p);
            if let Ok((v, p2)) = decode(kv.1, input, p) {
                lemma_decode_pairs_sound(kv, input, p2, (n - 1) as nat);
                if let Ok((ps, q)) = decode_pairs(kv, input, p2, (n - 1) as nat) {
                    assert((seq![(k, v)] + ps).drop_first() =~= ps);
                }
            }
        }
    }
}

/// Soundness of reading: whatever a reader that expects the shape `s` accepts is a value of
/// that shape (every length in it fits in `usize`), and the reader stops within the input,
/// at or after the position where it started. The reader does not check that an ordered
/// map's keys ascend: it gives the entries in the order in which they were written.
pub proof fn law_decoded_values_have_shape(s: Schema, input: Seq<u8>, pos: int)
    requires
        0 <= pos <= input.len(),
    ensures
        decode(s, input, pos) matches Ok((v, p)) ==> shaped(v, s) && pos <= p <= input.len(),
{
    lemma_decode_sound(s, input, pos);
}

/// Binary stability: writing again the value that was read back from a value's bytes gives
/// the same bytes.
pub proof fn law_stable_reencoding(v: SpecValue, s: Schema, after: Seq<u8>)
    requires
        conforms(v, s),
    ensures
        decode(s, encode(v) + after, 0) matches Ok((w, p)) && encode(w) == encode(v) && p
            == encode(v).len(),
{
    law_roundtrip(v, s, Seq::empty(), after);
    assert(Seq::<u8>::empty() + encode(v) + after =~= encode(v) + after);
}

/// `a` and `b` hold the same first `p` bytes.
pub open spec fn agree_up_to(a: Seq<u8>, b: Seq<u8>, p: int) -> bool {
    0 <= p <= a.len() && p <= b.len() && a.subrange(0, p) == b.subrange(0, p)
}

/// Inputs that agree up to `p` agree up to any earlier position.
proof fn lemma_agree_shorter(a: Seq<u8>, b: Seq<u8>, p: int, q: int)
    requires
        agree_up_to(a, b, p),
        0 <= q <= p,
    ensures
        agree_up_to(a, b, q),
{
    assert forall|i: int| 0 <= i < q implies a.subrange(0, q)[i] == b.subrange(0, q)[i] by {
        assert(a.subrange(0, p)[i] == b.subrange(0, p)[i]);
    }
    assert(a.subrange(0, q) =~= b.subrange(0, q));
}

/// Inputs that agree up to `p` hold the same bytes in any range that ends by `p`.
proof fn lemma_agree_fixed(a: Seq<u8>, b: Seq<u8>, p: int, pos: int, n: int)
    requires
        agree_up_to(a, b, p),
        0 <= pos,
        0 <= n,
        pos + n <= p,
    ensures
        fixed_at(a, pos, n) == fixed_at(b, pos, n),
{
    assert forall|i: int| 0 <= i < n implies #[trigger] a.subrange(pos, pos + n)[i] == b.subrange(
        pos,
        pos + n,
    )[i] by {
        assert(a.subrange(0, p)[pos + i] == b.subrange(0, p)[pos + i]);
    }
    assert(a.subrange(pos, pos + n) =~= b.subrange(pos, pos + n));
}

/// A reader that stops at `p` reads nothing at or after `p`: on another input with the same
/// first `p` bytes it reads the same value.
proof fn lemma_decode_prefix(s: Schema, a: Seq<u8>, b: Seq<u8>, pos: int)
    requires
        0 <= pos <= a.len(),
    ensures
        decode(s, a, pos) matches Ok((v, p)) && agree_up_to(a, b, p) ==> decode(s, b, pos)
            == decode(s, a, pos),
    decreases s, 1int,
{
    lemma_decode_sound(s, a, pos);
    if let Ok((v, p)) = decode(s, a, pos) {
        if agree_up_to(a, b, p) {
            lemma_decode_prefix_step(s, a, b, pos, p);
        }
    }
}

/// The cases of `lemma_decode_prefix` once the reader is known to stop at `p`.
#[verifier::rlimit(40)]
proof fn lemma_decode_prefix_step(s: Schema, a: Seq<u8>, b: Seq<u8>, pos: int, p: int)
    requires
        0 <= pos <= a.len(),
        decode(s, a, pos) matches Ok((_, q)) && q == p,
        agree_up_to(a, b, p),
    ensures
        decode(s, b, pos) == decode(s, a, pos),
    decreases s, 0int,
{
    match s {
        Schema::Bool | Schema::U8 | Schema::I8 => {
            lemma_agree_fixed(a, b, p, pos, 1);
        },
        Schema::U16 | Schema::I16 => {
            lemma_agree_fixed(a, b, p, pos, 2);
        },
        Schema::U32 | Schema::I32 | Schema::F32 => {
            lemma_agree_fixed(a, b, p, pos, 4);
        },
        Schema::U64 | Schema::I64 | Schema::F64 => {
            lemma_agree_fixed(a, b, p, pos, 8);
        },
        Schema::Char | Schema::Str | Schema::Bytes => {
            let (n, p1) = len_at(a, pos)->Ok_0;
            lemma_agree_fixed(a, b, p, pos, 8);
            lemma_agree_fixed(a, b, p, p1, n as int);
        },
        Schema::Unit => {},
        Schema::Optional(e) => {
            let (present, p1) = option_tag_at(a, pos)->Ok_0;
            if present {
                lemma_decode_sound(*e, a, p1);
                lemma_agree_fixed(a, b, p, pos, 1);
                lemma_decode_prefix(*e, a, b, p1);
            } else {
                lemma_agree_fixed(a, b, p, pos, 1);
            }
        },
        Schema::Sequence(e) => {
            let (n, p1) = len_at(a, pos)->Ok_0;
            lemma_decode_many_sound(*e, a, p1, n as nat);
            lemma_agree_fixed(a, b, p, pos, 8);
            lemma_decode_many_prefix(*e, a, b, p1, n as nat);
        },
        Schema::Tuple(fs) => {
            lemma_decode_each_prefix(fs@, a, b, pos);
        },
        Schema::Mapping(kv) => {
            let (n, p1) = len_at(a, pos)->Ok_0;
            lemma_decode_pairs_sound(*kv, a, p1, n as nat);
            lemma_agree_fixed(a, b, p, pos, 8);
            lemma_decode_pairs_prefix(*kv, a, b, p1, n as nat);
        },
        Schema::Enum(vs) => {
            let (i, p1) = u64_at(a, pos)->Ok_0;
            lemma_decode_sound(vs@[i as int], a, p1);
            lemma_agree_fixed(a, b, p, pos, 8);
            lemma_decode_prefix(vs@[i as int], a, b, p1);
        },
        Schema::OrderedMapping(kv) => {
            let (n, p1) = len_at(a, pos + 4)->Ok_0;
            lemma_decode_pairs_sound(*kv, a, p1, n as nat);
            lemma_agree_fixed(a, b, p, pos, 4);
            lemma_agree_fixed(a, b, p, pos + 4, 8);
            lemma_decode_pairs_prefix(*kv, a, b, p1, n as nat);
        },
    }
}

/// Reading `n` values reads nothing after where it stops.
proof fn lemma_decode_many_prefix(e: Schema, a: Seq<u8>, b: Seq<u8>, pos: int, n: nat)
    requires
        0 <= pos <= a.len(),
    ensures
        decode_many(e, a, pos, n) matches Ok((xs, p)) && agree_up_to(a, b, p) ==> decode_many(
            e,
            b,
            pos,
            n,
        ) == decode_many(e, a, pos, n),
    decreases e, n + 2,
{
    lemma_decode_many_sound(e, a, pos, n);
    if n > 0 {
        lemma_decode_sound(e, a, pos);
        if let Ok((x, p1)) = decode(e, a, pos) {
            lemma_decode_many_sound(e, a, p1, (n - 1) as nat);
            if let Ok((xs, p)) = decode_many(e, a, p1, (n - 1) as nat) {
                if agree_up_to(a, b, p) {
                    lemma_agree_shorter(a, b, p, p1);
                    lemma_decode_prefix(e, a, b, pos);
                    lemma_decode_many_prefix(e, a, b, p1, (n - 1) as nat);
                }
            }
        }
    }
}

/// Reading the fields of a product reads nothing after where it stops.
proof fn lemma_decode_each_prefix(fs: Seq<Schema>, a: Seq<u8>, b: Seq<u8>, pos: int)
    requires
        0 <= pos <= a.len(),
    ensures
        decode_each(fs, a, pos) matches Ok((xs, p)) && agree_up_to(a, b, p) ==> decode_each(
            fs,
            b,
            pos,
        ) == decode_each(fs, a, pos),
    decreases fs, 2int,
{
    lemma_decode_each_sound(fs, a, pos);
    if fs.len() > 0 {
        lemma_decode_sound(fs[0], a, pos);
        if let Ok((x, p1)) = decode(fs[0], a, pos) {
            lemma_decode_each_sound(fs.drop_first(), a, p1);
            if let Ok((xs, p)) = decode_each(fs.drop_first(), a, p1) {
                if agree_up_to(a, b, p) {
                    lemma_agree_shorter(a, b, p, p1);
                    lemma_decode_prefix(fs[0], a, b, pos);
                    lemma_decode_each_prefix(fs.drop_first(), a, b, p1);
                }
            }
        }
    }
}

/// Reading `n` key-value pairs reads nothing after where it stops.
proof fn lemma_decode_pairs_prefix(kv: (Schema, Schema), a: Seq<u8>, b: Seq<u8>, pos: int, n: nat)
    requires
        0 <= pos <= a.len(),
    ensures
        decode_pairs(kv, a, pos, n) matches Ok((ps, p)) && agree_up_to(a, b, p) ==> decode_pairs(
            kv,
            b,
            pos,
            n,
        ) == decode_pairs(kv, a, pos, n),
    decreases kv, n + 2,
{
    lemma_decode_pairs_sound(kv, a, pos, n);
    if n > 0 {
        lemma_decode_sound(kv.0, a, pos);
        if let Ok((k, p1)) = decode(kv.0, a, pos) {
            lemma_decode_sound(kv.1, a, p1);
            if let Ok((v, p2)) = decode(kv.1, a, p1) {
                lemma_decode_pairs_sound(kv, a, p2, (n - 1) as nat);
                if let Ok((ps, p)) = decode_pairs(kv, a, p2, (n - 1) as nat) {
                    if agree_up_to(a, b, p) {
                        lemma_agree_shorter(a, b, p, p2);
                        lemma_agree_shorter(a, b, p2, p1);
                        lemma_decode_prefix(kv.0, a, b, pos);
                        lemma_decode_prefix(kv.1, a, b, p1);
                        lemma_decode_pairs_prefix(kv, a, b, p2, (n - 1) as nat);
                    }
                }
            }
        }
    }
}

/// A read of `n` bytes at `pos` from the input cut off at `q`: the same bytes where they end
/// by `q`, the end of input where they do not.
proof fn lemma_cut_fixed(a: Seq<u8>, q: int, pos: int, n: int)
    requires
        0 <= pos,
        0 <= n,
        0 <= q <= a.len(),
    ensures
        pos + n <= q ==> fixed_at(a.subrange(0, q), pos, n) == fixed_at(a, pos, n),
        pos + n > q ==> fixed_at(a.subrange(0, q), pos, n) == Err::<(Seq<u8>, int), ReadFailure>(
            ReadFailure::Eof,
        ),
{
    if pos + n <= q {
        assert(a.subrange(0, q).subrange(pos, pos + n) =~= a.subrange(pos, pos + n));
    }
}

/// An input and the same input cut off at `q` agree up to any `p` by `q`.
proof fn lemma_cut_agrees(a: Seq<u8>, q: int, p: int)
    requires
        0 <= p <= q <= a.len(),
    ensures
        agree_up_to(a, a.subrange(0, q), p),
{
    assert(a.subrange(0, p) =~= a.subrange(0, q).subrange(0, p));
}

/// A reader that stops at `p` fails with the end of input on the same input cut off at any
/// `q` from where it starts to before `p`.
proof fn lemma_decode_cut(s: Schema, a: Seq<u8>, pos: int, q: int)
    requires
        0 <= pos <= q <= a.len(),
    ensures
        decode(s, a, pos) matches Ok((v, p)) && q < p ==> decode(s, a.subrange(0, q), pos)
            == Err::<(SpecValue, int), ReadFailure>(ReadFailure::Eof),
    decreases s, 1int,
{
    lemma_decode_sound(s, a, pos);
    if let Ok((v, p)) = decode(s, a, pos) {
        if q < p {
            lemma_decode_cut_step(s, a, pos, q);
        }
    }
}

/// The cases of `lemma_decode_cut` once the reader is known to stop after `q`.
#[verifier::rlimit(40)]
proof fn lemma_decode_cut_step(s: Schema, a: Seq<u8>, pos: int, q: int)
    requires
        0 <= pos <= q <= a.len(),
        decode(s, a, pos) matches Ok((_, p)) && q < p,
    ensures
        decode(s, a.subrange(0, q), pos) == Err::<(SpecValue, int), ReadFailure>(ReadFailure::Eof),
    decreases s, 0int,
{
    match s {
        Schema::Bool | Schema::U8 | Schema::I8 => {
            lemma_cut_fixed(a, q, pos, 1);
        },
        Schema::U16 | Schema::I16 => {
            lemma_cut_fixed(a, q, pos, 2);
        },
        Schema::U32 | Schema::I32 | Schema::F32 => {
            lemma_cut_fixed(a, q, pos, 4);
        },
        Schema::U64 | Schema::I64 | Schema::F64 => {
            lemma_cut_fixed(a, q, pos, 8);
        },
        Schema::Char | Schema::Str | Schema::Bytes => {
            lemma_cut_fixed(a, q, pos, 8);
            if pos + 8 <= q {
                let (n, p1) = len_at(a, pos)->Ok_0;
                lemma_cut_fixed(a, q, p1, n as int);
            }
        },
        Schema::Unit => {},
        Schema::Optional(e) => {
            lemma_cut_fixed(a, q, pos, 1);
            if pos + 1 <= q {
                let (present, p1) = option_tag_at(a, pos)->Ok_0;
                if present {
                    lemma_decode_cut(*e, a, p1, q);
                }
            }
        },
        Schema::Sequence(e) => {
            lemma_cut_fixed(a, q, pos, 8);
            if pos + 8 <= q {
                let (n, p1) = len_at(a, pos)->Ok_0;
                lemma_decode_many_cut(*e, a, p1, n as nat, q);
            }
        },
        Schema::Tuple(fs) => {
            lemma_decode_each_cut(fs@, a, pos, q);
        },
        Schema::Mapping(kv) => {
            lemma_cut_fixed(a, q, pos, 8);
            if pos + 8 <= q {
                let (n, p1) = len_at(a, pos)->Ok_0;
                lemma_decode_pairs_cut(*kv, a, p1, n as nat, q);
            }
        },
        Schema::Enum(vs) => {
            lemma_cut_fixed(a, q, pos, 8);
            if pos + 8 <= q {
                let (i, p1) = u64_at(a, pos)->Ok_0;
                lemma_decode_cut(vs@[i as int], a, p1, q);
            }
        },
        Schema::OrderedMapping(kv) => {
            lemma_cut_fixed(a, q, pos, 4);
            if pos + 4 <= q {
                lemma_cut_fixed(a, q, pos + 4, 8);
                if pos + 12 <= q {
                    let (n, p1) = len_at(a, pos + 4)->Ok_0;
                    lemma_decode_pairs_cut(*kv, a, p1, n as nat, q);
                }
            }
        },
    }
}

/// Reading `n` values that stop after `q` fails with the end of input when the input is cut
/// off at `q`.
proof fn lemma_decode_many_cut(e: Schema, a: Seq<u8>, pos: int, n: nat, q: int)
    requires
        0 <= pos <= q <= a.len(),
    ensures
        decode_many(e, a, pos, n) matches Ok((xs, p)) && q < p ==> decode_many(
            e,
            a.subrange(0, q),
            pos,
            n,
        ) == Err::<(Seq<SpecValue>, int), ReadFailure>(ReadFailure::Eof),
    decreases e, n + 2,
{
    if n > 0 {
        lemma_decode_sound(e, a, pos);
        if let Ok((x, p1)) = decode(e, a, pos) {
            if q < p1 {
                lemma_decode_cut(e, a, pos, q);
            } else {
                lemma_cut_agrees(a, q, p1);
                lemma_decode_prefix(e, a, a.subrange(0, q), pos);
                lemma_decode_many_cut(e, a, p1, (n - 1) as nat, q);
            }
        }
    }
}

/// Reading the fields of a product that stop after `q` fails with the end of input when the
/// input is cut off at `q`.
proof fn lemma_decode_each_cut(fs: Seq<Schema>, a: Seq<u8>, pos: int, q: int)
    requires
        0 <= pos <= q <= a.len(),
    ensures
        decode_each(fs, a, pos) matches Ok((xs, p)) && q < p ==> decode_each(
            fs,
            a.subrange(0, q),
            pos,
        ) == Err::<(Seq<SpecValue>, int), ReadFailure>(ReadFailure::Eof),
    decreases fs, 2int,
{
    if fs.len() > 0 {
        lemma_decode_sound(fs[0], a, pos);
        if let Ok((x, p1)) = decode(fs[0], a, pos) {
            if q < p1 {
                lemma_decode_cut(fs[0], a, pos, q);
            } else {
                lemma_cut_agrees(a, q, p1);
                lemma_decode_prefix(fs[0], a, a.subrange(0, q), pos);
                lemma_decode_each_cut(fs.drop_first(), a, p1, q);
            }
        }
    }
}

/// Reading `n` key-value pairs that stop after `q` fails with the end of input when the input
/// is cut off at `q`.
proof fn lemma_decode_pairs_cut(kv: (Schema, Schema), a: Seq<u8>, pos: int, n: nat, q: int)
    requires
        0 <= pos <= q <= a.len(),
    ensures
        decode_pairs(kv, a, pos, n) matches Ok((ps, p)) && q < p ==> decode_pairs(
            kv,
            a.subrange(0, q),
            pos,
            n,
        ) == Err::<(Seq<(SpecValue, SpecValue)>, int), ReadFailure>(ReadFailure::Eof),
    decreases kv, n + 2,
{
    if n > 0 {
        lemma_decode_sound(kv.0, a, pos);
        if let Ok((k, p1)) = decode(kv.0, a, pos) {
            if q < p1 {
                lemma_decode_cut(kv.0, a, pos, q);
            } else {
                lemma_cut_agrees(a, q, p1);
                lemma_decode_prefix(kv.0, a, a.subrange(0, q), pos);
                lemma_decode_sound(kv.1, a, p1);
                if let Ok((v, p2)) = decode(kv.1, a, p1) {
                    if q < p2 {
                        lemma_decode_cut(kv.1, a, p1, q);
                    } else {
                        lemma_cut_agrees(a, q, p2);
                        lemma_decode_prefix(kv.1, a, a.subrange(0, q), p1);
                        lemma_decode_pairs_cut(kv, a, p2, (n - 1) as nat, q);
                    }
                }
            }
        }
    }
}

/// A cut-off encoding is never accepted: reading, with the shape of a value, any proper
/// prefix of the bytes that writing the value gave fails with the end of input.
pub proof fn law_truncated_input_fails(v: SpecValue, s: Schema, j: int)
    requires
        conforms(v, s),
        0 <= j < encode(v).len(),
    ensures
        decode(s, encode(v).subrange(0, j), 0) == Err::<(SpecValue, int), ReadFailure>(
            ReadFailure::Eof,
        ),
{
    law_roundtrip(v, s, Seq::empty(), Seq::empty());
    assert(Seq::<u8>::empty() + encode(v) + Seq::<u8>::empty() =~= encode(v));
    lemma_decode_cut(s, encode(v), 0, j);
}

/// Bytes after a value are never read: a reader that stops at `p` reads the same value, and
/// stops at the same place, whatever follows the first `p` bytes.
pub proof fn law_trailing_bytes_unread(s: Schema, input: Seq<u8>, pos: int, rest: Seq<u8>)
    requires
        0 <= pos <= input.len(),
    ensures
        decode(s, input, pos) matches Ok((v, p)) ==> decode(s, input.subrange(0, p) + rest, pos)
            == decode(s, input, pos),
{
    lemma_decode_sound(s, input, pos);
    if let Ok((v, p)) = decode(s, input, pos) {
        let b = input.subrange(0, p) + rest;
        assert(input.subrange(0, p) =~= b.subrange(0, p));
        lemma_decode_prefix(s, input, b, pos);
    }
}

/// The layout of a fixed-width value, read back with the little-endian readers: a boolean is
/// one byte, 1 for `true` and 0 for `false`; an integer, or a float by its bit pattern, is
/// its width in bytes and reads back as itself; the unit value takes no bytes.
pub proof fn law_scalar_layout(v: SpecValue)
    ensures
        match v {
            SpecValue::Bool(b) => encode(v).len() == 1 && (b ==> encode(v)[0] == 1) && (!b
                ==> encode(v)[0] == 0),
            SpecValue::U8(x) => encode(v).len() == 1 && encode(v)[0] == x,
            SpecValue::U16(x) => encode(v).len() == 2 && u16_from_le(encode(v)) == x,
            SpecValue::U32(x) => encode(v).len() == 4 && u32_from_le(encode(v)) == x,
            SpecValue::U64(x) => encode(v).len() == 8 && u64_from_le(encode(v)) == x,
            SpecValue::I8(x) => encode(v).len() == 1 && encode(v)[0] as i8 == x,
            SpecValue::I16(x) => encode(v).len() == 2 && u16_from_le(encode(v)) as i16 == x,
            SpecValue::I32(x) => encode(v).len() == 4 && u32_from_le(encode(v)) as i32 == x,
            SpecValue::I64(x) => encode(v).len() == 8 && u64_from_le(encode(v)) as i64 == x,
            SpecValue::F32Bits(x) => encode(v).len() == 4 && u32_from_le(encode(v)) == x,
            SpecValue::F64Bits(x) => encode(v).len() == 8 && u64_from_le(encode(v)) == x,
            SpecValue::Unit => encode(v).len() == 0,
            _ => true,
        },
{
    match v {
        SpecValue::U16(x) => lemma_u16_roundtrip(x),
        SpecValue::U32(x) => lemma_u32_roundtrip(x),
        SpecValue::U64(x) => lemma_u64_roundtrip(x),
        SpecValue::F32Bits(x) => lemma_u32_roundtrip(x),
        SpecValue::F64Bits(x) => lemma_u64_roundtrip(x),
        SpecValue::I8(x) => {
            assert((x as u8) as i8 == x) by (bit_vector);
        },
        SpecValue::I16(x) => {
            lemma_u16_roundtrip(x as u16);
            assert((x as u16) as i16 == x) by (bit_vector);
        },
        SpecValue::I32(x) => {
            lemma_u32_roundtrip(x as u32);
            assert((x as u32) as i32 == x) by (bit_vector);
        },
        SpecValue::I64(x) => {
            lemma_u64_roundtrip(x as u64);
            assert((x as u64) as i64 == x) by (bit_vector);
        },
        _ => {},
    }
}

/// The first eight bytes of `b + rest` read as a little-endian `u64` give the same number
/// as `b` alone, when `b` has eight bytes.
proof fn lemma_u64_from_le_prefix(b: Seq<u8>, rest: Seq<u8>)
    requires
        b.len() == 8,
    ensures
        u64_from_le(b + rest) == u64_from_le(b),
{
    let c = b + rest;
    assert(c[0] == b[0] && c[1] == b[1] && c[2] == b[2] && c[3] == b[3]);
    assert(c[4] == b[4] && c[5] == b[5] && c[6] == b[6] && c[7] == b[7]);
}

/// The first four bytes of `b + rest` read as a little-endian `u32` give the same number
/// as `b` alone, when `b` has four bytes.
proof fn lemma_u32_from_le_prefix(b: Seq<u8>, rest: Seq<u8>)
    requires
        b.len() == 4,
    ensures
        u32_from_le(b + rest) == u32_from_le(b),
{
    let c = b + rest;
    assert(c[0] == b[0] && c[1] == b[1] && c[2] == b[2] && c[3] == b[3]);
}

/// A count or length `n` that fits in a `u64`, written as the format writes it, reads back
/// as `n` whatever follows it.
proof fn lemma_count_reads_back(n: nat, rest: Seq<u8>)
    requires
        n <= u64::MAX,
    ensures
        len_bytes(n).len() == 8,
        u64_from_le(len_bytes(n) + rest) == n,
        (len_bytes(n) + rest).skip(8) == rest,
{
    lemma_u64_roundtrip(n as u64);
    lemma_u64_from_le_prefix(len_bytes(n), rest);
    assert((len_bytes(n) + rest).skip(8) =~= rest);
}

/// The layout of a value with a prefix, read back with the little-endian readers:
/// - text is its UTF-8 byte count as a `u64`, then its UTF-8 bytes; a char is the
///   one-character text;
/// - a byte string is its length as a `u64`, then its bytes;
/// - an absent optional value is the tag byte 0; a present one is the tag byte 1, then
///   the value;
/// - a sequence is its number of elements as a `u64`, then its elements written as the
///   product of them;
/// - a product is its fields one after another, with no prefix;
/// - a map is its number of entries as a `u64`, then each key followed by its value;
/// - a variant is its index as a `u64`, then its fields;
/// - an ordered map is the ascending-order marker as a `u32`, then exactly the bytes of the
///   same entries written as a map.
pub proof fn law_prefixed_layout(v: SpecValue)
    ensures
        match v {
            SpecValue::Str(t) => encode(v).skip(8) == vstd::utf8::encode_utf8(t) && (
            vstd::utf8::encode_utf8(t).len() <= u64::MAX ==> encode(v).len() >= 8 && u64_from_le(
                encode(v),
            ) == encode(v).len() - 8),
            SpecValue::Char(c) => encode(v) == encode(SpecValue::Str(seq![c])),
            SpecValue::Bytes(b) => encode(v).skip(8) == b && (b.len() <= u64::MAX ==> encode(
                v,
            ).len() >= 8 && u64_from_le(encode(v)) == b.len()),
            SpecValue::Optional(o) => match o {
                None => encode(v) == seq![0u8],
                Some(x) => encode(v).len() >= 1 && encode(v)[0] == 1 && encode(v).skip(1)
                    == encode(*x),
            },
            SpecValue::Sequence(xs) => encode(v).skip(8) == encode(SpecValue::Tuple(xs)) && (
            xs.len() <= u64::MAX ==> encode(v).len() >= 8 && u64_from_le(encode(v)) == xs.len()),
            SpecValue::Tuple(xs) => if xs.len() == 0 {
                encode(v).len() == 0
            } else {
                encode(v) == encode(xs[0]) + encode(SpecValue::Tuple(xs.drop_first()))
            },
            SpecValue::Mapping(ps) => (ps.len() <= u64::MAX ==> encode(v).len() >= 8
                && u64_from_le(encode(v)) == ps.len()) && (ps.len() == 0 ==> encode(v).skip(
                8,
            ).len() == 0) && (ps.len() > 0 ==> encode(v).skip(8) == encode(ps[0].0) + encode(
                ps[0].1,
            ) + encode(SpecValue::Mapping(ps.drop_first())).skip(8)),
            SpecValue::Variant(i, b) => encode(v).len() >= 8 && u64_from_le(encode(v)) == i
                && encode(v).skip(8) == encode(*b),
            SpecValue::OrderedMapping(ps) => encode(v) == le_u32(ASCENDING_MAP_MARKER) + encode(
                SpecValue::Mapping(ps),
            ) && u32_from_le(encode(v)) == ASCENDING_MAP_MARKER,
            _ => true,
        },
{
    match v {
        SpecValue::Str(t) => {
            let u = vstd::utf8::encode_utf8(t);
            assert(encode(v) == text_bytes(t));
            assert(text_bytes(t) == len_bytes(u.len()) + u);
            assert((len_bytes(u.len()) + u).skip(8) =~= u);
            if u.len() <= u64::MAX {
                lemma_count_reads_back(u.len(), u);
                assert((len_bytes(u.len()) + u).len() == 8 + u.len());
            }
        },
        SpecValue::Bytes(b) => {
            assert((len_bytes(b.len()) + b).skip(8) =~= b);
            if b.len() <= u64::MAX {
                lemma_count_reads_back(b.len(), b);
            }
        },
        SpecValue::Optional(o) => {
            if let Some(x) = o {
                assert((seq![1u8] + encode(*x)).skip(1) =~= encode(*x));
            }
        },
        SpecValue::Sequence(xs) => {
            assert((len_bytes(xs.len()) + encode_all(xs)).skip(8) =~= encode_all(xs));
            if xs.len() <= u64::MAX {
                lemma_count_reads_back(xs.len(), encode_all(xs));
            }
        },
        SpecValue::Tuple(xs) => {
            if xs.len() > 0 {
                assert(encode_all(xs) == encode(xs[0]) + encode_all(xs.drop_first()));
            } else {
                assert(encode_all(xs) == Seq::<u8>::empty());
            }
        },
        SpecValue::Mapping(ps) => {
            assert((len_bytes(ps.len()) + encode_pairs(ps)).skip(8) =~= encode_pairs(ps));
            if ps.len() > 0 {
                let rest = ps.drop_first();
                assert((len_bytes(rest.len()) + encode_pairs(rest)).skip(8) =~= encode_pairs(rest));
            }
            if ps.len() <= u64::MAX {
                lemma_count_reads_back(ps.len(), encode_pairs(ps));
            }
        },
        SpecValue::Variant(i, b) => {
            lemma_u64_roundtrip(i as u64);
            lemma_u64_from_le_prefix(le_u64(i as u64), encode(*b));
            assert((le_u64(i as u64) + encode(*b)).skip(8) =~= encode(*b));
        },
        SpecValue::OrderedMapping(ps) => {
            lemma_u32_roundtrip(ASCENDING_MAP_MARKER);
            assert(encode(v) =~= le_u32(ASCENDING_MAP_MARKER) + encode(SpecValue::Mapping(ps)));
            lemma_u32_from_le_prefix(le_u32(ASCENDING_MAP_MARKER), encode(SpecValue::Mapping(ps)));
        },
        _ => {},
    }
}

/// What a reader takes from the input, seen through the little-endian readers: a boolean is
/// the byte at `pos`, `true` unless it is 0; an integer, or a float by its bit pattern, is
/// the little-endian number in the next bytes of its width; text and byte strings are the
/// `u64` little-endian count at `pos` followed by exactly that many bytes (valid UTF-8 for
/// text, which decodes to the characters read); a char is read as text; an optional value
/// is present exactly when its tag byte is 1 (and absent when it is 0); a sequence or a map
/// has exactly as many elements or entries as the `u64` little-endian count at `pos` says;
/// a variant's index is the `u64` little-endian number at `pos`; an ordered map starts with
/// the ascending-order marker and has as many entries as the count after it says.
pub proof fn law_decoded_layout(s: Schema, input: Seq<u8>, pos: int)
    requires
        0 <= pos <= input.len(),
    ensures
        decode(s, input, pos) matches Ok((v, q)) ==> match v {
            SpecValue::Bool(b) => q == pos + 1 && b == (input[pos] != 0),
            SpecValue::U8(x) => q == pos + 1 && x == input[pos],
            SpecValue::U16(x) => q == pos + 2 && x == u16_from_le(input.subrange(pos, q)),
            SpecValue::U32(x) => q == pos + 4 && x == u32_from_le(input.subrange(pos, q)),
            SpecValue::U64(x) => q == pos + 8 && x == u64_from_le(input.subrange(pos, q)),
            SpecValue::I8(x) => q == pos + 1 && x == input[pos] as i8,
            SpecValue::I16(x) => q == pos + 2 && x == u16_from_le(input.subrange(pos, q)) as i16,
            SpecValue::I32(x) => q == pos + 4 && x == u32_from_le(input.subrange(pos, q)) as i32,
            SpecValue::I64(x) => q == pos + 8 && x == u64_from_le(input.subrange(pos, q)) as i64,
            SpecValue::F32Bits(x) => q == pos + 4 && x == u32_from_le(input.subrange(pos, q)),
            SpecValue::F64Bits(x) => q == pos + 8 && x == u64_from_le(input.subrange(pos, q)),
            SpecValue::Char(c) => decode(Schema::Str, input, pos) == Ok::<
                (SpecValue, int),
                ReadFailure,
            >((SpecValue::Str(seq![c]), q)),
            SpecValue::Str(t) => pos + 8 <= q <= input.len() && q - pos - 8 == u64_from_le(
                input.subrange(pos, pos + 8),
            ) && vstd::utf8::valid_utf8(input.subrange(pos + 8, q)) && t == vstd::utf8::decode_utf8(
                input.subrange(pos + 8, q),
            ),
            SpecValue::Bytes(b) => pos + 8 <= q <= input.len() && b.len() == u64_from_le(
                input.subrange(pos, pos + 8),
            ) && b == input.subrange(pos + 8, q),
            SpecValue::Unit => q == pos,
            SpecValue::Optional(o) => pos < input.len() && (input[pos] == 0 || input[pos] == 1)
                && (o is None <==> input[pos] == 0) && (o is None ==> q == pos + 1),
            SpecValue::Sequence(xs) => pos + 8 <= input.len() && xs.len() == u64_from_le(
                input.subrange(pos, pos + 8),
            ),
            SpecValue::Mapping(ps) => pos + 8 <= input.len() && ps.len() == u64_from_le(
                input.subrange(pos, pos + 8),
            ),
            SpecValue::Variant(i, _) => pos + 8 <= input.len() && i == u64_from_le(
                input.subrange(pos, pos + 8),
            ),
            SpecValue::OrderedMapping(ps) => pos + 12 <= input.len() && u32_from_le(
                input.subrange(pos, pos + 4),
            ) == ASCENDING_MAP_MARKER && ps.len() == u64_from_le(input.subrange(pos + 4, pos + 12)),
            SpecValue::Tuple(_) => true,
        },
{
    match s {
        Schema::Sequence(e) => {
            if let Ok((n, p)) = len_at(input, pos) {
                lemma_decode_many_sound(*e, input, p, n as nat);
            }
        },
        Schema::Mapping(kv) => {
            if let Ok((n, p)) = len_at(input, pos) {
                lemma_decode_pairs_sound(*kv, input, p, n as nat);
            }
        },
        Schema::OrderedMapping(kv) => {
            if let Ok((m, p)) = u32_at(input, pos) {
                if let Ok((n, p2)) = len_at(input, p) {
                    lemma_decode_pairs_sound(*kv, input, p2, n as nat);
                }
            }
        },
        _ => {},
    }
}

/// Reading an ordered map is reading the ascending-order marker and then, right after it,
/// a map: the same entries, the same end, the same failures; a different first `u32` is
/// refused as a bad marker.
pub proof fn law_ordered_map_reads_as_marker_then_map(
    kv: (Schema, Schema),
    input: Seq<u8>,
    pos: int,
)
    ensures
        decode(Schema::OrderedMapping(Box::new(kv)), input, pos) == match u32_at(input, pos) {
            Ok((m, p)) => if m == ASCENDING_MAP_MARKER {
                match decode(Schema::Mapping(Box::new(kv)), input, p) {
                    Ok((w, q)) => Ok((SpecValue::OrderedMapping(w->Mapping_0), q)),
                    Err(f) => Err(f),
                }
            } else {
                Err(ReadFailure::BadMarker(m))
            },
            Err(f) => Err(f),
        },
{
}

/// The bytes of the text or byte string at `pos`, when its `u64` little-endian count is
/// followed by that many bytes of `input`.
pub open spec fn counted_bytes(input: Seq<u8>, pos: int) -> Option<Seq<u8>> {
    if 0 <= pos && pos + 8 <= input.len() {
        let n = u64_from_le(input.subrange(pos, pos + 8));
        if n <= usize::MAX && pos + 8 + n <= input.len() {
            Some(input.subrange(pos + 8, pos + 8 + n))
        } else {
            None
        }
    } else {
        None
    }
}

/// Why a reader refuses what it reads: an optional value's tag byte other than 0 or 1; a
/// variant index out of the range of the variants; an ordered map whose first `u32` is not
/// the ascending-order marker; text bytes that are not valid UTF-8; and, for a char, text
/// of no character or of more than one. Each is refused with the failure that names it.
pub proof fn law_decode_refusals(s: Schema, input: Seq<u8>, pos: int)
    requires
        0 <= pos,
    ensures
        match s {
            Schema::Optional(_) => pos < input.len() && input[pos] > 1 ==> decode(s, input, pos)
                == Err::<(SpecValue, int), ReadFailure>(ReadFailure::InvalidOptionTag(input[pos])),
            Schema::Enum(vs) => pos + 8 <= input.len() && u64_from_le(input.subrange(pos, pos + 8))
                >= vs@.len() ==> decode(s, input, pos) == Err::<(SpecValue, int), ReadFailure>(
                ReadFailure::UnknownVariant(u64_from_le(input.subrange(pos, pos + 8)), vs@.len()),
            ),
            Schema::OrderedMapping(_) => pos + 4 <= input.len() && u32_from_le(
                input.subrange(pos, pos + 4),
            ) != ASCENDING_MAP_MARKER ==> decode(s, input, pos) == Err::<
                (SpecValue, int),
                ReadFailure,
            >(ReadFailure::BadMarker(u32_from_le(input.subrange(pos, pos + 4)))),
            Schema::Str => counted_bytes(input, pos) matches Some(b) ==> (!vstd::utf8::valid_utf8(
                b,
            ) ==> decode(s, input, pos) == Err::<(SpecValue, int), ReadFailure>(
                ReadFailure::InvalidUtf8(b),
            )),
            Schema::Char => counted_bytes(input, pos) matches Some(b) ==> (!vstd::utf8::valid_utf8(
                b,
            ) ==> decode(s, input, pos) == Err::<(SpecValue, int), ReadFailure>(
                ReadFailure::InvalidUtf8(b),
            )) && (vstd::utf8::valid_utf8(b) && vstd::utf8::decode_utf8(b).len() == 0 ==> decode(
                s,
                input,
                pos,
            ) == Err::<(SpecValue, int), ReadFailure>(ReadFailure::EmptyChar)) && (
            vstd::utf8::valid_utf8(b) && vstd::utf8::decode_utf8(b).len() > 1 ==> decode(
                s,
                input,
                pos,
            ) == Err::<(SpecValue, int), ReadFailure>(ReadFailure::MultipleChars)),
            _ => true,
        },
{
}

} // verus!
