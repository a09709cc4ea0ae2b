//! The writing half of the store format.

use crate::bytes::{le_bytes_u16, le_bytes_u32, le_bytes_u64, le_u16, le_u32, le_u64};
use crate::error::StoreError;
use crate::text::char_to_string;
use vstd::prelude::*;
use vstd::string::*;
use vstd::utf8::encode_utf8;

verus! {

/// The bytes that the store format writes for a length or a count: the `u64`
/// little-endian encoding of `n`.
pub open spec fn len_bytes(n: nat) -> Seq<u8> {
    le_u64(n as u64)
}

/// The bytes that the store format writes for text: its UTF-8 length and then its UTF-8 bytes.
pub open spec fn text_bytes(chars: Seq<char>) -> Seq<u8> {
    len_bytes(encode_utf8(chars).len()) + encode_utf8(chars)
}

/// The bytes that the store format writes for a byte string: its length and then the bytes.
pub open spec fn byte_string_bytes(b: Seq<u8>) -> Seq<u8> {
    len_bytes(b.len()) + b
}

/// The byte that the store format writes for a boolean.
pub open spec fn bool_byte(v: bool) -> u8 {
    if v {
        1
    } else {
        0
    }
}

/// A serializer that produces binary data compatible with the Haskell
/// `store` library's format (little-endian). Its view is the bytes written so far.
#[derive(Debug)]
pub struct StoreSerializer {
    output: Vec<u8>,
}

impl View for StoreSerializer {
    type V = Seq<u8>;

    closed spec fn view(&self) -> Seq<u8> {
        self.output@
    }
}

impl Default for StoreSerializer {
    fn default() -> (s: Self)
        ensures
            s@ == Seq::<u8>::empty(),
    {
        Self::new()
    }
}

impl StoreSerializer {
    /// Creates a new serializer writing to an in-memory buffer.
    pub fn new() -> (s: Self)
        ensures
            s@ == Seq::<u8>::empty(),
    {
        StoreSerializer { output: Vec::new() }
    }

    /// Creates a new serializer with pre-allocated capacity.
    pub fn with_capacity(capacity: usize) -> (s: Self)
        ensures
            s@ == Seq::<u8>::empty(),
    {
        StoreSerializer { output: Vec::with_capacity(capacity) }
    }

    /// Returns the serialized bytes.
    pub fn into_inner(self) -> (v: Vec<u8>)
        ensures
            v@ == self@,
    {
        self.output
    }

    /// Returns a reference to the internal buffer.
    pub fn as_slice(&self) -> (s: &[u8])
        ensures
            s@ == self@,
    {
        self.output.as_slice()
    }

    /// Appends raw bytes.
    fn append(&mut self, b: &[u8])
        ensures
            final(self)@ == old(self)@ + b@,
    {
        let ghost start = self.output@;
        let mut i: usize = 0;
        while i < b.len()
            invariant
                i <= b@.len(),
                self.output@ == start + b@.take(i as int),
            decreases b@.len() - i,
        {
            self.output.push(b[i]);
            i = i + 1;
            assert(b@.take(i as int) == b@.take(i - 1).push(b@[i - 1]));
        }
        assert(b@.take(b@.len() as int) == b@);
    }

    /// Writes one byte.
    pub fn write_u8(&mut self, v: u8) -> (r: Result<(), StoreError>)
        ensures
            r is Ok,
            final(self)@ == old(self)@.push(v),
    {
        self.output.push(v);
        Ok(())
    }

    /// Writes a signed byte (its two's complement bit pattern).
    pub fn write_i8(&mut self, v: i8) -> (r: Result<(), StoreError>)
        ensures
            r is Ok,
            final(self)@ == old(self)@.push(v as u8),
    {
        self.output.push(v as u8);
        Ok(())
    }

    /// Writes a `u16` little-endian.
    pub fn write_u16(&mut self, v: u16) -> (r: Result<(), StoreError>)
        ensures
            r is Ok,
            final(self)@ == old(self)@ + le_u16(v),
    {
        let b = le_bytes_u16(v);
        self.append(&b);
        Ok(())
    }

    /// Writes an `i16` little-endian (its two's complement bit pattern).
    pub fn write_i16(&mut self, v: i16) -> (r: Result<(), StoreError>)
        ensures
            r is Ok,
            final(self)@ == old(self)@ + le_u16(v as u16),
    {
        self.write_u16(v as u16)
    }

    /// Writes a `u32` little-endian.
    pub fn write_u32(&mut self, v: u32) -> (r: Result<(), StoreError>)
        ensures
            r is Ok,
            final(self)@ == old(self)@ + le_u32(v),
    {
        let b = le_bytes_u32(v);
        self.append(&b);
        Ok(())
    }

    /// Writes an `i32` little-endian (its two's complement bit pattern).
    pub fn write_i32(&mut self, v: i32) -> (r: Result<(), StoreError>)
        ensures
            r is Ok,
            final(self)@ == old(self)@ + le_u32(v as u32),
    {
        self.write_u32(v as u32)
    }

    /// Writes a `u64` little-endian.
    pub fn write_u64(&mut self, v: u64) -> (r: Result<(), StoreError>)
        ensures
            r is Ok,
            final(self)@ == old(self)@ + le_u64(v),
    {
        let b = le_bytes_u64(v);
        self.append(&b);
        Ok(())
    }

    /// Writes an `i64` little-endian (its two's complement bit pattern).
    pub fn write_i64(&mut self, v: i64) -> (r: Result<(), StoreError>)
        ensures
            r is Ok,
            final(self)@ == old(self)@ + le_u64(v as u64),
    {
        self.write_u64(v as u64)
    }

    /// Writes a length or a count as a `u64` little-endian.
    pub fn write_len(&mut self, len: usize) -> (r: Result<(), StoreError>)
        ensures
            r is Ok,
            final(self)@ == old(self)@ + len_bytes(len as nat),
    {
        self.write_u64(len as u64)
    }

    /// Writes text: its UTF-8 length as a `u64` little-endian, then its UTF-8 bytes.
    pub fn write_text(&mut self, s: &str) -> (r: Result<(), StoreError>)
        ensures
            r is Ok,
            final(self)@ == old(self)@ + text_bytes(s@),
    {
        let b = s.as_bytes();
        self.write_len(b.len())?;
        self.append(b);
        Ok(())
    }

    /// Writes a byte string: its length as a `u64` little-endian, then the bytes.
    pub fn write_bytes(&mut self, b: &[u8]) -> (r: Result<(), StoreError>)
        ensures
            r is Ok,
            final(self)@ == old(self)@ + byte_string_bytes(b@),
    {
        self.write_len(b.len())?;
        self.append(b);
        Ok(())
    }

    /// Writes a boolean as one byte: 1 for `true`, 0 for `false`.
    pub fn serialize_bool(&mut self, v: bool) -> (r: Result<(), StoreError>)
        ensures
            r is Ok,
            final(self)@ == old(self)@.push(bool_byte(v)),
    {
        self.write_u8(if v { 1 } else { 0 })
    }

    /// Writes a char as a one-character text.
    pub fn serialize_char(&mut self, v: char) -> (r: Result<(), StoreError>)
        ensures
            r is Ok,
            final(self)@ == old(self)@ + text_bytes(seq![v]),
    {
        let s = char_to_string(v);
        self.write_text(s.as_str())
    }

    /// Writes the tag of an absent optional value: the byte 0.
    pub fn serialize_none(&mut self) -> (r: Result<(), StoreError>)
        ensures
            r is Ok,
            final(self)@ == old(self)@.push(0u8),
    {
        self.write_u8(0)
    }

    /// Writes the tag of a present optional value, the byte 1; the value follows it.
    pub fn serialize_some(&mut self) -> (r: Result<(), StoreError>)
        ensures
            r is Ok,
            final(self)@ == old(self)@.push(1u8),
    {
        self.write_u8(1)
    }

    /// Writes the variant index of a sum type as a `u64` little-endian; the variant's
    /// fields, if any, follow it.
    pub fn serialize_variant_index(&mut self, variant_index: u32) -> (r: Result<(), StoreError>)
        ensures
            r is Ok,
            final(self)@ == old(self)@ + le_u64(variant_index as u64),
    {
        self.write_u64(variant_index as u64)
    }

    /// Starts a sequence: writes its length. The length must be known.
    pub fn serialize_seq(&mut self, len: Option<usize>) -> (r: Result<(), StoreError>)
        ensures
            len is Some <==> r is Ok,
            r matches Err(e) ==> e matches StoreError::Serde(m) && m@
                == "Sequence length must be known"@,
            len matches Some(n) ==> final(self)@ == old(self)@ + len_bytes(n as nat),
            len is None ==> final(self)@ == old(self)@,
    {
        match len {
            Some(n) => self.write_len(n),
            None => Err(StoreError::Serde(String::from_str("Sequence length must be known"))),
        }
    }

    /// Starts a map: writes its number of entries. The number must be known.
    pub fn serialize_map(&mut self, len: Option<usize>) -> (r: Result<(), StoreError>)
        ensures
            len is Some <==> r is Ok,
            r matches Err(e) ==> e matches StoreError::Serde(m) && m@ == "Map length must be known"@,
            len matches Some(n) ==> final(self)@ == old(self)@ + len_bytes(n as nat),
            len is None ==> final(self)@ == old(self)@,
    {
        match len {
            Some(n) => self.write_len(n),
            None => Err(StoreError::Serde(String::from_str("Map length must be known"))),
        }
    }
}

} // verus!
