//! The reading half of the store format.

use crate::bytes::{le_read_u16, le_read_u32, le_read_u64, u16_from_le, u32_from_le, u64_from_le};
use crate::error::{unexpected_eof, StoreError};
use crate::text::{append_decimal, decimal, string_from_utf8, utf8_error_text};
use vstd::prelude::*;
use vstd::slice::{slice_subrange, slice_to_vec};
use vstd::string::*;
use vstd::utf8::{decode_utf8, valid_utf8};

verus! {

/// Why reading the store format failed.
pub enum ReadFailure {
    /// The input ended before the value was complete.
    Eof,
    /// A text held these bytes, which are not valid UTF-8.
    InvalidUtf8(Seq<u8>),
    /// An optional value's tag was neither 0 nor 1.
    InvalidOptionTag(u8),
    /// A char was read from an empty text.
    EmptyChar,
    /// A char was read from a text of more than one character.
    MultipleChars,
    /// A self-describing read was asked for; the format is not self-describing.
    AnyUnsupported,
    /// An ordered map did not start with the ascending-order marker; this is what it held.
    BadMarker(u32),
    /// A sum type's variant index was out of range (the index, the number of variants).
    UnknownVariant(u64, nat),
}

/// The message that a failure other than the end of input carries.
pub open spec fn failure_message(f: ReadFailure) -> Seq<char> {
    match f {
        ReadFailure::Eof => Seq::empty(),
        ReadFailure::InvalidUtf8(b) => "Invalid UTF-8: "@ + utf8_error_text(b),
        ReadFailure::InvalidOptionTag(t) => "Invalid option tag: "@ + decimal(t as nat),
        ReadFailure::EmptyChar => "Empty string when deserializing char"@,
        ReadFailure::MultipleChars => "Multiple characters when deserializing char"@,
        ReadFailure::AnyUnsupported => "deserialize_any not supported by Store format"@,
        ReadFailure::BadMarker(m) => "invalid ascending map marker: expected 1217678090, got "@
            + decimal(m as nat),
        ReadFailure::UnknownVariant(i, n) => "invalid value: integer `"@ + decimal(i as nat)
            + "`, expected variant index 0 <= i < "@ + decimal(n),
    }
}

/// `e` is the error that reports the failure `f`: an I/O error for the end of input,
/// otherwise a serde error with the failure's message.
pub open spec fn reports(e: StoreError, f: ReadFailure) -> bool {
    match f {
        ReadFailure::Eof => e is Io,
        _ => e matches StoreError::Serde(m) && m@ == failure_message(f),
    }
}

/// The `n` bytes of `input` at `pos` and the position after them, when there are that many.
pub open spec fn fixed_at(input: Seq<u8>, pos: int, n: int) -> Result<(Seq<u8>, int), ReadFailure> {
    if 0 <= pos && 0 <= n && pos + n <= input.len() {
        Ok((input.subrange(pos, pos + n), pos + n))
    } else {
        Err(ReadFailure::Eof)
    }
}

/// The byte at `pos`.
pub open spec fn u8_at(input: Seq<u8>, pos: int) -> Result<(u8, int), ReadFailure> {
    match fixed_at(input, pos, 1) {
        Ok((b, p)) => Ok((b[0], p)),
        Err(f) => Err(f),
    }
}

/// The signed byte at `pos`.
pub open spec fn i8_at(input: Seq<u8>, pos: int) -> Result<(i8, int), ReadFailure> {
    match fixed_at(input, pos, 1) {
        Ok((b, p)) => Ok((b[0] as i8, p)),
        Err(f) => Err(f),
    }
}

/// The little-endian `u16` at `pos`.
pub open spec fn u16_at(input: Seq<u8>, pos: int) -> Result<(u16, int), ReadFailure> {
    match fixed_at(input, pos, 2) {
        Ok((b, p)) => Ok((u16_from_le(b), p)),
        Err(f) => Err(f),
    }
}

/// The little-endian `i16` at `pos`.
pub open spec fn i16_at(input: Seq<u8>, pos: int) -> Result<(i16, int), ReadFailure> {
    match fixed_at(input, pos, 2) {
        Ok((b, p)) => Ok((u16_from_le(b) as i16, p)),
        Err(f) => Err(f),
    }
}

/// The little-endian `u32` at `pos`.
pub open spec fn u32_at(input: Seq<u8>, pos: int) -> Result<(u32, int), ReadFailure> {
    match fixed_at(input, pos, 4) {
        Ok((b, p)) => Ok((u32_from_le(b), p)),
        Err(f) => Err(f),
    }
}

/// The little-endian `i32` at `pos`.
pub open spec fn i32_at(input: Seq<u8>, pos: int) -> Result<(i32, int), ReadFailure> {
    match fixed_at(input, pos, 4) {
        Ok((b, p)) => Ok((u32_from_le(b) as i32, p)),
        Err(f) => Err(f),
    }
}

/// The little-endian `u64` at `pos`.
pub open spec fn u64_at(input: Seq<u8>, pos: int) -> Result<(u64, int), ReadFailure> {
    match fixed_at(input, pos, 8) {
        Ok((b, p)) => Ok((u64_from_le(b), p)),
        Err(f) => Err(f),
    }
}

/// The little-endian `i64` at `pos`.
pub open spec fn i64_at(input: Seq<u8>, pos: int) -> Result<(i64, int), ReadFailure> {
    match fixed_at(input, pos, 8) {
        Ok((b, p)) => Ok((u64_from_le(b) as i64, p)),
        Err(f) => Err(f),
    }
}

/// The length at `pos`: a little-endian `u64`. A length that no buffer of this machine
/// can hold counts as the end of input.
pub open spec fn len_at(input: Seq<u8>, pos: int) -> Result<(usize, int), ReadFailure> {
    match u64_at(input, pos) {
        Ok((n, p)) => if n <= usize::MAX {
            Ok((n as usize, p))
        } else {
            Err(ReadFailure::Eof)
        },
        Err(f) => Err(f),
    }
}

/// The byte string at `pos`: a length, then that many bytes.
pub open spec fn byte_string_at(input: Seq<u8>, pos: int) -> Result<(Seq<u8>, int), ReadFailure> {
    match len_at(input, pos) {
        Ok((n, p)) => fixed_at(input, p, n as int),
        Err(f) => Err(f),
    }
}

/// The text at `pos`: a byte string that must be valid UTF-8.
pub open spec fn text_at(input: Seq<u8>, pos: int) -> Result<(Seq<char>, int), ReadFailure> {
    match byte_string_at(input, pos) {
        Ok((b, p)) => if valid_utf8(b) {
            Ok((decode_utf8(b), p))
        } else {
            Err(ReadFailure::InvalidUtf8(b))
        },
        Err(f) => Err(f),
    }
}

/// The char at `pos`: a text of exactly one character.
pub open spec fn char_at(input: Seq<u8>, pos: int) -> Result<(char, int), ReadFailure> {
    match text_at(input, pos) {
        Ok((cs, p)) => if cs.len() == 0 {
            Err(ReadFailure::EmptyChar)
        } else if cs.len() > 1 {
            Err(ReadFailure::MultipleChars)
        } else {
            Ok((cs[0], p))
        },
        Err(f) => Err(f),
    }
}

/// The boolean at `pos`: one byte, `true` unless it is 0.
pub open spec fn bool_at(input: Seq<u8>, pos: int) -> Result<(bool, int), ReadFailure> {
    match u8_at(input, pos) {
        Ok((b, p)) => Ok((b != 0, p)),
        Err(f) => Err(f),
    }
}

/// The tag of an optional value at `pos`: 0 for absent (`false`), 1 for present (`true`).
pub open spec fn option_tag_at(input: Seq<u8>, pos: int) -> Result<(bool, int), ReadFailure> {
    match u8_at(input, pos) {
        Ok((t, p)) => if t == 0 {
            Ok((false, p))
        } else if t == 1 {
            Ok((true, p))
        } else {
            Err(ReadFailure::InvalidOptionTag(t))
        },
        Err(f) => Err(f),
    }
}

/// A read returned `r` and moved from `old_pos` to `new_pos` as the specification `s` says:
/// the value and the position after it, or an error that reports the failure and no move.
pub open spec fn read_outcome<T>(
    r: Result<T, StoreError>,
    s: Result<(T, int), ReadFailure>,
    old_pos: int,
    new_pos: int,
) -> bool {
    match s {
        Ok((v, p)) => r == Ok::<T, StoreError>(v) && new_pos == p,
        Err(f) => r matches Err(e) && reports(e, f) && new_pos == old_pos,
    }
}

/// A deserializer that reads binary data compatible with the Haskell `store`
/// library's format (little-endian) from a byte slice.
pub struct StoreDeserializer<'a> {
    input: &'a [u8],
    pos: usize,
}

impl<'a> StoreDeserializer<'a> {
    #[verifier::type_invariant]
    spec fn position_in_input(&self) -> bool {
        self.pos <= self.input@.len()
    }

    /// The bytes being read.
    pub closed spec fn input(&self) -> Seq<u8> {
        self.input@
    }

    /// How many bytes have been read.
    pub closed spec fn pos(&self) -> int {
        self.pos as int
    }

    /// Creates a new deserializer reading from the start of `input`.
    pub fn new(input: &'a [u8]) -> (d: Self)
        ensures
            d.input() == input@,
            d.pos() == 0,
    {
        StoreDeserializer { input, pos: 0 }
    }

    /// The number of bytes read so far.
    pub fn position(&self) -> (p: usize)
        ensures
            p == self.pos(),
            p <= self.input().len(),
    {
        proof {
            use_type_invariant(self);
        }
        self.pos
    }

    /// Takes the next `n` bytes.
    fn take(&mut self, n: usize) -> (r: Result<&'a [u8], StoreError>)
        ensures
            final(self).input() == old(self).input(),
            match fixed_at(old(self).input(), old(self).pos(), n as int) {
                Ok((b, p)) => r matches Ok(s) && s@ == b && final(self).pos() == p,
                Err(f) => r matches Err(e) && reports(e, f)
                    && final(self).pos() == old(self).pos(),
            },
    {
        proof {
            use_type_invariant(&*self);
        }
        if n <= self.input.len() - self.pos {
            let s = slice_subrange(self.input, self.pos, self.pos + n);
            self.pos = self.pos + n;
            Ok(s)
        } else {
            Err(StoreError::Io(unexpected_eof()))
        }
    }

    /// Reads one byte.
    pub fn read_u8(&mut self) -> (r: Result<u8, StoreError>)
        ensures
            final(self).input() == old(self).input(),
            read_outcome(
                r,
                u8_at(old(self).input(), old(self).pos()),
                old(self).pos(),
                final(self).pos(),
            ),
    {
        let b = self.take(1)?;
        Ok(b[0])
    }

    /// Reads a signed byte.
    pub fn read_i8(&mut self) -> (r: Result<i8, StoreError>)
        ensures
            final(self).input() == old(self).input(),
            read_outcome(
                r,
                i8_at(old(self).input(), old(self).pos()),
                old(self).pos(),
                final(self).pos(),
            ),
    {
        let b = self.take(1)?;
        Ok(b[0] as i8)
    }

    /// Reads a little-endian `u16`.
    pub fn read_u16(&mut self) -> (r: Result<u16, StoreError>)
        ensures
            final(self).input() == old(self).input(),
            read_outcome(
                r,
                u16_at(old(self).input(), old(self).pos()),
                old(self).pos(),
                final(self).pos(),
            ),
    {
        let b = self.take(2)?;
        Ok(le_read_u16(b))
    }

    /// Reads a little-endian `i16`.
    pub fn read_i16(&mut self) -> (r: Result<i16, StoreError>)
        ensures
            final(self).input() == old(self).input(),
            read_outcome(
                r,
                i16_at(old(self).input(), old(self).pos()),
                old(self).pos(),
                final(self).pos(),
            ),
    {
        let b = self.take(2)?;
        Ok(le_read_u16(b) as i16)
    }

    /// Reads a little-endian `u32`.
    pub fn read_u32(&mut self) -> (r: Result<u32, StoreError>)
        ensures
            final(self).input() == old(self).input(),
            read_outcome(
                r,
                u32_at(old(self).input(), old(self).pos()),
                old(self).pos(),
                final(self).pos(),
            ),
    {
        let b = self.take(4)?;
        Ok(le_read_u32(b))
    }

    /// Reads a little-endian `i32`.
    pub fn read_i32(&mut self) -> (r: Result<i32, StoreError>)
        ensures
            final(self).input() == old(self).input(),
            read_outcome(
                r,
                i32_at(old(self).input(), old(self).pos()),
                old(self).pos(),
                final(self).pos(),
            ),
    {
        let b = self.take(4)?;
        Ok(le_read_u32(b) as i32)
    }

    /// Reads a little-endian `u64`.
    pub fn read_u64(&mut self) -> (r: Result<u64, StoreError>)
        ensures
            final(self).input() == old(self).input(),
            read_outcome(
                r,
                u64_at(old(self).input(), old(self).pos()),
                old(self).pos(),
                final(self).pos(),
            ),
    {
        let b = self.take(8)?;
        Ok(le_read_u64(b))
    }

    /// Reads a little-endian `i64`.
    pub fn read_i64(&mut self) -> (r: Result<i64, StoreError>)
        ensures
            final(self).input() == old(self).input(),
            read_outcome(
                r,
                i64_at(old(self).input(), old(self).pos()),
                old(self).pos(),
                final(self).pos(),
            ),
    {
        let b = self.take(8)?;
        Ok(le_read_u64(b) as i64)
    }
    /// Reads a length: a little-endian `u64` that must fit in `usize`.
    pub fn read_len(&mut self) -> (r: Result<usize, StoreError>)
        ensures
            final(self).input() == old(self).input(),
            read_outcome(
                r,
                len_at(old(self).input(), old(self).pos()),
                old(self).pos(),
                final(self).pos(),
            ),
    {
        proof {
            use_type_invariant(&*self);
        }
        let start = self.pos;
        let n = self.read_u64()?;
        if n <= usize::MAX as u64 {
            Ok(n as usize)
        } else {
            self.pos = start;
            Err(StoreError::Io(unexpected_eof()))
        }
    }

    /// Reads a byte string: a length, then that many bytes.
    pub fn read_bytes(&mut self) -> (r: Result<Vec<u8>, StoreError>)
        ensures
            final(self).input() == old(self).input(),
            match byte_string_at(old(self).input(), old(self).pos()) {
                Ok((b, p)) => r matches Ok(v) && v@ == b && final(self).pos() == p,
                Err(f) => r matches Err(e) && reports(e, f)
                    && final(self).pos() == old(self).pos(),
            },
    {
        proof {
            use_type_invariant(&*self);
        }
        let start = self.pos;
        let n = self.read_len()?;
        match self.take(n) {
            Ok(b) => Ok(slice_to_vec(b)),
            Err(e) => {
                self.pos = start;
                Err(e)
            },
        }
    }

    /// Reads text: a byte string that must be valid UTF-8.
    pub fn read_text(&mut self) -> (r: Result<String, StoreError>)
        ensures
            final(self).input() == old(self).input(),
            match text_at(old(self).input(), old(self).pos()) {
                Ok((cs, p)) => r matches Ok(s) && s@ == cs && final(self).pos() == p,
                Err(f) => r matches Err(e) && reports(e, f)
                    && final(self).pos() == old(self).pos(),
            },
    {
        proof {
            use_type_invariant(&*self);
        }
        let start = self.pos;
        let b = self.read_bytes()?;
        let ghost bytes = b@;
        match string_from_utf8(b) {
            Ok(s) => Ok(s),
            Err(m) => {
                self.pos = start;
                Err(invalid_utf8(m, Ghost(bytes)))
            },
        }
    }

    /// Reads a boolean: one byte, `true` unless it is 0.
    pub fn deserialize_bool(&mut self) -> (r: Result<bool, StoreError>)
        ensures
            final(self).input() == old(self).input(),
            read_outcome(
                r,
                bool_at(old(self).input(), old(self).pos()),
                old(self).pos(),
                final(self).pos(),
            ),
    {
        let b = self.read_u8()?;
        Ok(b != 0)
    }

    /// Reads a char: a text that must hold exactly one character.
    pub fn deserialize_char(&mut self) -> (r: Result<char, StoreError>)
        ensures
            final(self).input() == old(self).input(),
            read_outcome(
                r,
                char_at(old(self).input(), old(self).pos()),
                old(self).pos(),
                final(self).pos(),
            ),
    {
        broadcast use vstd::string::axiom_spec_iter, vstd::string::next_postcondition;

        proof {
            use_type_invariant(&*self);
        }
        let start = self.pos;
        let s = self.read_text()?;
        let mut chars = s.as_str().chars();
        match chars.next() {
            None => {
                self.pos = start;
                Err(message_error(String::from_str("Empty string when deserializing char")))
            },
            Some(c) => match chars.next() {
                Some(_) => {
                    self.pos = start;
                    Err(
                        message_error(
                            String::from_str("Multiple characters when deserializing char"),
                        ),
                    )
                },
                None => Ok(c),
            },
        }
    }

    /// Reads the tag of an optional value: `false` for 0 (absent), `true` for 1 (present);
    /// any other tag is an error.
    pub fn deserialize_option(&mut self) -> (r: Result<bool, StoreError>)
        ensures
            final(self).input() == old(self).input(),
            read_outcome(
                r,
                option_tag_at(old(self).input(), old(self).pos()),
                old(self).pos(),
                final(self).pos(),
            ),
    {
        proof {
            use_type_invariant(&*self);
        }
        let start = self.pos;
        let t = self.read_u8()?;
        if t == 0 {
            Ok(false)
        } else if t == 1 {
            Ok(true)
        } else {
            self.pos = start;
            let mut m = String::from_str("Invalid option tag: ");
            append_decimal(&mut m, t as u64);
            Err(message_error(m))
        }
    }

    /// The format is not self-describing: a read that does not say what it expects fails
    /// with this error, and reads nothing.
    pub fn deserialize_any(&self) -> (e: StoreError)
        ensures
            reports(e, ReadFailure::AnyUnsupported),
    {
        message_error(String::from_str("deserialize_any not supported by Store format"))
    }
}

/// A serde error carrying the message `m`.
fn message_error(m: String) -> (e: StoreError)
    ensures
        e matches StoreError::Serde(x) && x@ == m@,
{
    StoreError::Serde(m)
}

/// The error for text bytes that are not valid UTF-8, given the message of std's error.
fn invalid_utf8(detail: String, Ghost(bytes): Ghost<Seq<u8>>) -> (e: StoreError)
    requires
        detail@ == utf8_error_text(bytes),
    ensures
        reports(e, ReadFailure::InvalidUtf8(bytes)),
{
    let mut m = String::from_str("Invalid UTF-8: ");
    m.append(detail.as_str());
    StoreError::Serde(m)
}

/// Counts down the elements of a sequence, tuple, struct or map being read: the store
/// format gives their number up front (a length prefix, or the shape of a product).
pub struct StoreSeqAccess {
    remaining: usize,
}

impl StoreSeqAccess {
    /// How many elements are still to be read.
    pub closed spec fn remaining(&self) -> nat {
        self.remaining as nat
    }

    /// Starts counting `len` elements.
    pub fn new(len: usize) -> (a: Self)
        ensures
            a.remaining() == len,
    {
        StoreSeqAccess { remaining: len }
    }

    /// Whether another element is due; if one is, it is counted off.
    pub fn next_element(&mut self) -> (due: bool)
        ensures
            due == (old(self).remaining() > 0),
            due ==> final(self).remaining() == old(self).remaining() - 1,
            !due ==> final(self).remaining() == old(self).remaining(),
    {
        if self.remaining == 0 {
            false
        } else {
            self.remaining = self.remaining - 1;
            true
        }
    }

    /// The number of elements still to be read.
    pub fn size_hint(&self) -> (n: Option<usize>)
        ensures
            n == Some(self.remaining() as usize),
    {
        Some(self.remaining)
    }
}

} // verus!
