//! A binary serialization format compatible with the Haskell `store` library.
//!
//! Every fixed-width integer is written little-endian; strings, byte strings and
//! collections carry a `u64` little-endian length prefix; `Option` uses a one-byte
//! tag; sum types carry a `u64` little-endian variant index; products are written
//! field after field with no prefix.

pub mod bytes;
pub mod error;
pub mod serializer;
pub mod text;
pub mod deserializer;
pub mod ordered_map;
pub mod interop;
pub mod value;

pub use ordered_map::OrderedMap;
pub use value::{from_bytes, to_bytes};
