//! Canonical bencode serialization.
//!
//! Values are emitted in a deterministic binary form: length-prefixed byte
//! strings, `i...e` integer tokens, `l...e` lists and `d...e` dictionaries
//! whose keys appear in ascending byte order.  The [`Encodable`] trait is the
//! capability a type implements to describe its own serialization; the
//! [`Encoder`] driver owns the output buffer and enforces a nesting-depth
//! ceiling while a single top-level emission runs.
//!
//! Every emission function carries a contract relating the bytes it appends
//! to the abstract value model in [`value`], so byte-for-byte determinism is
//! proved rather than tested.

pub mod dict;
pub mod encodable;
pub mod encoder;
pub mod record;
pub mod value;

pub use dict::AsDict;
pub use encodable::{AsString, Encodable};
pub use encoder::{Encoder, Error, SingleItemEncoder};
pub use record::Foo;
