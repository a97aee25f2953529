//! Decoding of NUL-terminated, fixed-width string slots into a
//! dictionary-encoded column: an ordered key sequence referencing a
//! deduplicated table of unique values in first-occurrence order.
//!
//! The slot decoder ([`slot`]), the dictionary builder ([`builder`]) and
//! their composition ([`pipeline`]) are specified against the mathematical
//! model of dictionary encoding in [`dict`], where the encoding's laws are
//! stated and proved.

pub mod builder;
pub mod dict;
pub mod error;
pub mod pipeline;
pub mod slot;
