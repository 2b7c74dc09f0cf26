//! A verified codec for a compact, self-describing binary encoding of nested
//! trees built from four shapes: signed integers, byte strings, lists, and
//! key-sorted dictionaries.
//!
//! Decoding parses an untrusted byte buffer into a [`value::Value`] tree under
//! an explicit allocation budget; encoding serializes a tree back into its
//! canonical byte form; the projection layer offers fallible typed extraction
//! from a tree.

pub mod decoder;
pub mod encoder;
pub mod grammar;
pub mod into_str;
pub mod laws;
pub mod model;
pub mod render;
pub mod try_from_value;
pub mod value;

pub use into_str::IntoStr;
pub use try_from_value::TryFromValue;
pub use value::{Dict, Int, List, Str, Value};
