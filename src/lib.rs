//! A compact codec between a small tagged value model and a CBOR-like byte
//! encoding: definite-length unsigned integers, byte strings, text strings,
//! arrays, maps keyed by text, and null.

pub mod bytes;
pub mod error;
pub mod value;
pub mod grammar;
pub mod io;
pub mod de;
pub mod ser;
pub mod laws;
