//! A flat JSON object/array codec that works on caller-owned buffers.
//!
//! Parsing scans a byte slice for one object (or array) whose members are
//! terminal values (string, integer, boolean, null); strings are unescaped
//! into a caller-provided escape buffer or an arena. Serialization renders
//! entries back to bytes and can resume from any byte offset of the full
//! output.
//!
//! - `value`: the terminal values and fields, and their models.
//! - `codec`: the escape table and the text of integers.
//! - `parse`: the scanner, stated as spec functions over bytes.
//! - `serialize`: the resumable writer, stated over the text it produces.
//! - `container`: objects and arrays over caller-chosen storage.
//! - `laws`: round trip, resumability, incremental parsing, capacity.
//! - `outside`: the calls into std and outside crates.
#![allow(unused_parens)]

pub mod codec;
pub mod container;
pub mod laws;
pub mod outside;
pub mod parse;
pub mod serialize;
pub mod value;

