//! An immutable, UTF-8 validated string that shares its storage.
//!
//! A [`ByteStr`] is a handle onto a reference-counted byte buffer. Cloning it
//! and taking sub-strings of it never copy the text: both only produce new
//! handles onto the same storage. Every operation is specified over the byte
//! sequence that the handle exposes and over the text which that sequence
//! encodes.

pub mod buffer;
pub mod helper;
pub mod impls;
pub mod laws;
pub mod lemmas;
pub mod order;
pub mod string;
pub mod text;
pub mod words;

pub use crate::string::{ByteStr, DecodeError, ValidationError};
