//! EMP: a compact binary format for JSON-like values, with a readable text
//! notation for the same values.
//!
//! - [`value`]: the value model, its mathematical view, and the text
//!   notation ([`value::parse`] lexes and parses, [`value::display`] writes).
//! - [`encode`] and [`decode`]: the binary codec.
//! - [`round_trip`] and [`text_round_trip`]: what the two formats give back.
//! - [`errors`]: the errors of decoding and parsing, and their messages.
//! - [`argument`]: what the command line asks for.
//!
//! Floats are held as their bit patterns; reading and writing their decimal
//! text is left to the caller, which hands the results in.

pub mod argument;
pub mod constants;
pub mod decode;
pub mod encode;
pub mod errors;
pub mod round_trip;
pub mod text_round_trip;
pub mod value;
