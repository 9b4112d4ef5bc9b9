//! Identifier tags of the binary format and characters of the text notation.

use vstd::prelude::*;

verus! {

/// Low-nibble tag of an object start.
pub const DICTIONARY_START: u8 = 0x00;
/// Tag of an object end marker (long form).
pub const DICTIONARY_END: u8 = 0x01;
/// Low-nibble tag of an array start.
pub const ARRAY_START: u8 = 0x02;
/// Tag of an array end marker (long form).
pub const ARRAY_END: u8 = 0x03;
/// Low-nibble tag of a string, and its end marker in long form.
pub const STRING: u8 = 0x04;
/// The whole byte of a null.
pub const NULL: u8 = 0x05;
/// Low-nibble tag of a bit.
pub const BIT: u8 = 0x07;
/// Low-nibble tag of a boolean.
pub const BOOLEAN: u8 = 0x08;
/// Low-nibble tag of a 32-bit integer.
pub const INT_32: u8 = 0x09;
/// Low-nibble tag of a 32-bit float.
pub const FLOAT: u8 = 0x0A;
/// Low-nibble tag of a 64-bit float.
pub const DOUBLE: u8 = 0x0B;
/// Low-nibble tag of a 64-bit integer.
pub const INT_64: u8 = 0x0C;
/// Low-nibble tag of a 16-bit integer.
pub const INT_16: u8 = 0x0D;
/// Low-nibble tag of an 8-bit integer.
pub const INT_8: u8 = 0x0E;

/// Suffix of a bit literal.
pub const EMP_BIT: char = 'b';
/// Suffix of an 8-bit integer literal.
pub const EMP_BYTE: char = 'B';
/// Suffix of a 64-bit integer literal.
pub const EMP_LONG: char = 'l';
/// Suffix of a 16-bit integer literal.
pub const EMP_SHORT: char = 's';
/// Suffix of a 32-bit float literal.
pub const EMP_FLOAT: char = 'f';
/// Suffix of a 64-bit float literal.
pub const EMP_DOUBLE: char = 'd';

} // verus!
