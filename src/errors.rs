//! The errors of the binary decoder and of the text lexer and parser.

use crate::value::display::{nat_text, push_chars, table_view, text, write_digits, write_into};
use crate::value::{chars_of, string_from, Val, Value};
use vstd::prelude::*;

verus! {

#[verifier::external_type_specification]
#[verifier::external_body]
pub struct ExUtf8Error(std::str::Utf8Error);

/// Why bytes could not be decoded.
#[derive(Debug)]
pub enum DecodeError {
    /// A byte that starts no item, with the number of bytes left from it on.
    UnexpectedByteError(u8, u64),
    /// The input ended inside an item.
    EOFError,
    /// An object in long form ended after a key with no value.
    UnmatchedKeyError(String),
    /// A string payload is not valid UTF-8.
    StringDecodeError(std::str::Utf8Error),
    /// An object key decoded to something other than a string.
    InvalidKeyError(Value),
}

/// The model of a [`DecodeError`].
pub enum DecodeFault {
    UnexpectedByte(u8, u64),
    Eof,
    UnmatchedKey(Seq<char>),
    BadUtf8,
    InvalidKey(Val),
}

impl View for DecodeError {
    type V = DecodeFault;

    open spec fn view(&self) -> DecodeFault {
        match self {
            DecodeError::UnexpectedByteError(b, l) => DecodeFault::UnexpectedByte(*b, *l),
            DecodeError::EOFError => DecodeFault::Eof,
            DecodeError::UnmatchedKeyError(k) => DecodeFault::UnmatchedKey(k@),
            DecodeError::StringDecodeError(_) => DecodeFault::BadUtf8,
            DecodeError::InvalidKeyError(v) => DecodeFault::InvalidKey(v@),
        }
    }
}

/// Why text could not be lexed or parsed.
#[derive(Debug)]
pub enum ParseError {
    /// The text or the tokens ended inside a value.
    EOFError,
    /// A character that starts no token.
    UnexpectedCharacterError(char),
    /// A token that does not fit where it stands.
    UnexpectedTokenError(String),
    /// An object key that is not a string.
    InvalidKeyError(Value),
    /// A numeric literal out of its type's range or malformed, with its
    /// last character.
    InvalidNumberError(char),
}

/// The model of a [`ParseError`].
pub enum ParseFault {
    Eof,
    UnexpectedCharacter(char),
    UnexpectedToken(Seq<char>),
    InvalidKey(Val),
    InvalidNumber(char),
}

impl View for ParseError {
    type V = ParseFault;

    open spec fn view(&self) -> ParseFault {
        match self {
            ParseError::EOFError => ParseFault::Eof,
            ParseError::UnexpectedCharacterError(c) => ParseFault::UnexpectedCharacter(*c),
            ParseError::UnexpectedTokenError(t) => ParseFault::UnexpectedToken(t@),
            ParseError::InvalidKeyError(v) => ParseFault::InvalidKey(v@),
            ParseError::InvalidNumberError(c) => ParseFault::InvalidNumber(*c),
        }
    }
}

/// A lowercase hexadecimal digit.
pub open spec fn hex_digit(d: nat) -> char {
    if d < 10 {
        ((d + 48) as u8) as char
    } else {
        ((d + 87) as u8) as char
    }
}

/// The lowercase hexadecimal digits of `n`.
pub open spec fn hex_text(n: nat) -> Seq<char>
    decreases n,
{
    if n < 16 {
        seq![hex_digit(n)]
    } else {
        hex_text(n / 16).push(hex_digit(n % 16))
    }
}

/// The message of a decode error. For a string that is no valid UTF-8 it
/// is the start of the message, which goes on with the UTF-8 error's own text.
pub open spec fn decode_error_text(f: DecodeFault, table: Seq<(u64, bool, Seq<char>)>) -> Seq<char> {
    match f {
        DecodeFault::UnexpectedByte(b, l) => "Unexpected Byte: 0x"@ + hex_text(b as nat)
            + " at location "@ + nat_text(l as nat),
        DecodeFault::Eof => "Unexpected EOF"@,
        DecodeFault::UnmatchedKey(k) => "Unmatched Key: `"@ + k + "`"@,
        DecodeFault::BadUtf8 => "Unable to decode string data: "@,
        DecodeFault::InvalidKey(v) => "Invalid Key: `"@ + text(v, table) + "`"@,
    }
}

/// The message of a parse error.
pub open spec fn parse_error_text(f: ParseFault, table: Seq<(u64, bool, Seq<char>)>) -> Seq<char> {
    match f {
        ParseFault::UnexpectedCharacter(c) => "Unexpected Character: '"@ + seq![c] + "'"@,
        ParseFault::UnexpectedToken(t) => "Unexpected Token: \""@ + t + "\""@,
        ParseFault::Eof => "Unexpected EOF"@,
        ParseFault::InvalidKey(v) => "Invalid Key: `"@ + text(v, table) + "`"@,
        ParseFault::InvalidNumber(c) => "Could not parse number with signifier: `"@ + seq![c] + "`"@,
    }
}

fn write_hex(n: u8, out: &mut Vec<char>)
    ensures
        final(out)@ == old(out)@ + hex_text(n as nat),
    decreases n,
{
    if n >= 16 {
        write_hex(n / 16, out);
    }
    let d = n % 16;
    let c = if d < 10 { ((d + 48) as u8) as char } else { ((d + 87) as u8) as char };
    out.push(c);
    assert(out@ =~= old(out)@ + hex_text(n as nat));
}

fn push_text(out: &mut Vec<char>, s: &str)
    ensures
        final(out)@ == old(out)@ + s@,
{
    let cs = chars_of(s);
    push_chars(out, cs.as_slice());
}

/// Relies on `std::str::Utf8Error`'s `Display`: the text that describes
/// the error.
#[verifier::external_body]
fn utf8_error_text(e: &std::str::Utf8Error) -> String {
    format!("{}", e)
}

/// The message of a decode error; `floats` gives the texts of the floats
/// of a value in it, as for [`crate::value::display::display`].
pub fn display_decode_error(val: &DecodeError, floats: &[(u64, bool, String)]) -> (r: String)
    ensures
        !(val@ is BadUtf8) ==> r@ == decode_error_text(val@, table_view(floats@)),
        val@ is BadUtf8 ==> r@.len() >= decode_error_text(val@, table_view(floats@)).len() && r@.subrange(
            0,
            decode_error_text(val@, table_view(floats@)).len() as int,
        ) == decode_error_text(val@, table_view(floats@)),
{
    let mut out: Vec<char> = Vec::new();
    match val {
        DecodeError::UnexpectedByteError(b, l) => {
            push_text(&mut out, "Unexpected Byte: 0x");
            write_hex(*b, &mut out);
            push_text(&mut out, " at location ");
            write_digits(*l as u128, &mut out);
        },
        DecodeError::EOFError => {
            push_text(&mut out, "Unexpected EOF");
        },
        DecodeError::UnmatchedKeyError(k) => {
            push_text(&mut out, "Unmatched Key: `");
            push_text(&mut out, k.as_str());
            push_text(&mut out, "`");
        },
        DecodeError::StringDecodeError(e) => {
            push_text(&mut out, "Unable to decode string data: ");
            let ghost head = out@;
            let t = utf8_error_text(e);
            push_text(&mut out, t.as_str());
            assert(out@.subrange(0, head.len() as int) =~= head);
        },
        DecodeError::InvalidKeyError(k) => {
            push_text(&mut out, "Invalid Key: `");
            write_into(k, floats, &mut out);
            push_text(&mut out, "`");
        },
    }
    assert(!(val@ is BadUtf8) ==> out@ =~= decode_error_text(val@, table_view(floats@)));
    string_from(out.as_slice())
}

/// The message of a parse error; `floats` gives the texts of the floats
/// of a value in it, as for [`crate::value::display::display`].
pub fn display_parse_error(val: &ParseError, floats: &[(u64, bool, String)]) -> (r: String)
    ensures
        r@ == parse_error_text(val@, table_view(floats@)),
{
    let mut out: Vec<char> = Vec::new();
    match val {
        ParseError::UnexpectedCharacterError(c) => {
            push_text(&mut out, "Unexpected Character: '");
            out.push(*c);
            push_text(&mut out, "'");
        },
        ParseError::UnexpectedTokenError(t) => {
            push_text(&mut out, "Unexpected Token: \"");
            push_text(&mut out, t.as_str());
            push_text(&mut out, "\"");
        },
        ParseError::EOFError => {
            push_text(&mut out, "Unexpected EOF");
        },
        ParseError::InvalidKeyError(k) => {
            push_text(&mut out, "Invalid Key: `");
            write_into(k, floats, &mut out);
            push_text(&mut out, "`");
        },
        ParseError::InvalidNumberError(c) => {
            push_text(&mut out, "Could not parse number with signifier: `");
            out.push(*c);
            push_text(&mut out, "`");
        },
    }
    assert(out@ =~= parse_error_text(val@, table_view(floats@)));
    string_from(out.as_slice())
}

} // verus!
