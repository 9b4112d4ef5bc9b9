//! Decoding EMP bytecode.
//!
//! The decoder reads one item from the front of a byte slice and reports how
//! far it read. The models below work on the whole input and a position in it.

use crate::constants;
use crate::errors::{DecodeError, DecodeFault};
use crate::value::{
    entries_view, entry_insert, insert_entry, items_view, lemma_array_view, lemma_object_view,
    Val, Value,
};
use vstd::prelude::*;
use vstd::utf8::{decode_utf8, valid_utf8};

verus! {

/// The number that big-endian bytes stand for.
pub open spec fn be_val(s: Seq<u8>) -> nat
    decreases s.len(),
{
    if s.len() == 0 {
        0
    } else {
        be_val(s.drop_last()) * 256 + s.last() as nat
    }
}

/// `s` with zero bytes in front, up to `n` bytes in all.
pub open spec fn pad_to(s: Seq<u8>, n: nat) -> Seq<u8> {
    Seq::new((n - s.len()) as nat, |i: int| 0u8) + s
}

/// The sign and magnitude of a number of `w` bytes whose identifier is at
/// `p`, and the position after it.
pub open spec fn dec_magnitude(b: Seq<u8>, p: nat, w: nat) -> Result<(bool, nat, nat), DecodeFault> {
    let id = b[p as int];
    let t = (id / 16) % 8;
    if t > w {
        Err(DecodeFault::UnexpectedByte(id, (b.len() - p) as u64))
    } else if p + 1 + (w - t) > b.len() {
        Err(DecodeFault::Eof)
    } else {
        let end = (p + 1 + (w - t)) as nat;
        Ok((id >= 128, be_val(pad_to(b.subrange(p + 1 as int, end as int), w)), end))
    }
}

/// A signed number from its sign and magnitude, wrapped to `w` bytes.
pub open spec fn signed(neg: bool, m: nat) -> int {
    if neg {
        -(m as int)
    } else {
        m as int
    }
}

/// The first position at or after `q` that holds `x`.
pub open spec fn find_byte(b: Seq<u8>, q: int, x: u8) -> Option<nat>
    decreases b.len() - q,
{
    if q < 0 || q >= b.len() {
        None
    } else if b[q] == x {
        Some(q as nat)
    } else {
        find_byte(b, q + 1, x)
    }
}

/// A string from its payload bytes.
pub open spec fn dec_text(bytes: Seq<u8>) -> Result<Val, DecodeFault> {
    if valid_utf8(bytes) {
        Ok(Val::Str(decode_utf8(bytes)))
    } else {
        Err(DecodeFault::BadUtf8)
    }
}

/// An array from its elements and end position.
pub open spec fn as_array(r: Result<(Seq<Val>, nat), DecodeFault>) -> Result<(Val, nat), DecodeFault> {
    match r {
        Ok((a, e)) => Ok((Val::Array(a), e)),
        Err(f) => Err(f),
    }
}

/// An object from its entries and end position.
pub open spec fn as_object(r: Result<(Seq<(Seq<char>, Val)>, nat), DecodeFault>) -> Result<(Val, nat), DecodeFault> {
    match r {
        Ok((o, e)) => Ok((Val::Object(o), e)),
        Err(f) => Err(f),
    }
}

/// The item that starts at `p`, and the position after it.
/// (In the functions for containers below, an item always ends past where
/// it starts; the conditions on `e` only make the measure plain.)
pub open spec fn dec_at(b: Seq<u8>, p: nat) -> Result<(Val, nat), DecodeFault>
    decreases b.len() - p, 0nat,
{
    if p >= b.len() {
        Err(DecodeFault::Eof)
    } else {
        let id = b[p as int];
        let h = id / 16;
        let rem = (b.len() - p) as u64;
        let tag = id % 16;
        if tag == constants::DICTIONARY_START {
            let r = if h == 0 {
                obj_long(b, p + 1, None, Seq::empty())
            } else {
                obj_short(b, p + 1, h as nat, Seq::empty())
            };
            as_object(r)
        } else if tag == constants::ARRAY_START {
            let r = if h == 0 {
                arr_long(b, p + 1, Seq::empty())
            } else {
                arr_short(b, p + 1, h as nat, Seq::empty())
            };
            as_array(r)
        } else if tag == constants::STRING {
            if h == 0 {
                match find_byte(b, p + 1 as int, constants::STRING) {
                    None => Err(DecodeFault::Eof),
                    Some(q) => match dec_text(b.subrange(p + 1 as int, q as int)) {
                        Ok(v) => Ok((v, q + 1)),
                        Err(f) => Err(f),
                    },
                }
            } else if p + 1 + h > b.len() {
                Err(DecodeFault::Eof)
            } else {
                match dec_text(b.subrange(p + 1 as int, p + 1 + h as int)) {
                    Ok(v) => Ok((v, (p + 1 + h) as nat)),
                    Err(f) => Err(f),
                }
            }
        } else if tag == constants::NULL && h == 0 {
            Ok((Val::Null, p + 1))
        } else if tag == constants::BIT {
            Ok((Val::Bit(h == 1), p + 1))
        } else if tag == constants::BOOLEAN {
            Ok((Val::Boolean(h == 1), p + 1))
        } else if tag == constants::INT_8 {
            if h != 0 {
                Ok((Val::Int8(h as i8), p + 1))
            } else if p + 2 > b.len() {
                Err(DecodeFault::Eof)
            } else {
                Ok((Val::Int8(b[p + 1 as int] as i8), p + 2))
            }
        } else if tag == constants::INT_16 || tag == constants::INT_32 || tag == constants::INT_64
            || tag == constants::FLOAT || tag == constants::DOUBLE {
            let w: nat = if tag == constants::INT_16 {
                2
            } else if tag == constants::INT_32 || tag == constants::FLOAT {
                4
            } else {
                8
            };
            match dec_magnitude(b, p, w) {
                Err(f) => Err(f),
                Ok((neg, m, e)) => {
                    let v = if tag == constants::INT_16 {
                        Val::Int16(signed(neg, m) as i16)
                    } else if tag == constants::INT_32 {
                        Val::Int32(signed(neg, m) as i32)
                    } else if tag == constants::INT_64 {
                        Val::Int64(signed(neg, m) as i64)
                    } else if tag == constants::FLOAT {
                        Val::Float((if neg { m + 0x8000_0000 } else { m }) as u32)
                    } else {
                        Val::Double((if neg { m + 0x8000_0000_0000_0000 } else { m }) as u64)
                    };
                    Ok((v, e))
                },
            }
        } else {
            Err(DecodeFault::UnexpectedByte(id, rem))
        }
    }
}

/// The elements of an array in long form from `p` on, after those in `acc`,
/// up to and past its end marker.
pub open spec fn arr_long(b: Seq<u8>, p: nat, acc: Seq<Val>) -> Result<(Seq<Val>, nat), DecodeFault>
    decreases b.len() - p, 1nat,
{
    if p >= b.len() {
        Err(DecodeFault::Eof)
    } else if b[p as int] == constants::ARRAY_END {
        Ok((acc, p + 1))
    } else {
        match dec_at(b, p) {
            Err(f) => Err(f),
            Ok((v, e)) => if p < e <= b.len() {
                arr_long(b, e, acc.push(v))
            } else {
                Err(DecodeFault::Eof)
            },
        }
    }
}

/// The `k` elements of an array in short form from `p` on, after those in `acc`.
pub open spec fn arr_short(b: Seq<u8>, p: nat, k: nat, acc: Seq<Val>) -> Result<(Seq<Val>, nat), DecodeFault>
    decreases b.len() - p, 1nat,
{
    if k == 0 {
        Ok((acc, p))
    } else if p > b.len() {
        Err(DecodeFault::Eof)
    } else {
        match dec_at(b, p) {
            Err(f) => Err(f),
            Ok((v, e)) => if p < e <= b.len() {
                arr_short(b, e, (k - 1) as nat, acc.push(v))
            } else {
                Err(DecodeFault::Eof)
            },
        }
    }
}

/// The entries of an object in long form from `p` on: keys and values
/// alternate, `pending` is a key read and not yet paired.
pub open spec fn obj_long(
    b: Seq<u8>,
    p: nat,
    pending: Option<Seq<char>>,
    acc: Seq<(Seq<char>, Val)>,
) -> Result<(Seq<(Seq<char>, Val)>, nat), DecodeFault>
    decreases b.len() - p, 1nat,
{
    if p >= b.len() {
        Err(DecodeFault::Eof)
    } else if b[p as int] == constants::DICTIONARY_END {
        match pending {
            Some(k) => Err(DecodeFault::UnmatchedKey(k)),
            None => Ok((acc, p + 1)),
        }
    } else {
        match dec_at(b, p) {
            Err(f) => Err(f),
            Ok((v, e)) => if p < e <= b.len() {
                match pending {
                    Some(k) => obj_long(b, e, None, entry_insert(acc, k, v)),
                    None => match v {
                        Val::Str(s) => obj_long(b, e, Some(s), acc),
                        _ => Err(DecodeFault::InvalidKey(v)),
                    },
                }
            } else {
                Err(DecodeFault::Eof)
            },
        }
    }
}

/// The `k` entries of an object in short form from `p` on.
pub open spec fn obj_short(b: Seq<u8>, p: nat, k: nat, acc: Seq<(Seq<char>, Val)>) -> Result<
    (Seq<(Seq<char>, Val)>, nat),
    DecodeFault,
>
    decreases b.len() - p, 1nat,
{
    if k == 0 {
        Ok((acc, p))
    } else if p > b.len() {
        Err(DecodeFault::Eof)
    } else {
        match dec_at(b, p) {
            Err(f) => Err(f),
            Ok((kv, e)) => if p < e <= b.len() {
                match kv {
                    Val::Str(key) => match dec_at(b, e) {
                        Err(f) => Err(f),
                        Ok((v, e2)) => if e < e2 <= b.len() {
                            obj_short(b, e2, (k - 1) as nat, entry_insert(acc, key, v))
                        } else {
                            Err(DecodeFault::Eof)
                        },
                    },
                    _ => Err(DecodeFault::InvalidKey(kv)),
                }
            } else {
                Err(DecodeFault::Eof)
            },
        }
    }
}

/// `256^n`.
pub open spec fn pow256(n: nat) -> nat
    decreases n,
{
    if n == 0 {
        1
    } else {
        256 * pow256((n - 1) as nat)
    }
}

proof fn lemma_pow256_mono(i: nat, j: nat)
    requires
        i <= j,
    ensures
        pow256(i) <= pow256(j),
    decreases j,
{
    if i < j {
        lemma_pow256_mono(i, (j - 1) as nat);
    }
}

pub proof fn lemma_pow256_values()
    ensures
        pow256(2) == 0x1_0000,
        pow256(4) == 0x1_0000_0000,
        pow256(7) == 0x100_0000_0000_0000,
        pow256(8) == 0x1_0000_0000_0000_0000,
{
    reveal_with_fuel(pow256, 9);
}

/// Whether `r` is what the model `s` says: the same value and end position,
/// or the same error.
pub open spec fn decoded_as(r: Result<(Value, usize), DecodeError>, s: Result<(Val, nat), DecodeFault>) -> bool {
    match s {
        Ok((v, e)) => r is Ok && r->Ok_0.0@ == v && r->Ok_0.1 as nat == e,
        Err(f) => r is Err && r->Err_0@ == f,
    }
}

/// Relies on `std::str::from_utf8`: it succeeds exactly on valid UTF-8, and
/// then holds the characters that the bytes encode.
#[verifier::external_body]
fn utf8_string(b: &[u8]) -> (r: Result<String, std::str::Utf8Error>)
    ensures
        r is Ok <==> valid_utf8(b@),
        r is Ok ==> r->Ok_0@ == decode_utf8(b@),
{
    std::str::from_utf8(b).map(|s| s.to_owned())
}

/// `arr` with zero bytes in front, up to `n` bytes in all.
fn force_to_length(arr: &[u8], n: usize) -> (r: Vec<u8>)
    requires
        arr@.len() <= n,
    ensures
        r@ == pad_to(arr@, n as nat),
{
    let mut zero: Vec<u8> = Vec::new();
    while zero.len() + arr.len() < n
        invariant
            zero@ == Seq::new(zero@.len(), |i: int| 0u8),
            zero@.len() + arr@.len() <= n,
        decreases n - zero@.len(),
    {
        zero.push(0);
        assert(zero@ =~= Seq::new(zero@.len(), |i: int| 0u8));
    }
    let mut i: usize = 0;
    let ghost z = zero@;
    while i < arr.len()
        invariant
            i <= arr@.len(),
            zero@ == z + arr@.subrange(0, i as int),
        decreases arr@.len() - i,
    {
        zero.push(arr[i]);
        assert(arr@.subrange(0, i + 1) =~= arr@.subrange(0, i as int).push(arr@[i as int]));
        i += 1;
    }
    assert(zero@ =~= pad_to(arr@, n as nat));
    zero
}

proof fn lemma_be_val_bound(s: Seq<u8>)
    ensures
        be_val(s) < pow256(s.len()),
    decreases s.len(),
{
    if s.len() > 0 {
        lemma_be_val_bound(s.drop_last());
        let a = be_val(s.drop_last());
        let p = pow256(s.drop_last().len());
        assert(a * 256 + s.last() < 256 * p) by (nonlinear_arith)
            requires
                a < p,
                s.last() < 256,
        ;
    }
}

/// The number that big-endian bytes stand for.
fn be_value(s: &Vec<u8>) -> (r: u64)
    requires
        s@.len() <= 8,
    ensures
        r as nat == be_val(s@),
{
    let mut acc: u64 = 0;
    let mut i: usize = 0;
    assert(s@.subrange(0, 0) =~= Seq::<u8>::empty());
    while i < s.len()
        invariant
            i <= s@.len() <= 8,
            acc as nat == be_val(s@.subrange(0, i as int)),
        decreases s@.len() - i,
    {
        proof {
            lemma_be_val_bound(s@.subrange(0, i as int));
            lemma_pow256_mono(i as nat, 7);
            lemma_pow256_values();
            assert(s@.subrange(0, i + 1).drop_last() =~= s@.subrange(0, i as int));
        }
        acc = acc * 256 + s[i] as u64;
        i += 1;
    }
    assert(s@.subrange(0, s@.len() as int) =~= s@);
    acc
}

/// Reads the sign and magnitude of a number of `w` bytes whose identifier
/// is at `pos`.
fn decode_trimmed(bytes: &[u8], pos: usize, w: usize) -> (r: Result<(bool, u64, usize), DecodeError>)
    requires
        pos < bytes@.len(),
        1 <= w <= 8,
    ensures
        match dec_magnitude(bytes@, pos as nat, w as nat) {
            Ok((neg, m, e)) => r is Ok && r->Ok_0.0 == neg && r->Ok_0.1 as nat == m && r->Ok_0.2 as nat
                == e,
            Err(f) => r is Err && r->Err_0@ == f,
        },
        r is Ok ==> pos < r->Ok_0.2 <= bytes@.len() && (r->Ok_0.1 as nat) < pow256(w as nat),
{
    let id = bytes[pos];
    let t = ((id / 16) % 8) as usize;
    if t > w {
        return Err(DecodeError::UnexpectedByteError(id, (bytes.len() - pos) as u64));
    }
    let n = w - t;
    if n > bytes.len() - pos - 1 {
        return Err(DecodeError::EOFError);
    }
    let end = pos + 1 + n;
    let padded = force_to_length(&bytes[pos + 1..end], w);
    let m = be_value(&padded);
    proof {
        lemma_be_val_bound(padded@);
    }
    Ok((id >= 128, m, end))
}

fn decode_bit(bytes: &[u8], pos: usize) -> (r: Result<(Value, usize), DecodeError>)
    requires
        pos < bytes@.len(),
        bytes@[pos as int] % 16 == constants::BIT,
    ensures
        decoded_as(r, dec_at(bytes@, pos as nat)),
        r is Ok ==> pos < r->Ok_0.1 <= bytes@.len(),
{
    Ok((Value::Bit(bytes[pos] / 16 == 1), pos + 1))
}

fn decode_bool(bytes: &[u8], pos: usize) -> (r: Result<(Value, usize), DecodeError>)
    requires
        pos < bytes@.len(),
        bytes@[pos as int] % 16 == constants::BOOLEAN,
    ensures
        decoded_as(r, dec_at(bytes@, pos as nat)),
        r is Ok ==> pos < r->Ok_0.1 <= bytes@.len(),
{
    Ok((Value::Boolean(bytes[pos] / 16 == 1), pos + 1))
}

fn decode_null(bytes: &[u8], pos: usize) -> (r: Result<(Value, usize), DecodeError>)
    requires
        pos < bytes@.len(),
        bytes@[pos as int] % 16 == constants::NULL,
    ensures
        decoded_as(r, dec_at(bytes@, pos as nat)),
        r is Ok ==> pos < r->Ok_0.1 <= bytes@.len(),
{
    if bytes[pos] != constants::NULL {
        return Err(DecodeError::UnexpectedByteError(bytes[pos], (bytes.len() - pos) as u64));
    }
    Ok((Value::Null, pos + 1))
}

fn decode_int8(bytes: &[u8], pos: usize) -> (r: Result<(Value, usize), DecodeError>)
    requires
        pos < bytes@.len(),
        bytes@[pos as int] % 16 == constants::INT_8,
    ensures
        decoded_as(r, dec_at(bytes@, pos as nat)),
        r is Ok ==> pos < r->Ok_0.1 <= bytes@.len(),
{
    let h = bytes[pos] / 16;
    if h != 0 {
        return Ok((Value::Int8(h as i8), pos + 1));
    }
    if bytes.len() - pos < 2 {
        return Err(DecodeError::EOFError);
    }
    Ok((Value::Int8(#[verifier::truncate] (bytes[pos + 1] as i8)), pos + 2))
}

fn decode_int16(bytes: &[u8], pos: usize) -> (r: Result<(Value, usize), DecodeError>)
    requires
        pos < bytes@.len(),
        bytes@[pos as int] % 16 == constants::INT_16,
    ensures
        decoded_as(r, dec_at(bytes@, pos as nat)),
        r is Ok ==> pos < r->Ok_0.1 <= bytes@.len(),
{
    proof {
        lemma_pow256_values();
    }
    match decode_trimmed(bytes, pos, 2) {
        Err(e) => Err(e),
        Ok((neg, m, e)) => {
            let v: i32 = if neg { 0 - (m as i32) } else { m as i32 };
            Ok((Value::Int16(#[verifier::truncate] (v as i16)), e))
        },
    }
}

fn decode_int32(bytes: &[u8], pos: usize) -> (r: Result<(Value, usize), DecodeError>)
    requires
        pos < bytes@.len(),
        bytes@[pos as int] % 16 == constants::INT_32,
    ensures
        decoded_as(r, dec_at(bytes@, pos as nat)),
        r is Ok ==> pos < r->Ok_0.1 <= bytes@.len(),
{
    proof {
        lemma_pow256_values();
    }
    match decode_trimmed(bytes, pos, 4) {
        Err(e) => Err(e),
        Ok((neg, m, e)) => {
            let v: i64 = if neg { 0 - (m as i64) } else { m as i64 };
            Ok((Value::Int32(#[verifier::truncate] (v as i32)), e))
        },
    }
}

fn decode_int64(bytes: &[u8], pos: usize) -> (r: Result<(Value, usize), DecodeError>)
    requires
        pos < bytes@.len(),
        bytes@[pos as int] % 16 == constants::INT_64,
    ensures
        decoded_as(r, dec_at(bytes@, pos as nat)),
        r is Ok ==> pos < r->Ok_0.1 <= bytes@.len(),
{
    match decode_trimmed(bytes, pos, 8) {
        Err(e) => Err(e),
        Ok((neg, m, e)) => {
            let v: i128 = if neg { 0 - (m as i128) } else { m as i128 };
            Ok((Value::Int64(#[verifier::truncate] (v as i64)), e))
        },
    }
}

fn decode_float(bytes: &[u8], pos: usize) -> (r: Result<(Value, usize), DecodeError>)
    requires
        pos < bytes@.len(),
        bytes@[pos as int] % 16 == constants::FLOAT,
    ensures
        decoded_as(r, dec_at(bytes@, pos as nat)),
        r is Ok ==> pos < r->Ok_0.1 <= bytes@.len(),
{
    proof {
        lemma_pow256_values();
    }
    match decode_trimmed(bytes, pos, 4) {
        Err(e) => Err(e),
        Ok((neg, m, e)) => {
            let bits: u64 = if neg { m + 0x8000_0000 } else { m };
            Ok((Value::Float(#[verifier::truncate] (bits as u32)), e))
        },
    }
}

fn decode_double(bytes: &[u8], pos: usize) -> (r: Result<(Value, usize), DecodeError>)
    requires
        pos < bytes@.len(),
        bytes@[pos as int] % 16 == constants::DOUBLE,
    ensures
        decoded_as(r, dec_at(bytes@, pos as nat)),
        r is Ok ==> pos < r->Ok_0.1 <= bytes@.len(),
{
    match decode_trimmed(bytes, pos, 8) {
        Err(e) => Err(e),
        Ok((neg, m, e)) => {
            let bits: u128 = if neg { m as u128 + 0x8000_0000_0000_0000 } else { m as u128 };
            Ok((Value::Double(#[verifier::truncate] (bits as u64)), e))
        },
    }
}

fn decode_string(bytes: &[u8], pos: usize) -> (r: Result<(Value, usize), DecodeError>)
    requires
        pos < bytes@.len(),
        bytes@[pos as int] % 16 == constants::STRING,
    ensures
        decoded_as(r, dec_at(bytes@, pos as nat)),
        r is Ok ==> pos < r->Ok_0.1 <= bytes@.len(),
{
    let left = (bytes[pos] / 16) as usize;
    let (start, end, next) = if left == 0 {
        let mut q = pos + 1;
        while q < bytes.len() && bytes[q] != constants::STRING
            invariant
                pos < q <= bytes@.len(),
                find_byte(bytes@, pos + 1, constants::STRING) == find_byte(bytes@, q as int, constants::STRING),
            decreases bytes@.len() - q,
        {
            q += 1;
        }
        if q >= bytes.len() {
            return Err(DecodeError::EOFError);
        }
        (pos + 1, q, q + 1)
    } else {
        if left > bytes.len() - pos - 1 {
            return Err(DecodeError::EOFError);
        }
        (pos + 1, pos + 1 + left, pos + 1 + left)
    };
    match utf8_string(&bytes[start..end]) {
        Ok(s) => Ok((Value::String(s), next)),
        Err(e) => Err(DecodeError::StringDecodeError(e)),
    }
}

fn decode_array(bytes: &[u8], pos: usize) -> (r: Result<(Value, usize), DecodeError>)
    requires
        pos < bytes@.len(),
        bytes@[pos as int] % 16 == constants::ARRAY_START,
    ensures
        decoded_as(r, dec_at(bytes@, pos as nat)),
        r is Ok ==> pos < r->Ok_0.1 <= bytes@.len(),
    decreases bytes@.len() - pos, 1nat,
{
    let left = bytes[pos] / 16;
    let mut items: Vec<Value> = Vec::new();
    let mut p = pos + 1;
    assert(items_view(items@) =~= Seq::<Val>::empty());

    if left == 0 {
        while p < bytes.len() && bytes[p] != constants::ARRAY_END
            invariant
                pos < p <= bytes@.len(),
                dec_at(bytes@, pos as nat) == as_array(arr_long(bytes@, p as nat, items_view(items@))),
            decreases bytes@.len() - p,
        {
            match decode_at(bytes, p) {
                Err(e) => return Err(e),
                Ok((v, e)) => {
                    let ghost before = items_view(items@);
                    let ghost vv = v@;
                    items.push(v);
                    assert(items_view(items@) =~= before.push(vv));
                    p = e;
                },
            }
        }
        if p >= bytes.len() {
            return Err(DecodeError::EOFError);
        }
        proof {
            lemma_array_view(&items);
        }
        Ok((Value::Array(items), p + 1))
    } else {
        let mut k: u8 = left;
        while k > 0
            invariant
                pos < p <= bytes@.len(),
                dec_at(bytes@, pos as nat) == as_array(
                    arr_short(bytes@, p as nat, k as nat, items_view(items@)),
                ),
            decreases k,
        {
            match decode_at(bytes, p) {
                Err(e) => return Err(e),
                Ok((v, e)) => {
                    let ghost before = items_view(items@);
                    let ghost vv = v@;
                    items.push(v);
                    assert(items_view(items@) =~= before.push(vv));
                    p = e;
                },
            }
            k -= 1;
        }
        proof {
            lemma_array_view(&items);
        }
        Ok((Value::Array(items), p))
    }
}

/// The model of a pending key.
pub open spec fn key_view(k: Option<String>) -> Option<Seq<char>> {
    match k {
        Some(s) => Some(s@),
        None => None,
    }
}

fn decode_object(bytes: &[u8], pos: usize) -> (r: Result<(Value, usize), DecodeError>)
    requires
        pos < bytes@.len(),
        bytes@[pos as int] % 16 == constants::DICTIONARY_START,
    ensures
        decoded_as(r, dec_at(bytes@, pos as nat)),
        r is Ok ==> pos < r->Ok_0.1 <= bytes@.len(),
    decreases bytes@.len() - pos, 1nat,
{
    let left = bytes[pos] / 16;
    let mut entries: Vec<(String, Value)> = Vec::new();
    let mut p = pos + 1;
    assert(entries_view(entries@) =~= Seq::<(Seq<char>, Val)>::empty());
    if left == 0 {
        let mut pending: Option<String> = None;
        while p < bytes.len() && bytes[p] != constants::DICTIONARY_END
            invariant
                pos < p <= bytes@.len(),
                dec_at(bytes@, pos as nat) == as_object(
                    obj_long(bytes@, p as nat, key_view(pending), entries_view(entries@)),
                ),
            decreases bytes@.len() - p,
        {
            match decode_at(bytes, p) {
                Err(e) => return Err(e),
                Ok((v, e)) => {
                    p = e;
                    match pending {
                        Some(k) => {
                            insert_entry(&mut entries, k, v);
                            pending = None;
                        },
                        None => match v {
                            Value::String(s) => {
                                pending = Some(s);
                            },
                            other => return Err(DecodeError::InvalidKeyError(other)),
                        },
                    }
                },
            }
        }
        if p >= bytes.len() {
            return Err(DecodeError::EOFError);
        }
        match pending {
            Some(k) => Err(DecodeError::UnmatchedKeyError(k)),
            None => {
                proof {
                    lemma_object_view(&entries);
                }
                Ok((Value::Object(entries), p + 1))
            },
        }
    } else {
        let mut k: u8 = left;
        while k > 0
            invariant
                pos < p <= bytes@.len(),
                dec_at(bytes@, pos as nat) == as_object(
                    obj_short(bytes@, p as nat, k as nat, entries_view(entries@)),
                ),
            decreases k,
        {
            let key = match decode_at(bytes, p) {
                Err(e) => return Err(e),
                Ok((Value::String(s), e)) => {
                    p = e;
                    s
                },
                Ok((other, _)) => return Err(DecodeError::InvalidKeyError(other)),
            };
            match decode_at(bytes, p) {
                Err(e) => return Err(e),
                Ok((v, e)) => {
                    insert_entry(&mut entries, key, v);
                    p = e;
                },
            }
            k -= 1;
        }
        proof {
            lemma_object_view(&entries);
        }
        Ok((Value::Object(entries), p))
    }
}

/// Decodes the item at `pos`.
fn decode_at(bytes: &[u8], pos: usize) -> (r: Result<(Value, usize), DecodeError>)
    requires
        pos <= bytes@.len(),
    ensures
        decoded_as(r, dec_at(bytes@, pos as nat)),
        r is Ok ==> pos < r->Ok_0.1 <= bytes@.len(),
    decreases bytes@.len() - pos, 2nat,
{
    if pos >= bytes.len() {
        return Err(DecodeError::EOFError);
    }
    let tag = bytes[pos] % 16;
    if tag == constants::DICTIONARY_START {
        decode_object(bytes, pos)
    } else if tag == constants::ARRAY_START {
        decode_array(bytes, pos)
    } else if tag == constants::STRING {
        decode_string(bytes, pos)
    } else if tag == constants::NULL {
        decode_null(bytes, pos)
    } else if tag == constants::BIT {
        decode_bit(bytes, pos)
    } else if tag == constants::BOOLEAN {
        decode_bool(bytes, pos)
    } else if tag == constants::INT_8 {
        decode_int8(bytes, pos)
    } else if tag == constants::INT_16 {
        decode_int16(bytes, pos)
    } else if tag == constants::INT_32 {
        decode_int32(bytes, pos)
    } else if tag == constants::INT_64 {
        decode_int64(bytes, pos)
    } else if tag == constants::FLOAT {
        decode_float(bytes, pos)
    } else if tag == constants::DOUBLE {
        decode_double(bytes, pos)
    } else {
        Err(DecodeError::UnexpectedByteError(bytes[pos], (bytes.len() - pos) as u64))
    }
}

/// The item at the front of `b`, and how many bytes it takes.
pub open spec fn decode_front(b: Seq<u8>) -> Result<(Val, nat), DecodeFault> {
    dec_at(b, 0)
}

/// A 64-bit integer whose identifier announces more payload bytes than the
/// input holds fails with the end-of-input error.
pub proof fn lemma_truncated_int64(b: Seq<u8>)
    requires
        b.len() >= 1,
        b[0] % 16 == constants::INT_64,
        b.len() < 1 + 8 - (b[0] / 16) % 8,
    ensures
        decode_front(b) == Err::<(Val, nat), DecodeFault>(DecodeFault::Eof),
{
}

/// Decodes the item at the front of `bytes`; the slice returned with it is
/// what follows the item.
pub fn decode(bytes: &[u8]) -> (r: Result<(Value, &[u8]), DecodeError>)
    ensures
        match decode_front(bytes@) {
            Ok((v, n)) => r is Ok && r->Ok_0.0@ == v && r->Ok_0.1@ == bytes@.subrange(
                n as int,
                bytes@.len() as int,
            ),
            Err(f) => r is Err && r->Err_0@ == f,
        },
{
    match decode_at(bytes, 0) {
        Ok((v, e)) => Ok((v, &bytes[e..bytes.len()])),
        Err(e) => Err(e),
    }
}

/// Decodes the item at the front of `val`, or gives `Null` where that fails.
pub fn decode_safe(val: &[u8]) -> (r: Value)
    ensures
        match decode_front(val@) {
            Ok((v, _)) => r@ == v,
            Err(_) => r@ == Val::Null,
        },
{
    match decode(val) {
        Ok((c, _)) => c,
        Err(_) => Value::Null,
    }
}

} // verus!
