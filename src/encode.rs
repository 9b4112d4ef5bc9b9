//! Encoding values into EMP bytecode.
//!
//! Every item starts with an identifier byte: its low nibble is the type tag,
//! its high nibble carries a count, a payload or a sign and trim count.

use crate::constants;
use crate::value::{chars_of, entries_view, items_view, lemma_array_view, lemma_object_view, Val, Value};
use vstd::prelude::*;

verus! {

/// Whether a count of entries, elements or bytes fits in the identifier's
/// high nibble (short form, no end marker).
pub open spec fn short_form(n: nat) -> bool {
    1 <= n <= 15
}

/// A container or string: the identifier carries the count in short form;
/// in long form it carries 0 and `end` follows the body.
pub open spec fn framed(tag: u8, end: u8, n: nat, body: Seq<u8>) -> Seq<u8> {
    if short_form(n) {
        seq![(tag + n * 16) as u8] + body
    } else {
        seq![tag] + body + seq![end]
    }
}

/// The `w` bytes of `m` in big-endian order (`m` taken modulo `256^w`).
pub open spec fn be_bytes(m: nat, w: nat) -> Seq<u8>
    decreases w,
{
    if w == 0 {
        Seq::empty()
    } else {
        be_bytes(m / 256, (w - 1) as nat).push((m % 256) as u8)
    }
}

/// The number of leading zero bytes of `b`, leaving at least one byte.
pub open spec fn zero_prefix_len(b: Seq<u8>) -> nat
    decreases b.len(),
{
    if b.len() <= 1 || b[0] != 0 {
        0
    } else {
        1 + zero_prefix_len(b.subrange(1, b.len() as int))
    }
}

/// A number as sign and magnitude: the identifier holds the tag, the count
/// of trimmed leading zero bytes in bits 4 to 6 and the sign in bit 7; the
/// remaining bytes of the `w`-byte big-endian magnitude follow.
pub open spec fn trimmed(tag: u8, neg: bool, m: nat, w: nat) -> Seq<u8> {
    let b = be_bytes(m, w);
    let t = zero_prefix_len(b);
    seq![(tag + t * 16 + if neg { 128int } else { 0int }) as u8] + b.subrange(t as int, w as int)
}

/// The bytes a string leaves in the binary format: its ASCII characters
/// other than the string tag itself, one byte each.
pub open spec fn ascii_payload(s: Seq<char>) -> Seq<u8>
    decreases s.len(),
{
    if s.len() == 0 {
        Seq::empty()
    } else {
        let rest = ascii_payload(s.drop_last());
        let c = s.last();
        if (c as u32) < 128 && (c as u32) != 4 {
            rest.push(c as u8)
        } else {
            rest
        }
    }
}

/// The encoding of a string.
pub open spec fn enc_str(s: Seq<char>) -> Seq<u8> {
    let p = ascii_payload(s);
    framed(constants::STRING, constants::STRING, p.len(), p)
}

pub open spec fn abs(i: int) -> nat {
    if i < 0 {
        (-i) as nat
    } else {
        i as nat
    }
}

/// The encoding of a value.
pub open spec fn enc(v: Val) -> Seq<u8>
    decreases v,
{
    match v {
        Val::Null => seq![constants::NULL],
        Val::Bit(b) => seq![if b { 0x17u8 } else { 0x07u8 }],
        Val::Boolean(b) => seq![if b { 0x18u8 } else { 0x08u8 }],
        Val::Int8(i) => if 1 <= i <= 15 {
            seq![(constants::INT_8 + i * 16) as u8]
        } else {
            seq![constants::INT_8, i as u8]
        },
        Val::Int16(i) => trimmed(constants::INT_16, i < 0, abs(i as int), 2),
        Val::Int32(i) => trimmed(constants::INT_32, i < 0, abs(i as int), 4),
        Val::Int64(i) => trimmed(constants::INT_64, i < 0, abs(i as int), 8),
        Val::Float(f) => trimmed(constants::FLOAT, f >= 0x8000_0000, (f % 0x8000_0000) as nat, 4),
        Val::Double(d) => trimmed(
            constants::DOUBLE,
            d >= 0x8000_0000_0000_0000,
            (d % 0x8000_0000_0000_0000) as nat,
            8,
        ),
        Val::Str(s) => enc_str(s),
        Val::Array(a) => framed(constants::ARRAY_START, constants::ARRAY_END, a.len(), enc_seq(a)),
        Val::Object(o) => framed(
            constants::DICTIONARY_START,
            constants::DICTIONARY_END,
            o.len(),
            enc_entries(o),
        ),
    }
}

/// The encodings of `a`'s elements, one after another.
pub open spec fn enc_seq(a: Seq<Val>) -> Seq<u8>
    decreases a,
{
    if a.len() == 0 {
        Seq::empty()
    } else {
        enc(a[0]) + enc_seq(a.subrange(1, a.len() as int))
    }
}

/// Each entry as its key, encoded as a string, then its value.
pub open spec fn enc_entries(o: Seq<(Seq<char>, Val)>) -> Seq<u8>
    decreases o,
{
    if o.len() == 0 {
        Seq::empty()
    } else {
        enc_str(o[0].0) + enc(o[0].1) + enc_entries(o.subrange(1, o.len() as int))
    }
}

proof fn lemma_enc_seq_snoc(s: Seq<Val>, i: int)
    requires
        0 <= i < s.len(),
    ensures
        enc_seq(s.subrange(0, i + 1)) == enc_seq(s.subrange(0, i)) + enc(s[i]),
    decreases i,
{
    let u = s.subrange(0, i + 1);
    if i == 0 {
        assert(u.subrange(1, u.len() as int) =~= Seq::<Val>::empty());
        assert(s.subrange(0, 0) =~= Seq::<Val>::empty());
        assert(u[0] == s[0]);
        assert(enc_seq(u.subrange(1, u.len() as int)) == Seq::<u8>::empty());
        assert(enc_seq(u) =~= enc(s[0]));
    } else {
        let t = s.subrange(1, s.len() as int);
        lemma_enc_seq_snoc(t, i - 1);
        assert(u.subrange(1, u.len() as int) =~= t.subrange(0, i));
        let p = s.subrange(0, i);
        assert(p.subrange(1, p.len() as int) =~= t.subrange(0, i - 1));
        assert(enc_seq(u) =~= enc_seq(p) + enc(s[i]));
    }
}

proof fn lemma_enc_entries_snoc(s: Seq<(Seq<char>, Val)>, i: int)
    requires
        0 <= i < s.len(),
    ensures
        enc_entries(s.subrange(0, i + 1)) == enc_entries(s.subrange(0, i)) + enc_str(s[i].0) + enc(
            s[i].1,
        ),
    decreases i,
{
    let u = s.subrange(0, i + 1);
    if i == 0 {
        assert(u.subrange(1, u.len() as int) =~= Seq::<(Seq<char>, Val)>::empty());
        assert(s.subrange(0, 0) =~= Seq::<(Seq<char>, Val)>::empty());
        assert(u[0] == s[0]);
        assert(enc_entries(u.subrange(1, u.len() as int)) == Seq::<u8>::empty());
        assert(enc_entries(u) =~= enc_str(s[0].0) + enc(s[0].1));
    } else {
        let t = s.subrange(1, s.len() as int);
        lemma_enc_entries_snoc(t, i - 1);
        assert(u.subrange(1, u.len() as int) =~= t.subrange(0, i));
        let p = s.subrange(0, i);
        assert(p.subrange(1, p.len() as int) =~= t.subrange(0, i - 1));
        assert(enc_entries(u) =~= enc_entries(p) + enc_str(s[i].0) + enc(s[i].1));
    }
}

/// The `w` big-endian bytes of `m`.
fn be_bytes_of(m: u64, w: usize) -> (r: Vec<u8>)
    ensures
        r@ == be_bytes(m as nat, w as nat),
    decreases w,
{
    if w == 0 {
        Vec::new()
    } else {
        let mut r = be_bytes_of(m / 256, w - 1);
        r.push((m % 256) as u8);
        r
    }
}

/// The number of leading zero bytes of `val`, leaving at least one byte.
fn get_leading_zeros(val: &Vec<u8>) -> (r: usize)
    ensures
        r == zero_prefix_len(val@),
        val@.len() >= 1 ==> r < val@.len(),
{
    let mut out: usize = 0;
    assert(val@.subrange(0, val@.len() as int) =~= val@);
    while val.len() > 0 && out < val.len() - 1 && val[out] == 0
        invariant
            out <= val@.len(),
            val@.len() >= 1 ==> out < val@.len(),
            zero_prefix_len(val@) == out + zero_prefix_len(val@.subrange(out as int, val@.len() as int)),
        decreases val@.len() - out,
    {
        let ghost rest = val@.subrange(out as int, val@.len() as int);
        assert(rest.subrange(1, rest.len() as int) =~= val@.subrange(out + 1, val@.len() as int));
        out += 1;
    }
    proof {
        let rest = val@.subrange(out as int, val@.len() as int);
        assert(rest.len() <= 1 || rest[0] != 0);
    }
    out
}

/// Appends the sign-and-magnitude form of a number of `w` bytes.
fn encode_trimmed(tag: u8, neg: bool, m: u64, w: usize, out: &mut Vec<u8>)
    requires
        tag < 16,
        1 <= w <= 8,
    ensures
        final(out)@ == old(out)@ + trimmed(tag, neg, m as nat, w as nat),
{
    let bytes = be_bytes_of(m, w);
    let t = get_leading_zeros(&bytes);
    proof {
        lemma_be_bytes_len(m as nat, w as nat);
    }
    let sign: u8 = if neg { 128 } else { 0 };
    out.push(tag + (t as u8) * 16 + sign);
    let ghost start = out@;
    let mut i: usize = t;
    while i < w
        invariant
            t <= i <= w,
            bytes@.len() == w,
            out@ == start + bytes@.subrange(t as int, i as int),
        decreases w - i,
    {
        out.push(bytes[i]);
        assert(bytes@.subrange(t as int, i + 1) =~= bytes@.subrange(t as int, i as int).push(bytes@[i as int]));
        i += 1;
    }
    assert(out@ =~= old(out)@ + trimmed(tag, neg, m as nat, w as nat));
}

pub proof fn lemma_be_bytes_len(m: nat, w: nat)
    ensures
        be_bytes(m, w).len() == w,
    decreases w,
{
    if w > 0 {
        lemma_be_bytes_len(m / 256, (w - 1) as nat);
    }
}

/// Appends the encoding of a string.
fn encode_string(s: &String, out: &mut Vec<u8>)
    ensures
        final(out)@ == old(out)@ + enc_str(s@),
{
    let cs = chars_of(s.as_str());
    let mut payload: Vec<u8> = Vec::new();
    let mut i: usize = 0;
    while i < cs.len()
        invariant
            i <= cs@.len(),
            cs@ == s@,
            payload@ == ascii_payload(cs@.subrange(0, i as int)),
        decreases cs@.len() - i,
    {
        let c = cs[i];
        assert(cs@.subrange(0, i + 1).drop_last() =~= cs@.subrange(0, i as int));
        if (c as u32) < 128 && (c as u32) != 4 {
            payload.push(c as u8);
        }
        i += 1;
    }
    assert(cs@.subrange(0, cs@.len() as int) =~= s@);
    let n = payload.len();
    let short = 1 <= n && n <= 15;
    if short {
        out.push(constants::STRING + (n as u8) * 16);
    } else {
        out.push(constants::STRING);
    }
    let ghost start = out@;
    let mut j: usize = 0;
    while j < n
        invariant
            j <= n,
            n == payload@.len(),
            out@ == start + payload@.subrange(0, j as int),
        decreases n - j,
    {
        out.push(payload[j]);
        assert(payload@.subrange(0, j + 1) =~= payload@.subrange(0, j as int).push(payload@[j as int]));
        j += 1;
    }
    if !short {
        out.push(constants::STRING);
    }
    assert(payload@.subrange(0, n as int) =~= payload@);
    assert(out@ =~= old(out)@ + enc_str(s@));
}

/// Appends the encoding of `val` to `out`.
fn encode_into(val: &Value, out: &mut Vec<u8>)
    ensures
        final(out)@ == old(out)@ + enc(val@),
    decreases val,
{
    match val {
        Value::Null => out.push(constants::NULL),
        Value::Bit(b) => out.push(if *b { constants::BIT + 16 } else { constants::BIT }),
        Value::Boolean(b) => out.push(if *b { constants::BOOLEAN + 16 } else { constants::BOOLEAN }),
        Value::Int8(i) => {
            if 1 <= *i && *i <= 15 {
                out.push(constants::INT_8 + (*i as u8) * 16);
            } else {
                out.push(constants::INT_8);
                out.push(#[verifier::truncate] (*i as u8));
            }
            assert(out@ =~= old(out)@ + enc(val@));
        },
        Value::Int16(i) => {
            let m: u64 = if *i < 0 { (0i64 - *i as i64) as u64 } else { *i as u64 };
            encode_trimmed(constants::INT_16, *i < 0, m, 2, out);
        },
        Value::Int32(i) => {
            let m: u64 = if *i < 0 { (0i64 - *i as i64) as u64 } else { *i as u64 };
            encode_trimmed(constants::INT_32, *i < 0, m, 4, out);
        },
        Value::Int64(i) => {
            let m: u64 = if *i < 0 { (0i128 - *i as i128) as u64 } else { *i as u64 };
            encode_trimmed(constants::INT_64, *i < 0, m, 8, out);
        },
        Value::Float(f) => {
            encode_trimmed(constants::FLOAT, *f >= 0x8000_0000, (*f % 0x8000_0000) as u64, 4, out);
        },
        Value::Double(d) => {
            encode_trimmed(
                constants::DOUBLE,
                *d >= 0x8000_0000_0000_0000,
                *d % 0x8000_0000_0000_0000,
                8,
                out,
            );
        },
        Value::String(s) => encode_string(s, out),
        Value::Array(a) => {
            proof {
                lemma_array_view(a);
            }
            let ghost items = items_view(a@);
            let n = a.len();
            let short = 1 <= n && n <= 15;
            if short {
                out.push(constants::ARRAY_START + (n as u8) * 16);
            } else {
                out.push(constants::ARRAY_START);
            }
            let ghost start = out@;
            let mut i: usize = 0;
            while i < n
                invariant
                    i <= n,
                    n == a@.len(),
                    *val == Value::Array(*a),
                    items == items_view(a@),
                    out@ == start + enc_seq(items.subrange(0, i as int)),
                decreases n - i,
            {
                proof {
                    assert(decreases_to!(*val => val->Array_0));
                    assert(decreases_to!(*a => a@));
                    assert(decreases_to!(a@ => a@[i as int]));
                    lemma_enc_seq_snoc(items, i as int);
                }
                encode_into(&a[i], out);
                i += 1;
            }
            assert(items.subrange(0, n as int) =~= items);
            if !short {
                out.push(constants::ARRAY_END);
            }
            assert(out@ =~= old(out)@ + enc(val@));
        },
        Value::Object(o) => {
            proof {
                lemma_object_view(o);
            }
            let ghost entries = entries_view(o@);
            let n = o.len();
            let short = 1 <= n && n <= 15;
            if short {
                out.push(constants::DICTIONARY_START + (n as u8) * 16);
            } else {
                out.push(constants::DICTIONARY_START);
            }
            let ghost start = out@;
            let mut i: usize = 0;
            while i < n
                invariant
                    i <= n,
                    n == o@.len(),
                    *val == Value::Object(*o),
                    entries == entries_view(o@),
                    out@ == start + enc_entries(entries.subrange(0, i as int)),
                decreases n - i,
            {
                proof {
                    assert(decreases_to!(*val => val->Object_0));
                    assert(decreases_to!(*o => o@));
                    assert(decreases_to!(o@ => o@[i as int]));
                    assert(decreases_to!(o@[i as int] => o@[i as int].1));
                    lemma_enc_entries_snoc(entries, i as int);
                }
                let entry = &o[i];
                encode_string(&entry.0, out);
                encode_into(&entry.1, out);
                i += 1;
            }
            assert(entries.subrange(0, n as int) =~= entries);
            if !short {
                out.push(constants::DICTIONARY_END);
            }
            assert(out@ =~= old(out)@ + enc(val@));
        },
    }
}

proof fn lemma_zero_bytes(w: nat)
    ensures
        be_bytes(0, w) == Seq::new(w, |k: int| 0u8),
        w >= 1 ==> zero_prefix_len(be_bytes(0, w)) == w - 1,
    decreases w,
{
    if w > 0 {
        lemma_zero_bytes((w - 1) as nat);
        assert(be_bytes(0, w) =~= Seq::new(w, |k: int| 0u8));
        if w > 1 {
            let b = be_bytes(0, w);
            assert(b.subrange(1, b.len() as int) =~= be_bytes(0, (w - 1) as nat));
        }
    }
}

/// Zero keeps one payload byte: its identifier records all but one byte as
/// trimmed, and a single zero byte follows. So a 32-bit zero is
/// `0x39 0x00`.
pub proof fn lemma_zero_keeps_a_byte(tag: u8, w: nat)
    requires
        1 <= w <= 8,
    ensures
        trimmed(tag, false, 0, w) == seq![(tag + (w - 1) * 16) as u8, 0u8],
        enc(Val::Int32(0)) == seq![0x39u8, 0x00u8],
{
    lemma_zero_bytes(w);
    assert(be_bytes(0, w).subrange(w - 1, w as int) =~= seq![0u8]);
    assert(trimmed(tag, false, 0, w) =~= seq![(tag + (w - 1) * 16) as u8, 0u8]);
    lemma_zero_bytes(4);
    assert(be_bytes(0, 4).subrange(3, 4) =~= seq![0u8]);
    assert(abs(0) == 0);
    assert(enc(Val::Int32(0)) =~= seq![0x39u8, 0x00u8]);
}

/// An 8-bit integer in `1..=15` takes one byte (it rides in the
/// identifier); any other takes two.
pub proof fn lemma_int8_width(i: i8)
    ensures
        enc(Val::Int8(i)).len() == if 1 <= i <= 15 {
            1int
        } else {
            2int
        },
{
}

/// An array of 1 to 15 elements is in short form: its count in the
/// identifier and no end marker. Any other, the empty one and one of 16
/// elements included, is in long form and ends with the end marker.
pub proof fn lemma_array_form(a: Seq<Val>)
    ensures
        short_form(a.len()) ==> enc(Val::Array(a)) == seq![(constants::ARRAY_START + a.len() * 16) as u8]
            + enc_seq(a),
        !short_form(a.len()) ==> enc(Val::Array(a)) == seq![constants::ARRAY_START] + enc_seq(a) + seq![
            constants::ARRAY_END,
        ],
        a.len() == 15 ==> short_form(a.len()),
        a.len() == 16 || a.len() == 0 ==> !short_form(a.len()),
{
}

/// Encodes a value into EMP bytecode.
pub fn encode(val: Value) -> (r: Vec<u8>)
    ensures
        r@ == enc(val@),
{
    let mut out: Vec<u8> = Vec::new();
    encode_into(&val, &mut out);
    assert(out@ =~= enc(val@));
    out
}

} // verus!
