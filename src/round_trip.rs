//! The binary format gives back what it was given.

use crate::constants;
use crate::decode::{
    arr_long, arr_short, be_val, dec_at, dec_magnitude, decode_front, find_byte, lemma_pow256_values,
    obj_long, obj_short, pad_to, pow256,
};
use crate::encode::{
    abs, ascii_payload, be_bytes, enc, enc_entries, enc_seq, enc_str, lemma_be_bytes_len, trimmed,
    zero_prefix_len,
};
use crate::value::{entry_insert, key_index_from, keys_of, wf, Val};
use vstd::prelude::*;
use vstd::utf8::{
    decode_utf8, encode_utf8, encode_utf8_decode_utf8, encode_utf8_valid_utf8,
    is_ascii_chars_encode_utf8, valid_utf8,
};

verus! {

/// Text that the binary format keeps as it is: ASCII characters other than
/// the string tag.
pub open spec fn plain_text(s: Seq<char>) -> bool {
    forall|i: int| 0 <= i < s.len() ==> plain_char(#[trigger] s[i])
}

/// An ASCII character other than the string tag.
pub open spec fn plain_char(c: char) -> bool {
    (c as u32) < 128 && (c as u32) != 4
}

/// Where `x + y` stands in `b` from `p` on, `x` and `y` stand there too.
proof fn lemma_split(b: Seq<u8>, p: int, x: Seq<u8>, y: Seq<u8>)
    requires
        0 <= p,
        p + x.len() + y.len() <= b.len(),
        b.subrange(p, p + x.len() + y.len()) == x + y,
    ensures
        b.subrange(p, p + x.len()) == x,
        b.subrange(p + x.len(), p + x.len() + y.len()) == y,
{
    let w = b.subrange(p, p + x.len() + y.len());
    assert forall|k: int| 0 <= k < x.len() implies b[p + k] == x[k] by {
        assert(w[k] == b[p + k]);
        assert((x + y)[k] == x[k]);
    }
    assert forall|k: int| 0 <= k < y.len() implies b[p + x.len() + k] == y[k] by {
        assert(w[x.len() + k] == b[p + x.len() + k]);
        assert((x + y)[x.len() + k] == y[k]);
    }
    assert(b.subrange(p, p + x.len()) =~= x);
    assert(b.subrange(p + x.len(), p + x.len() + y.len()) =~= y);
}

/// Every string and key in `v` is plain text.
pub open spec fn plain(v: Val) -> bool
    decreases v,
{
    match v {
        Val::Str(s) => plain_text(s),
        Val::Array(a) => forall|i: int| 0 <= i < a.len() ==> plain(#[trigger] a[i]),
        Val::Object(o) => forall|i: int|
            #![trigger o[i]]
            0 <= i < o.len() ==> plain_text(o[i].0) && plain(o[i].1),
        _ => true,
    }
}

proof fn lemma_be_val_be_bytes(m: nat, w: nat)
    requires
        m < pow256(w),
    ensures
        be_val(be_bytes(m, w)) == m,
    decreases w,
{
    if w > 0 {
        let q = m / 256;
        let p = pow256((w - 1) as nat);
        assert(q < p && m == q * 256 + m % 256) by (nonlinear_arith)
            requires
                m < 256 * p,
                q == m / 256,
        ;
        lemma_be_val_be_bytes(q, (w - 1) as nat);
        let b = be_bytes(m, w);
        assert(b.drop_last() =~= be_bytes(q, (w - 1) as nat));
    }
}

proof fn lemma_zero_prefix(b: Seq<u8>)
    ensures
        b.len() >= 1 ==> zero_prefix_len(b) < b.len(),
        forall|k: int| 0 <= k < zero_prefix_len(b) ==> b[k] == 0,
    decreases b.len(),
{
    if b.len() > 1 && b[0] == 0 {
        let r = b.subrange(1, b.len() as int);
        lemma_zero_prefix(r);
        assert forall|k: int| 0 <= k < zero_prefix_len(b) implies b[k] == 0 by {
            if k > 0 {
                assert(b[k] == r[k - 1]);
            }
        }
    }
}

/// A number in sign-and-magnitude form reads back as its sign and magnitude.
proof fn lemma_trimmed(tag: u8, neg: bool, m: nat, w: nat, b: Seq<u8>, p: int)
    requires
        0 <= p,
        tag < 16,
        1 <= w <= 8,
        m < pow256(w),
        p + trimmed(tag, neg, m, w).len() <= b.len(),
        b.subrange(p, p + trimmed(tag, neg, m, w).len()) == trimmed(tag, neg, m, w),
    ensures
        b[p] % 16 == tag,
        b[p] / 16 != 0 || !neg,
        dec_magnitude(b, p as nat, w) == Ok::<(bool, nat, nat), crate::errors::DecodeFault>(
            (neg, m, (p + trimmed(tag, neg, m, w).len()) as nat),
        ),
{
    let be = be_bytes(m, w);
    lemma_be_bytes_len(m, w);
    lemma_zero_prefix(be);
    let t = zero_prefix_len(be);
    let enc = trimmed(tag, neg, m, w);
    let n: int = if neg { 128 } else { 0 };
    let idv: int = tag + t * 16 + n;
    assert(0 <= idv < 256);
    assert(b[p] == enc[0]);
    let id = b[p];
    assert(id as int == idv);
    assert(id % 16 == tag && (id / 16) % 8 == t && (id >= 128) == neg) by (nonlinear_arith)
        requires
            id as int == tag + t * 16 + n,
            tag < 16,
            t < 8,
            n == 0 || n == 128,
            neg == (n == 128),
    ;
    let end = p + 1 + (w - t);
    lemma_split(b, p, seq![enc[0]], be.subrange(t as int, w as int));
    assert(b.subrange(p + 1, end) == be.subrange(t as int, w as int));
    assert(pad_to(be.subrange(t as int, w as int), w) =~= be);
    lemma_be_val_be_bytes(m, w);
}

pub(crate) proof fn lemma_insert_new(acc: Seq<(Seq<char>, Val)>, k: Seq<char>, v: Val, i: int)
    requires
        0 <= i,
        forall|j: int| 0 <= j < acc.len() ==> (#[trigger] acc[j]).0 != k,
    ensures
        key_index_from(acc, k, i) == -1,
    decreases acc.len() - i,
{
    if i < acc.len() {
        lemma_insert_new(acc, k, v, i + 1);
    }
}

proof fn lemma_find_byte(b: Seq<u8>, q: int, e: int, x: u8)
    requires
        0 <= q <= e < b.len(),
        b[e] == x,
        forall|k: int| q <= k < e ==> b[k] != x,
    ensures
        find_byte(b, q, x) == Some(e as nat),
    decreases e - q,
{
    if q < e {
        lemma_find_byte(b, q + 1, e, x);
    }
}

proof fn lemma_ascii_payload(s: Seq<char>)
    requires
        plain_text(s),
    ensures
        ascii_payload(s) == encode_utf8(s),
        ascii_payload(s).len() == s.len(),
        forall|i: int| 0 <= i < s.len() ==> #[trigger] ascii_payload(s)[i] != 4,
        valid_utf8(ascii_payload(s)),
        decode_utf8(ascii_payload(s)) == s,
{
    lemma_ascii_bytes(s);
    let pl = ascii_payload(s);
    assert forall|i: int| 0 <= i < s.len() implies '\0' <= #[trigger] s[i] <= '\u{7f}' by {
        assert(plain_char(s[i]));
        lemma_plain_char(s[i]);
    }
    is_ascii_chars_encode_utf8(s);
    assert(pl =~= encode_utf8(s));
    encode_utf8_valid_utf8(s);
    encode_utf8_decode_utf8(s);
}

proof fn lemma_plain_char(c: char)
    requires
        plain_char(c),
    ensures
        '\0' <= c <= '\u{7f}',
        (c as u8) as u32 == c as u32,
        c as u8 != 4,
{
    assert((c as u8) as u32 == c as u32);
}

proof fn lemma_ascii_bytes(s: Seq<char>)
    requires
        plain_text(s),
    ensures
        ascii_payload(s).len() == s.len(),
        forall|i: int| 0 <= i < s.len() ==> #[trigger] ascii_payload(s)[i] == s[i] as u8,
        forall|i: int| 0 <= i < s.len() ==> #[trigger] ascii_payload(s)[i] != 4,
    decreases s.len(),
{
    if s.len() > 0 {
        let d = s.drop_last();
        assert forall|i: int| 0 <= i < d.len() implies plain_char(#[trigger] d[i]) by {
            assert(d[i] == s[i]);
        }
        lemma_ascii_bytes(d);
        let c = s.last();
        assert(plain_char(s[s.len() - 1]));
        assert(plain_char(c));
        let pl = ascii_payload(s);
        assert(pl == ascii_payload(d).push(c as u8));
        assert forall|i: int| 0 <= i < s.len() implies #[trigger] pl[i] == s[i] as u8 && pl[i] != 4 by {
            assert(plain_char(s[i]));
            lemma_plain_char(s[i]);
            if i < s.len() - 1 {
                assert(d[i] == s[i]);
                assert(pl[i] == ascii_payload(d)[i]);
            }
        }
    }
}

/// A string reads back as itself.
proof fn lemma_dec_str(s: Seq<char>, b: Seq<u8>, p: int)
    requires
        0 <= p,
        plain_text(s),
        p + enc_str(s).len() <= b.len(),
        b.subrange(p, p + enc_str(s).len()) == enc_str(s),
    ensures
        dec_at(b, p as nat) == Ok::<(Val, nat), crate::errors::DecodeFault>((Val::Str(s), (p + enc_str(s).len()) as nat)),
{
    lemma_ascii_payload(s);
    let pl = ascii_payload(s);
    let n = pl.len();
    let e = enc_str(s);
    assert(b[p] == e[0]);
    if 1 <= n <= 15 {
        assert(b[p] == (4 + n * 16) as u8);
        assert(b[p] % 16 == 4 && b[p] / 16 == n);
        lemma_split(b, p, seq![e[0]], pl);
    } else {
        assert(b[p] == 4);
        lemma_split(b, p, seq![e[0]] + pl, seq![4u8]);
        lemma_split(b, p, seq![e[0]], pl);
        assert(b[p + 1 + n] == e[n + 1 as int]);
        assert forall|k: int| p + 1 <= k < p + 1 + n implies b[k] != 4 by {
            assert(b[k] == e[k - p]);
            assert(e[k - p] == pl[k - p - 1]);
        }
        lemma_find_byte(b, p + 1, p + 1 + n, 4);
    }
}

proof fn lemma_enc_nonempty(v: Val)
    ensures
        enc(v).len() >= 1,
{
    match v {
        Val::Int16(i) => lemma_be_bytes_len(abs(i as int), 2),
        Val::Int32(i) => lemma_be_bytes_len(abs(i as int), 4),
        Val::Int64(i) => lemma_be_bytes_len(abs(i as int), 8),
        Val::Float(f) => lemma_be_bytes_len((f % 0x8000_0000) as nat, 4),
        Val::Double(d) => lemma_be_bytes_len((d % 0x8000_0000_0000_0000) as nat, 8),
        _ => {},
    }
}

/// Null, bits, booleans and 8-bit integers read back as themselves.
proof fn lemma_dec_small(v: Val, b: Seq<u8>, p: int)
    requires
        0 <= p,
        v is Null || v is Bit || v is Boolean || v is Int8,
        p + enc(v).len() <= b.len(),
        b.subrange(p, p + enc(v).len()) == enc(v),
    ensures
        dec_at(b, p as nat) == Ok::<(Val, nat), crate::errors::DecodeFault>((v, (p + enc(v).len()) as nat)),
{
    let e = enc(v);
    assert(b[p] == e[0]);
    match v {
        Val::Int8(i) => {
            if 1 <= i <= 15 {
                assert(b[p] % 16 == 14 && b[p] / 16 == i);
            } else {
                assert(b[p + 1] == e[1]);
                assert(((i as u8) as i8) == i) by (bit_vector);
            }
        },
        _ => {},
    }
}

/// Numbers in sign-and-magnitude form read back as themselves.
#[verifier::rlimit(40)]
proof fn lemma_dec_number(v: Val, b: Seq<u8>, p: int)
    requires
        0 <= p,
        v is Int16 || v is Int32 || v is Int64 || v is Float || v is Double,
        p + enc(v).len() <= b.len(),
        b.subrange(p, p + enc(v).len()) == enc(v),
    ensures
        dec_at(b, p as nat) == Ok::<(Val, nat), crate::errors::DecodeFault>((v, (p + enc(v).len()) as nat)),
{
    lemma_pow256_values();
    match v {
        Val::Int16(i) => {
            lemma_trimmed(constants::INT_16, i < 0, abs(i as int), 2, b, p);
        },
        Val::Int32(i) => {
            lemma_trimmed(constants::INT_32, i < 0, abs(i as int), 4, b, p);
        },
        Val::Int64(i) => {
            lemma_trimmed(constants::INT_64, i < 0, abs(i as int), 8, b, p);
        },
        Val::Float(f) => {
            lemma_trimmed(constants::FLOAT, f >= 0x8000_0000, (f % 0x8000_0000) as nat, 4, b, p);
        },
        Val::Double(d) => {
            lemma_trimmed(
                constants::DOUBLE,
                d >= 0x8000_0000_0000_0000,
                (d % 0x8000_0000_0000_0000) as nat,
                8,
                b,
                p,
            );
        },
        _ => {},
    }
}

/// A value reads back as itself, from wherever its encoding stands.
proof fn lemma_dec_enc(v: Val, b: Seq<u8>, p: int)
    requires
        0 <= p,
        wf(v),
        plain(v),
        p + enc(v).len() <= b.len(),
        b.subrange(p, p + enc(v).len()) == enc(v),
    ensures
        dec_at(b, p as nat) == Ok::<(Val, nat), crate::errors::DecodeFault>((v, (p + enc(v).len()) as nat)),
    decreases v, 0nat,
{
    match v {
        Val::Str(s) => lemma_dec_str(s, b, p),
        Val::Array(a) => lemma_dec_array(a, b, p),
        Val::Object(o) => lemma_dec_object(o, b, p),
        Val::Int16(_) | Val::Int32(_) | Val::Int64(_) | Val::Float(_) | Val::Double(_) => lemma_dec_number(v, b, p),
        _ => lemma_dec_small(v, b, p),
    }
}

proof fn lemma_dec_array(a: Seq<Val>, b: Seq<u8>, p: int)
    requires
        0 <= p,
        wf(Val::Array(a)),
        plain(Val::Array(a)),
        p + enc(Val::Array(a)).len() <= b.len(),
        b.subrange(p, p + enc(Val::Array(a)).len()) == enc(Val::Array(a)),
    ensures
        dec_at(b, p as nat) == Ok::<(Val, nat), crate::errors::DecodeFault>(
            (Val::Array(a), (p + enc(Val::Array(a)).len()) as nat),
        ),
    decreases a, 1nat,
{
    let e = enc(Val::Array(a));
    assert(b[p] == e[0]);
    let body = enc_seq(a);
    let n = a.len();
    if 1 <= n <= 15 {
        lemma_split(b, p, seq![e[0]], body);
        assert(b[p] % 16 == 2 && b[p] / 16 == n);
        lemma_dec_items_short(a, b, p + 1, Seq::empty());
    } else {
        assert(b[p] == 2);
        lemma_split(b, p, seq![e[0]] + body, seq![constants::ARRAY_END]);
        lemma_split(b, p, seq![e[0]], body);
        assert(b[p + 1 + body.len()] == e[body.len() + 1 as int]);
        lemma_dec_items_long(a, b, p + 1, Seq::empty());
    }
    assert(Seq::<Val>::empty() + a =~= a);
}

proof fn lemma_dec_object(o: Seq<(Seq<char>, Val)>, b: Seq<u8>, p: int)
    requires
        0 <= p,
        wf(Val::Object(o)),
        plain(Val::Object(o)),
        p + enc(Val::Object(o)).len() <= b.len(),
        b.subrange(p, p + enc(Val::Object(o)).len()) == enc(Val::Object(o)),
    ensures
        dec_at(b, p as nat) == Ok::<(Val, nat), crate::errors::DecodeFault>(
            (Val::Object(o), (p + enc(Val::Object(o)).len()) as nat),
        ),
    decreases o, 1nat,
{
    let e = enc(Val::Object(o));
    assert(b[p] == e[0]);
    let body = enc_entries(o);
    let n = o.len();
    let empty = Seq::<(Seq<char>, Val)>::empty();
    assert(empty + o =~= o);
    if 1 <= n <= 15 {
        lemma_split(b, p, seq![e[0]], body);
        assert(b[p] % 16 == 0 && b[p] / 16 == n);
        lemma_dec_entries_short(o, b, p + 1, empty);
    } else {
        assert(b[p] == 0);
        lemma_split(b, p, seq![e[0]] + body, seq![constants::DICTIONARY_END]);
        lemma_split(b, p, seq![e[0]], body);
        assert(b[p + 1 + body.len()] == e[body.len() + 1 as int]);
        lemma_dec_entries_long(o, b, p + 1, empty);
    }
}

proof fn lemma_dec_items_short(a: Seq<Val>, b: Seq<u8>, q: int, acc: Seq<Val>)
    requires
        0 <= q,
        forall|i: int| 0 <= i < a.len() ==> wf(#[trigger] a[i]) && plain(a[i]),
        q + enc_seq(a).len() <= b.len(),
        b.subrange(q, q + enc_seq(a).len()) == enc_seq(a),
    ensures
        arr_short(b, q as nat, a.len(), acc) == Ok::<(Seq<Val>, nat), crate::errors::DecodeFault>(
            (acc + a, (q + enc_seq(a).len()) as nat),
        ),
    decreases a, 0nat,
{
    if a.len() == 0 {
        assert(acc + a =~= acc);
    } else {
        let rest = a.subrange(1, a.len() as int);
        let l0 = enc(a[0]).len();
        assert(enc_seq(a) == enc(a[0]) + enc_seq(rest));
        lemma_split(b, q, enc(a[0]), enc_seq(rest));
        lemma_dec_enc(a[0], b, q);
        lemma_enc_nonempty(a[0]);
        assert forall|i: int| 0 <= i < rest.len() implies wf(#[trigger] rest[i]) && plain(rest[i]) by {
            assert(rest[i] == a[i + 1]);
        }
        lemma_dec_items_short(rest, b, q + l0, acc.push(a[0]));
        assert(acc.push(a[0]) + rest =~= acc + a);
    }
}

proof fn lemma_dec_items_long(a: Seq<Val>, b: Seq<u8>, q: int, acc: Seq<Val>)
    requires
        0 <= q,
        forall|i: int| 0 <= i < a.len() ==> wf(#[trigger] a[i]) && plain(a[i]),
        q + enc_seq(a).len() < b.len(),
        b.subrange(q, q + enc_seq(a).len()) == enc_seq(a),
        b[q + enc_seq(a).len()] == constants::ARRAY_END,
    ensures
        arr_long(b, q as nat, acc) == Ok::<(Seq<Val>, nat), crate::errors::DecodeFault>(
            (acc + a, (q + enc_seq(a).len() + 1) as nat),
        ),
    decreases a, 0nat,
{
    if a.len() == 0 {
        assert(acc + a =~= acc);
    } else {
        let rest = a.subrange(1, a.len() as int);
        let l0 = enc(a[0]).len();
        assert(enc_seq(a) == enc(a[0]) + enc_seq(rest));
        lemma_split(b, q, enc(a[0]), enc_seq(rest));
        lemma_dec_enc(a[0], b, q);
        lemma_enc_nonempty(a[0]);
        assert(b[q] != constants::ARRAY_END);
        assert forall|i: int| 0 <= i < rest.len() implies wf(#[trigger] rest[i]) && plain(rest[i]) by {
            assert(rest[i] == a[i + 1]);
        }
        lemma_dec_items_long(rest, b, q + l0, acc.push(a[0]));
        assert(acc.push(a[0]) + rest =~= acc + a);
    }
}

proof fn lemma_dec_entries_short(o: Seq<(Seq<char>, Val)>, b: Seq<u8>, q: int, acc: Seq<(Seq<char>, Val)>)
    requires
        0 <= q,
        forall|i: int|
            #![trigger o[i]]
            0 <= i < o.len() ==> plain_text(o[i].0) && wf(o[i].1) && plain(o[i].1),
        keys_of(acc + o).no_duplicates(),
        q + enc_entries(o).len() <= b.len(),
        b.subrange(q, q + enc_entries(o).len()) == enc_entries(o),
    ensures
        obj_short(b, q as nat, o.len(), acc) == Ok::<
            (Seq<(Seq<char>, Val)>, nat),
            crate::errors::DecodeFault,
        >((acc + o, (q + enc_entries(o).len()) as nat)),
    decreases o, 0nat,
{
    if o.len() == 0 {
        assert(acc + o =~= acc);
    } else {
        let rest = o.subrange(1, o.len() as int);
        let (k, v) = o[0];
        let lk = enc_str(k).len();
        let lv = enc(v).len();
        assert(enc_entries(o) == enc_str(k) + enc(v) + enc_entries(rest));
        lemma_split(b, q, enc_str(k) + enc(v), enc_entries(rest));
        lemma_split(b, q, enc_str(k), enc(v));
        lemma_dec_str(k, b, q);
        lemma_dec_enc(v, b, q + lk);
        lemma_enc_nonempty(v);
        assert forall|j: int| 0 <= j < acc.len() implies (#[trigger] acc[j]).0 != k by {
            assert(keys_of(acc + o)[j] == acc[j].0);
            assert(keys_of(acc + o)[acc.len() as int] == k);
        }
        lemma_insert_new(acc, k, v, 0);
        assert(entry_insert(acc, k, v) == acc.push((k, v)));
        assert forall|i: int|
            #![trigger rest[i]]
            0 <= i < rest.len() implies plain_text(rest[i].0) && wf(rest[i].1) && plain(rest[i].1) by {
            assert(rest[i] == o[i + 1]);
        }
        assert(acc.push((k, v)) + rest =~= acc + o);
        lemma_dec_entries_short(rest, b, q + lk + lv, acc.push((k, v)));
    }
}

proof fn lemma_dec_entries_long(o: Seq<(Seq<char>, Val)>, b: Seq<u8>, q: int, acc: Seq<(Seq<char>, Val)>)
    requires
        0 <= q,
        forall|i: int|
            #![trigger o[i]]
            0 <= i < o.len() ==> plain_text(o[i].0) && wf(o[i].1) && plain(o[i].1),
        keys_of(acc + o).no_duplicates(),
        q + enc_entries(o).len() < b.len(),
        b.subrange(q, q + enc_entries(o).len()) == enc_entries(o),
        b[q + enc_entries(o).len()] == constants::DICTIONARY_END,
    ensures
        obj_long(b, q as nat, None, acc) == Ok::<
            (Seq<(Seq<char>, Val)>, nat),
            crate::errors::DecodeFault,
        >((acc + o, (q + enc_entries(o).len() + 1) as nat)),
    decreases o, 0nat,
{
    if o.len() == 0 {
        assert(acc + o =~= acc);
    } else {
        let rest = o.subrange(1, o.len() as int);
        let (k, v) = o[0];
        let lk = enc_str(k).len();
        let lv = enc(v).len();
        assert(enc_entries(o) == enc_str(k) + enc(v) + enc_entries(rest));
        lemma_split(b, q, enc_str(k) + enc(v), enc_entries(rest));
        lemma_split(b, q, enc_str(k), enc(v));
        lemma_dec_str(k, b, q);
        lemma_dec_enc(v, b, q + lk);
        lemma_enc_nonempty(v);
        assert(b[q] != constants::DICTIONARY_END);
        assert(b[q + lk] != constants::DICTIONARY_END);
        assert forall|j: int| 0 <= j < acc.len() implies (#[trigger] acc[j]).0 != k by {
            assert(keys_of(acc + o)[j] == acc[j].0);
            assert(keys_of(acc + o)[acc.len() as int] == k);
        }
        lemma_insert_new(acc, k, v, 0);
        assert(entry_insert(acc, k, v) == acc.push((k, v)));
        assert forall|i: int|
            #![trigger rest[i]]
            0 <= i < rest.len() implies plain_text(rest[i].0) && wf(rest[i].1) && plain(rest[i].1) by {
            assert(rest[i] == o[i + 1]);
        }
        assert(acc.push((k, v)) + rest =~= acc + o);
        lemma_dec_entries_long(rest, b, q + lk + lv, acc.push((k, v)));
        assert(obj_long(b, (q + lk) as nat, Some(k), acc) == obj_long(b, (q + lk + lv) as nat, None, acc.push((k, v))));
    }
}

/// Decoding the encoding of a value, with any bytes after it, gives the
/// value back and reads exactly its encoding. This holds of well-formed
/// values (unique keys) whose strings and keys are plain text.
pub proof fn lemma_binary_round_trip(v: Val, rest: Seq<u8>)
    requires
        wf(v),
        plain(v),
    ensures
        decode_front(enc(v) + rest) == Ok::<(Val, nat), crate::errors::DecodeFault>((v, enc(v).len())),
{
    let b = enc(v) + rest;
    assert(b.subrange(0, enc(v).len() as int) =~= enc(v));
    lemma_dec_enc(v, b, 0);
}

} // verus!
