//! The writer of the text notation.
//!
//! Floats are written from a table of texts keyed by their bits; the table
//! is filled outside this library (see [`floats_of`] for what it must hold).

use crate::value::{chars_of, lemma_array_view, lemma_object_view, string_from, Val, Value};
use vstd::prelude::*;

verus! {

/// The decimal digits of `n`.
pub open spec fn nat_text(n: nat) -> Seq<char>
    decreases n,
{
    if n < 10 {
        seq![digit(n)]
    } else {
        nat_text(n / 10).push(digit(n % 10))
    }
}

pub open spec fn digit(d: nat) -> char {
    ((d + 48) as u8) as char
}

/// An integer in decimal, with `-` in front where it is negative.
pub open spec fn int_text(i: int) -> Seq<char> {
    if i < 0 {
        seq!['-'] + nat_text((-i) as nat)
    } else {
        nat_text(i as nat)
    }
}

/// `s` with each `"` written `\"`.
pub open spec fn escaped(s: Seq<char>) -> Seq<char>
    decreases s.len(),
{
    if s.len() == 0 {
        Seq::empty()
    } else if s.last() == '"' {
        escaped(s.drop_last()) + seq!['\\', '"']
    } else {
        escaped(s.drop_last()).push(s.last())
    }
}

/// A string between quotes.
pub open spec fn quoted(s: Seq<char>) -> Seq<char> {
    seq!['"'] + escaped(s) + seq!['"']
}

/// The text given for a float: the first entry of `table` with these bits
/// and width (`true` for 64 bits), or nothing.
pub open spec fn float_text(table: Seq<(u64, bool, Seq<char>)>, bits: u64, double: bool) -> Seq<char>
    decreases table.len(),
{
    if table.len() == 0 {
        Seq::empty()
    } else if table[0].0 == bits && table[0].1 == double {
        table[0].2
    } else {
        float_text(table.subrange(1, table.len() as int), bits, double)
    }
}

/// The text of a value.
pub open spec fn text(v: Val, table: Seq<(u64, bool, Seq<char>)>) -> Seq<char>
    decreases v,
{
    match v {
        Val::Null => seq!['n', 'u', 'l', 'l'],
        Val::Boolean(b) => if b {
            seq!['t', 'r', 'u', 'e']
        } else {
            seq!['f', 'a', 'l', 's', 'e']
        },
        Val::Bit(b) => if b {
            seq!['1', 'b']
        } else {
            seq!['0', 'b']
        },
        Val::Int8(i) => int_text(i as int).push('B'),
        Val::Int16(i) => int_text(i as int).push('s'),
        Val::Int32(i) => int_text(i as int),
        Val::Int64(i) => int_text(i as int).push('l'),
        Val::Float(f) => float_text(table, f as u64, false).push('f'),
        Val::Double(d) => float_text(table, d, true).push('d'),
        Val::Str(s) => quoted(s),
        Val::Array(a) => seq!['['] + items_text(a, table) + seq![']'],
        Val::Object(o) => seq!['{'] + entries_text(o, table) + seq!['}'],
    }
}

/// The texts of the elements, joined by `, `.
pub open spec fn items_text(a: Seq<Val>, table: Seq<(u64, bool, Seq<char>)>) -> Seq<char>
    decreases a,
{
    if a.len() == 0 {
        Seq::empty()
    } else if a.len() == 1 {
        text(a[0], table)
    } else {
        text(a[0], table) + seq![',', ' '] + items_text(a.subrange(1, a.len() as int), table)
    }
}

/// The entries as `"key": value`, joined by `, `.
pub open spec fn entries_text(o: Seq<(Seq<char>, Val)>, table: Seq<(u64, bool, Seq<char>)>) -> Seq<char>
    decreases o,
{
    if o.len() == 0 {
        Seq::empty()
    } else if o.len() == 1 {
        quoted(o[0].0) + seq![':', ' '] + text(o[0].1, table)
    } else {
        quoted(o[0].0) + seq![':', ' '] + text(o[0].1, table) + seq![',', ' '] + entries_text(
            o.subrange(1, o.len() as int),
            table,
        )
    }
}

/// The models of a table of float texts.
pub open spec fn table_view(t: Seq<(u64, bool, String)>) -> Seq<(u64, bool, Seq<char>)> {
    Seq::new(t.len(), |i: int| (t[i].0, t[i].1, t[i].2@))
}

/// The floats of a value in the order the writer meets them, with `true`
/// for 64-bit ones.
pub open spec fn float_list(v: Val) -> Seq<(u64, bool)>
    decreases v,
{
    match v {
        Val::Float(f) => seq![(f as u64, false)],
        Val::Double(d) => seq![(d, true)],
        Val::Array(a) => items_floats(a),
        Val::Object(o) => entries_floats(o),
        _ => Seq::empty(),
    }
}

pub open spec fn items_floats(a: Seq<Val>) -> Seq<(u64, bool)>
    decreases a,
{
    if a.len() == 0 {
        Seq::empty()
    } else {
        float_list(a[0]) + items_floats(a.subrange(1, a.len() as int))
    }
}

pub open spec fn entries_floats(o: Seq<(Seq<char>, Val)>) -> Seq<(u64, bool)>
    decreases o,
{
    if o.len() == 0 {
        Seq::empty()
    } else {
        float_list(o[0].1) + entries_floats(o.subrange(1, o.len() as int))
    }
}

proof fn lemma_items_text_snoc(s: Seq<Val>, i: int, table: Seq<(u64, bool, Seq<char>)>)
    requires
        0 <= i < s.len(),
    ensures
        items_text(s.subrange(0, i + 1), table) == items_text(s.subrange(0, i), table) + (if i
            == 0 {
            Seq::<char>::empty()
        } else {
            seq![',', ' ']
        }) + text(s[i], table),
    decreases i,
{
    let u = s.subrange(0, i + 1);
    assert(u[0] == s[0]);
    if i == 0 {
        assert(s.subrange(0, 0) =~= Seq::<Val>::empty());
        assert(items_text(u, table) =~= Seq::<char>::empty() + Seq::<char>::empty() + text(s[0], table));
    } else {
        let t = s.subrange(1, s.len() as int);
        lemma_items_text_snoc(t, i - 1, table);
        assert(u.subrange(1, u.len() as int) =~= t.subrange(0, i));
        let p = s.subrange(0, i);
        assert(p[0] == s[0]);
        assert(p.subrange(1, p.len() as int) =~= t.subrange(0, i - 1));
        if i == 1 {
            assert(t.subrange(0, 0) =~= Seq::<Val>::empty());
            assert(t.subrange(0, 1) =~= seq![s[1]]);
        }
        assert(items_text(u, table) =~= items_text(p, table) + seq![',', ' '] + text(s[i], table));
    }
}

proof fn lemma_entries_text_snoc(s: Seq<(Seq<char>, Val)>, i: int, table: Seq<(u64, bool, Seq<char>)>)
    requires
        0 <= i < s.len(),
    ensures
        entries_text(s.subrange(0, i + 1), table) == entries_text(s.subrange(0, i), table) + (if i
            == 0 {
            Seq::<char>::empty()
        } else {
            seq![',', ' ']
        }) + quoted(s[i].0) + seq![':', ' '] + text(s[i].1, table),
    decreases i,
{
    let u = s.subrange(0, i + 1);
    assert(u[0] == s[0]);
    if i == 0 {
        assert(s.subrange(0, 0) =~= Seq::<(Seq<char>, Val)>::empty());
        assert(entries_text(u, table) =~= Seq::<char>::empty() + Seq::<char>::empty() + quoted(s[0].0)
            + seq![':', ' '] + text(s[0].1, table));
    } else {
        let t = s.subrange(1, s.len() as int);
        lemma_entries_text_snoc(t, i - 1, table);
        assert(u.subrange(1, u.len() as int) =~= t.subrange(0, i));
        let p = s.subrange(0, i);
        assert(p[0] == s[0]);
        assert(p.subrange(1, p.len() as int) =~= t.subrange(0, i - 1));
        if i == 1 {
            assert(t.subrange(0, 0) =~= Seq::<(Seq<char>, Val)>::empty());
            assert(t.subrange(0, 1) =~= seq![s[1]]);
        }
        assert(entries_text(u, table) =~= entries_text(p, table) + seq![',', ' '] + quoted(s[i].0)
            + seq![':', ' '] + text(s[i].1, table));
    }
}

proof fn lemma_items_floats_snoc(s: Seq<Val>, i: int)
    requires
        0 <= i < s.len(),
    ensures
        items_floats(s.subrange(0, i + 1)) == items_floats(s.subrange(0, i)) + float_list(s[i]),
    decreases i,
{
    let u = s.subrange(0, i + 1);
    assert(u[0] == s[0]);
    if i == 0 {
        assert(u.subrange(1, u.len() as int) =~= Seq::<Val>::empty());
        assert(s.subrange(0, 0) =~= Seq::<Val>::empty());
        assert(items_floats(u.subrange(1, u.len() as int)) == Seq::<(u64, bool)>::empty());
        assert(items_floats(u) =~= float_list(s[0]));
    } else {
        let t = s.subrange(1, s.len() as int);
        lemma_items_floats_snoc(t, i - 1);
        assert(u.subrange(1, u.len() as int) =~= t.subrange(0, i));
        let p = s.subrange(0, i);
        assert(p[0] == s[0]);
        assert(p.subrange(1, p.len() as int) =~= t.subrange(0, i - 1));
        assert(items_floats(u) =~= items_floats(p) + float_list(s[i]));
    }
}

proof fn lemma_entries_floats_snoc(s: Seq<(Seq<char>, Val)>, i: int)
    requires
        0 <= i < s.len(),
    ensures
        entries_floats(s.subrange(0, i + 1)) == entries_floats(s.subrange(0, i)) + float_list(s[i].1),
    decreases i,
{
    let u = s.subrange(0, i + 1);
    assert(u[0] == s[0]);
    if i == 0 {
        assert(u.subrange(1, u.len() as int) =~= Seq::<(Seq<char>, Val)>::empty());
        assert(s.subrange(0, 0) =~= Seq::<(Seq<char>, Val)>::empty());
        assert(entries_floats(u.subrange(1, u.len() as int)) == Seq::<(u64, bool)>::empty());
        assert(entries_floats(u) =~= float_list(s[0].1));
    } else {
        let t = s.subrange(1, s.len() as int);
        lemma_entries_floats_snoc(t, i - 1);
        assert(u.subrange(1, u.len() as int) =~= t.subrange(0, i));
        let p = s.subrange(0, i);
        assert(p[0] == s[0]);
        assert(p.subrange(1, p.len() as int) =~= t.subrange(0, i - 1));
        assert(entries_floats(u) =~= entries_floats(p) + float_list(s[i].1));
    }
}

pub(crate) fn push_chars(out: &mut Vec<char>, s: &[char])
    ensures
        final(out)@ == old(out)@ + s@,
{
    let mut i: usize = 0;
    while i < s.len()
        invariant
            i <= s@.len(),
            out@ == old(out)@ + s@.subrange(0, i as int),
        decreases s@.len() - i,
    {
        out.push(s[i]);
        assert(s@.subrange(0, i + 1) =~= s@.subrange(0, i as int).push(s@[i as int]));
        i += 1;
    }
    assert(s@.subrange(0, s@.len() as int) =~= s@);
}

pub(crate) fn write_digits(n: u128, out: &mut Vec<char>)
    ensures
        final(out)@ == old(out)@ + nat_text(n as nat),
    decreases n,
{
    if n < 10 {
        out.push(((n as u8) + 48) as char);
        assert(out@ =~= old(out)@ + nat_text(n as nat));
    } else {
        write_digits(n / 10, out);
        out.push((((n % 10) as u8) + 48) as char);
        assert(out@ =~= old(out)@ + nat_text(n as nat));
    }
}

fn write_int(i: i128, out: &mut Vec<char>)
    requires
        i > i128::MIN,
    ensures
        final(out)@ == old(out)@ + int_text(i as int),
{
    if i < 0 {
        out.push('-');
        write_digits((0 - i) as u128, out);
        assert(out@ =~= old(out)@ + int_text(i as int));
    } else {
        write_digits(i as u128, out);
    }
}

fn write_quoted(s: &String, out: &mut Vec<char>)
    ensures
        final(out)@ == old(out)@ + quoted(s@),
{
    let cs = chars_of(s.as_str());
    out.push('"');
    let ghost start = out@;
    let mut i: usize = 0;
    while i < cs.len()
        invariant
            i <= cs@.len(),
            out@ == start + escaped(cs@.subrange(0, i as int)),
        decreases cs@.len() - i,
    {
        let c = cs[i];
        assert(cs@.subrange(0, i + 1).drop_last() =~= cs@.subrange(0, i as int));
        if c == '"' {
            out.push('\\');
            out.push('"');
        } else {
            out.push(c);
        }
        assert(out@ =~= start + escaped(cs@.subrange(0, i + 1)));
        i += 1;
    }
    assert(cs@.subrange(0, cs@.len() as int) =~= s@);
    out.push('"');
    assert(out@ =~= old(out)@ + quoted(s@));
}

fn write_float(table: &[(u64, bool, String)], bits: u64, double: bool, out: &mut Vec<char>)
    ensures
        final(out)@ == old(out)@ + float_text(table_view(table@), bits, double),
{
    let ghost tv = table_view(table@);
    let mut i: usize = 0;
    assert(tv.subrange(0, tv.len() as int) =~= tv);
    while i < table.len()
        invariant
            i <= table@.len(),
            tv == table_view(table@),
            out@ == old(out)@,
            float_text(tv, bits, double) == float_text(tv.subrange(i as int, tv.len() as int), bits, double),
        decreases table@.len() - i,
    {
        let ghost rest = tv.subrange(i as int, tv.len() as int);
        assert(rest[0] == tv[i as int]);
        if table[i].0 == bits && table[i].1 == double {
            let cs = chars_of(table[i].2.as_str());
            push_chars(out, cs.as_slice());
            return;
        }
        assert(rest.subrange(1, rest.len() as int) =~= tv.subrange(i + 1, tv.len() as int));
        i += 1;
    }
    assert(float_text(tv.subrange(i as int, tv.len() as int), bits, double) == Seq::<char>::empty());
    assert(out@ =~= old(out)@ + Seq::<char>::empty());
}

/// Appends the text of `val` to `out`.
pub(crate) fn write_into(val: &Value, table: &[(u64, bool, String)], out: &mut Vec<char>)
    ensures
        final(out)@ == old(out)@ + text(val@, table_view(table@)),
    decreases val,
{
    let ghost tv = table_view(table@);
    match val {
        Value::Null => {
            push_chars(out, &['n', 'u', 'l', 'l']);
            assert(out@ =~= old(out)@ + text(val@, tv));
        },
        Value::Boolean(b) => {
            if *b {
                push_chars(out, &['t', 'r', 'u', 'e']);
            } else {
                push_chars(out, &['f', 'a', 'l', 's', 'e']);
            }
            assert(out@ =~= old(out)@ + text(val@, tv));
        },
        Value::Bit(b) => {
            out.push(if *b { '1' } else { '0' });
            out.push('b');
            assert(out@ =~= old(out)@ + text(val@, tv));
        },
        Value::Int8(i) => {
            write_int(*i as i128, out);
            out.push('B');
            assert(out@ =~= old(out)@ + text(val@, tv));
        },
        Value::Int16(i) => {
            write_int(*i as i128, out);
            out.push('s');
            assert(out@ =~= old(out)@ + text(val@, tv));
        },
        Value::Int32(i) => {
            write_int(*i as i128, out);
        },
        Value::Int64(i) => {
            write_int(*i as i128, out);
            out.push('l');
            assert(out@ =~= old(out)@ + text(val@, tv));
        },
        Value::Float(f) => {
            write_float(table, *f as u64, false, out);
            out.push('f');
            assert(out@ =~= old(out)@ + text(val@, tv));
        },
        Value::Double(d) => {
            write_float(table, *d, true, out);
            out.push('d');
            assert(out@ =~= old(out)@ + text(val@, tv));
        },
        Value::String(s) => write_quoted(s, out),
        Value::Array(a) => {
            proof {
                lemma_array_view(a);
            }
            let ghost items = crate::value::items_view(a@);
            out.push('[');
            let ghost start = out@;
            let n = a.len();
            let mut i: usize = 0;
            assert(items.subrange(0, 0) =~= Seq::<Val>::empty());
            while i < n
                invariant
                    i <= n,
                    n == a@.len(),
                    *val == Value::Array(*a),
                    tv == table_view(table@),
                    items == crate::value::items_view(a@),
                    out@ == start + items_text(items.subrange(0, i as int), tv),
                decreases n - i,
            {
                proof {
                    assert(decreases_to!(*val => val->Array_0));
                    assert(decreases_to!(*a => a@));
                    assert(decreases_to!(a@ => a@[i as int]));
                    lemma_items_text_snoc(items, i as int, tv);
                }
                if i > 0 {
                    out.push(',');
                    out.push(' ');
                }
                write_into(&a[i], table, out);
                assert(out@ =~= start + items_text(items.subrange(0, i + 1), tv));
                i += 1;
            }
            assert(items.subrange(0, n as int) =~= items);
            out.push(']');
            assert(out@ =~= old(out)@ + text(val@, tv));
        },
        Value::Object(o) => {
            proof {
                lemma_object_view(o);
            }
            let ghost entries = crate::value::entries_view(o@);
            out.push('{');
            let ghost start = out@;
            let n = o.len();
            let mut i: usize = 0;
            assert(entries.subrange(0, 0) =~= Seq::<(Seq<char>, Val)>::empty());
            while i < n
                invariant
                    i <= n,
                    n == o@.len(),
                    *val == Value::Object(*o),
                    tv == table_view(table@),
                    entries == crate::value::entries_view(o@),
                    out@ == start + entries_text(entries.subrange(0, i as int), tv),
                decreases n - i,
            {
                proof {
                    assert(decreases_to!(*val => val->Object_0));
                    assert(decreases_to!(*o => o@));
                    assert(decreases_to!(o@ => o@[i as int]));
                    assert(decreases_to!(o@[i as int] => o@[i as int].1));
                    lemma_entries_text_snoc(entries, i as int, tv);
                }
                if i > 0 {
                    out.push(',');
                    out.push(' ');
                }
                let entry = &o[i];
                write_quoted(&entry.0, out);
                out.push(':');
                out.push(' ');
                write_into(&entry.1, table, out);
                assert(out@ =~= start + entries_text(entries.subrange(0, i + 1), tv));
                i += 1;
            }
            assert(entries.subrange(0, n as int) =~= entries);
            out.push('}');
            assert(out@ =~= old(out)@ + text(val@, tv));
        },
    }
}

/// Writes a value in the text notation. `floats` gives the text of each
/// float by its bits and width (`true` for 64 bits); a float missing from it
/// is written as its suffix alone.
pub fn display(val: &Value, floats: &[(u64, bool, String)]) -> (r: String)
    ensures
        r@ == text(val@, table_view(floats@)),
{
    let mut out: Vec<char> = Vec::new();
    write_into(val, floats, &mut out);
    assert(out@ =~= text(val@, table_view(floats@)));
    string_from(out.as_slice())
}

/// Appends the floats of `val` in the order the writer meets them.
fn collect_floats(val: &Value, out: &mut Vec<(u64, bool)>)
    ensures
        final(out)@ == old(out)@ + float_list(val@),
    decreases val,
{
    match val {
        Value::Float(f) => {
            out.push((*f as u64, false));
            assert(out@ =~= old(out)@ + float_list(val@));
        },
        Value::Double(d) => {
            out.push((*d, true));
            assert(out@ =~= old(out)@ + float_list(val@));
        },
        Value::Array(a) => {
            proof {
                lemma_array_view(a);
            }
            let ghost items = crate::value::items_view(a@);
            let ghost start = out@;
            let n = a.len();
            let mut i: usize = 0;
            assert(items.subrange(0, 0) =~= Seq::<Val>::empty());
            assert(start =~= start + items_floats(items.subrange(0, 0)));
            while i < n
                invariant
                    i <= n,
                    n == a@.len(),
                    *val == Value::Array(*a),
                    items == crate::value::items_view(a@),
                    out@ == start + items_floats(items.subrange(0, i as int)),
                decreases n - i,
            {
                proof {
                    assert(decreases_to!(*val => val->Array_0));
                    assert(decreases_to!(*a => a@));
                    assert(decreases_to!(a@ => a@[i as int]));
                    lemma_items_floats_snoc(items, i as int);
                }
                collect_floats(&a[i], out);
                assert(out@ =~= start + items_floats(items.subrange(0, i + 1)));
                i += 1;
            }
            assert(items.subrange(0, n as int) =~= items);
        },
        Value::Object(o) => {
            proof {
                lemma_object_view(o);
            }
            let ghost entries = crate::value::entries_view(o@);
            let ghost start = out@;
            let n = o.len();
            let mut i: usize = 0;
            assert(entries.subrange(0, 0) =~= Seq::<(Seq<char>, Val)>::empty());
            assert(start =~= start + entries_floats(entries.subrange(0, 0)));
            while i < n
                invariant
                    i <= n,
                    n == o@.len(),
                    *val == Value::Object(*o),
                    entries == crate::value::entries_view(o@),
                    out@ == start + entries_floats(entries.subrange(0, i as int)),
                decreases n - i,
            {
                proof {
                    assert(decreases_to!(*val => val->Object_0));
                    assert(decreases_to!(*o => o@));
                    assert(decreases_to!(o@ => o@[i as int]));
                    assert(decreases_to!(o@[i as int] => o@[i as int].1));
                    lemma_entries_floats_snoc(entries, i as int);
                }
                collect_floats(&o[i].1, out);
                assert(out@ =~= start + entries_floats(entries.subrange(0, i + 1)));
                i += 1;
            }
            assert(entries.subrange(0, n as int) =~= entries);
        },
        _ => {
            assert(out@ =~= old(out)@ + float_list(val@));
        },
    }
}

/// The floats of a value, in the order the writer meets them, each with
/// `true` where it has 64 bits: what the table of [`display`] must cover.
pub fn floats_of(val: &Value) -> (r: Vec<(u64, bool)>)
    ensures
        r@ == float_list(val@),
{
    let mut out: Vec<(u64, bool)> = Vec::new();
    collect_floats(val, &mut out);
    assert(out@ =~= float_list(val@));
    out
}

} // verus!
