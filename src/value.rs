//! The value model shared by the binary codec and the text notation.

pub mod display;
pub mod parse;

use vstd::prelude::*;

verus! {

/// A JSON-like value.
///
/// Floats are held as their IEEE-754 bit patterns: `Float` holds the bits of
/// a 32-bit float and `Double` those of a 64-bit float.
/// An `Object` holds its entries in a `Vec`; its keys are meant to be unique
/// (see [`wf`]), and the order of the entries carries no meaning.
#[derive(Debug, PartialEq)]
pub enum Value {
    Null,
    Object(Vec<(String, Value)>),
    Array(Vec<Value>),
    String(String),
    Bit(bool),
    Boolean(bool),
    Int32(i32),
    Float(u32),
    Double(u64),
    Int64(i64),
    Int16(i16),
    Int8(i8),
}

/// The mathematical model of a [`Value`]: strings become `Seq<char>` and the
/// vectors become sequences.
pub enum Val {
    Null,
    Object(Seq<(Seq<char>, Val)>),
    Array(Seq<Val>),
    Str(Seq<char>),
    Bit(bool),
    Boolean(bool),
    Int32(i32),
    Float(u32),
    Double(u64),
    Int64(i64),
    Int16(i16),
    Int8(i8),
}

/// The model of a value.
pub open spec fn value_view(v: &Value) -> Val
    decreases v,
{
    match v {
        Value::Null => Val::Null,
        Value::Object(o) => Val::Object(
            Seq::new(
                o@.len(),
                |i: int|
                    if 0 <= i < o@.len() {
                        (o@[i].0@, value_view(&o@[i].1))
                    } else {
                        (Seq::empty(), Val::Null)
                    },
            ),
        ),
        Value::Array(a) => Val::Array(
            Seq::new(
                a@.len(),
                |i: int|
                    if 0 <= i < a@.len() {
                        value_view(&a@[i])
                    } else {
                        Val::Null
                    },
            ),
        ),
        Value::String(s) => Val::Str(s@),
        Value::Bit(b) => Val::Bit(*b),
        Value::Boolean(b) => Val::Boolean(*b),
        Value::Int32(i) => Val::Int32(*i),
        Value::Float(f) => Val::Float(*f),
        Value::Double(d) => Val::Double(*d),
        Value::Int64(i) => Val::Int64(*i),
        Value::Int16(i) => Val::Int16(*i),
        Value::Int8(i) => Val::Int8(*i),
    }
}

impl View for Value {
    type V = Val;

    open spec fn view(&self) -> Val {
        value_view(self)
    }
}

/// The models of a vector's values.
pub open spec fn items_view(a: Seq<Value>) -> Seq<Val> {
    Seq::new(a.len(), |i: int| a[i]@)
}

/// The models of an object's entries.
pub open spec fn entries_view(o: Seq<(String, Value)>) -> Seq<(Seq<char>, Val)> {
    Seq::new(o.len(), |i: int| (o[i].0@, o[i].1@))
}

pub proof fn lemma_array_view(a: &Vec<Value>)
    ensures
        Value::Array(*a)@ == Val::Array(items_view(a@)),
{
    assert(items_view(a@) =~= match Value::Array(*a)@ {
        Val::Array(x) => x,
        _ => Seq::empty(),
    });
}

pub proof fn lemma_object_view(o: &Vec<(String, Value)>)
    ensures
        Value::Object(*o)@ == Val::Object(entries_view(o@)),
{
    assert(entries_view(o@) =~= match Value::Object(*o)@ {
        Val::Object(x) => x,
        _ => Seq::empty(),
    });
}

/// The first index at or after `i` whose entry has key `k`, or -1.
pub open spec fn key_index_from(o: Seq<(Seq<char>, Val)>, k: Seq<char>, i: int) -> int
    decreases o.len() - i,
{
    if i < 0 || i >= o.len() {
        -1
    } else if o[i].0 == k {
        i
    } else {
        key_index_from(o, k, i + 1)
    }
}

/// The entries after setting key `k` to `v`: an entry with that key gets the
/// new value in place, else the entry is added at the end.
pub open spec fn entry_insert(o: Seq<(Seq<char>, Val)>, k: Seq<char>, v: Val) -> Seq<(Seq<char>, Val)> {
    let i = key_index_from(o, k, 0);
    if i < 0 {
        o.push((k, v))
    } else {
        o.update(i, (k, v))
    }
}

/// Sets `key` to `val` in an object's entries, in place where the key is
/// present (last write wins).
pub fn insert_entry(entries: &mut Vec<(String, Value)>, key: String, val: Value)
    ensures
        entries_view(final(entries)@) == entry_insert(entries_view(old(entries)@), key@, val@),
{
    let ghost o = entries_view(entries@);
    let mut i: usize = 0;
    while i < entries.len()
        invariant
            i <= entries@.len(),
            entries@ == old(entries)@,
            o == entries_view(entries@),
            key_index_from(o, key@, 0) == key_index_from(o, key@, i as int),
        decreases entries@.len() - i,
    {
        if entries[i].0 == key {
            entries.set(i, (key, val));
            assert(entries_view(entries@) =~= entry_insert(o, key@, val@));
            return;
        }
        i += 1;
    }
    entries.push((key, val));
    assert(entries_view(entries@) =~= entry_insert(o, key@, val@));
}

/// Relies on `str::chars`: the characters of `s`, in order.
#[verifier::external_body]
pub(crate) fn chars_of(s: &str) -> (r: Vec<char>)
    ensures
        r@ == s@,
{
    s.chars().collect()
}

/// Relies on `String`'s `FromIterator<char>`: the string of the characters
/// of `cs`, in order.
#[verifier::external_body]
pub(crate) fn string_from(cs: &[char]) -> (r: String)
    ensures
        r@ == cs@,
{
    cs.iter().collect()
}

impl Clone for Value {
    /// A deep copy.
    fn clone(&self) -> (r: Value)
        ensures
            r@ == self@,
        decreases self,
    {
        match self {
            Value::Null => Value::Null,
            Value::Object(o) => {
                proof {
                    lemma_object_view(o);
                }
                let mut out: Vec<(String, Value)> = Vec::new();
                let mut i: usize = 0;
                while i < o.len()
                    invariant
                        i <= o@.len(),
                        *self == Value::Object(*o),
                        entries_view(out@) == entries_view(o@).subrange(0, i as int),
                    decreases o@.len() - i,
                {
                    proof {
                        assert(decreases_to!(*self => self->Object_0));
                        assert(decreases_to!(*o => o@));
                        assert(decreases_to!(o@ => o@[i as int]));
                        assert(decreases_to!(o@[i as int] => o@[i as int].1));
                    }
                    let k = o[i].0.clone();
                    let v = o[i].1.clone();
                    let ghost before = entries_view(out@);
                    let ghost e = (k@, v@);
                    assert(e == (o@[i as int].0@, o@[i as int].1@));
                    out.push((k, v));
                    assert(entries_view(out@) =~= before.push(e));
                    assert(entries_view(out@) =~= entries_view(o@).subrange(0, i + 1));
                    i += 1;
                }
                proof {
                    lemma_object_view(&out);
                    assert(entries_view(o@).subrange(0, i as int) =~= entries_view(o@));
                }
                Value::Object(out)
            },
            Value::Array(a) => {
                proof {
                    lemma_array_view(a);
                }
                let mut out: Vec<Value> = Vec::new();
                let mut i: usize = 0;
                while i < a.len()
                    invariant
                        i <= a@.len(),
                        *self == Value::Array(*a),
                        items_view(out@) == items_view(a@).subrange(0, i as int),
                    decreases a@.len() - i,
                {
                    proof {
                        assert(decreases_to!(*self => self->Array_0));
                        assert(decreases_to!(*a => a@));
                        assert(decreases_to!(a@ => a@[i as int]));
                    }
                    let v = a[i].clone();
                    let ghost before = items_view(out@);
                    let ghost vv = v@;
                    assert(vv == a@[i as int]@);
                    out.push(v);
                    assert(items_view(out@) =~= before.push(vv));
                    assert(items_view(out@) =~= items_view(a@).subrange(0, i + 1));
                    i += 1;
                }
                proof {
                    lemma_array_view(&out);
                    assert(items_view(a@).subrange(0, i as int) =~= items_view(a@));
                }
                Value::Array(out)
            },
            Value::String(s) => Value::String(s.clone()),
            Value::Bit(b) => Value::Bit(*b),
            Value::Boolean(b) => Value::Boolean(*b),
            Value::Int32(i) => Value::Int32(*i),
            Value::Float(f) => Value::Float(*f),
            Value::Double(d) => Value::Double(*d),
            Value::Int64(i) => Value::Int64(*i),
            Value::Int16(i) => Value::Int16(*i),
            Value::Int8(i) => Value::Int8(*i),
        }
    }
}

/// The value that stands for an integral JSON number: `0` and `1` are bits,
/// any other the narrowest integer type that holds it.
pub open spec fn narrowest(n: i64) -> Val {
    if n == 0 || n == 1 {
        Val::Bit(n == 1)
    } else if -0x80 <= n <= 0x7f {
        Val::Int8(n as i8)
    } else if -0x8000 <= n <= 0x7fff {
        Val::Int16(n as i16)
    } else if -0x8000_0000 <= n <= 0x7fff_ffff {
        Val::Int32(n as i32)
    } else {
        Val::Int64(n)
    }
}

/// The value that stands for an integral JSON number.
pub fn integer_value(n: i64) -> (r: Value)
    ensures
        r@ == narrowest(n),
{
    if n == 0 || n == 1 {
        Value::Bit(n == 1)
    } else if -0x80 <= n && n <= 0x7f {
        Value::Int8(n as i8)
    } else if -0x8000 <= n && n <= 0x7fff {
        Value::Int16(n as i16)
    } else if -0x8000_0000 <= n && n <= 0x7fff_ffff {
        Value::Int32(n as i32)
    } else {
        Value::Int64(n)
    }
}

/// The keys of a list of object entries.
pub open spec fn keys_of(entries: Seq<(Seq<char>, Val)>) -> Seq<Seq<char>> {
    entries.map_values(|e: (Seq<char>, Val)| e.0)
}

/// Well-formed: the keys of every object in `v` are unique.
pub open spec fn wf(v: Val) -> bool
    decreases v,
{
    match v {
        Val::Object(o) => keys_of(o).no_duplicates() && forall|i: int| 0 <= i < o.len() ==> wf(#[trigger] o[i].1),
        Val::Array(a) => forall|i: int| 0 <= i < a.len() ==> wf(#[trigger] a[i]),
        _ => true,
    }
}

} // verus!
