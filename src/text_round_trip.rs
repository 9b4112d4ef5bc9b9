//! The text notation gives back what the writer wrote.

use crate::value::display::{
    digit, entries_text, escaped, int_text, items_text, nat_text, quoted, text,
};
use crate::value::parse::{
    digits_value, entries_from, false_word, is_control, is_number_char, is_space,
    is_suffix, items_from, lex_from, lex_spec, null_word, number_end, number_run_end,
    number_value, numeral_value, parse_from, string_token_from, true_word, word_at,
};
use crate::round_trip::lemma_insert_new;
use crate::value::{entry_insert, keys_of, wf, Val};
use vstd::prelude::*;

verus! {

/// Text without a backslash.
pub open spec fn no_backslash(s: Seq<char>) -> bool {
    forall|i: int| 0 <= i < s.len() ==> #[trigger] s[i] != '\\'
}

/// `v` holds no float, and no string or key with a backslash.
pub open spec fn text_plain(v: Val) -> bool
    decreases v,
{
    match v {
        Val::Float(_) => false,
        Val::Double(_) => false,
        Val::Str(s) => no_backslash(s),
        Val::Array(a) => forall|i: int| 0 <= i < a.len() ==> text_plain(#[trigger] a[i]),
        Val::Object(o) => forall|i: int|
            #![trigger o[i]]
            0 <= i < o.len() ==> no_backslash(o[i].0) && text_plain(o[i].1),
        _ => true,
    }
}

/// The token of a string: the string between quotes, unescaped.
pub open spec fn string_token(s: Seq<char>) -> Seq<char> {
    seq!['"'] + s + seq!['"']
}

/// The tokens that the text of `v` lexes to.
pub open spec fn toks(v: Val) -> Seq<Seq<char>>
    decreases v,
{
    match v {
        Val::Null => seq![null_word()],
        Val::Boolean(b) => seq![
            if b {
                true_word()
            } else {
                false_word()
            },
        ],
        Val::Bit(b) => seq![
            if b {
                seq!['1', 'b']
            } else {
                seq!['0', 'b']
            },
        ],
        Val::Int8(i) => seq![int_text(i as int).push('B')],
        Val::Int16(i) => seq![int_text(i as int).push('s')],
        Val::Int32(i) => seq![int_text(i as int)],
        Val::Int64(i) => seq![int_text(i as int).push('l')],
        Val::Float(_) => Seq::empty(),
        Val::Double(_) => Seq::empty(),
        Val::Str(s) => seq![string_token(s)],
        Val::Array(a) => seq![seq!['[']] + items_toks(a) + seq![seq![']']],
        Val::Object(o) => seq![seq!['{']] + entries_toks(o) + seq![seq!['}']],
    }
}

pub open spec fn items_toks(a: Seq<Val>) -> Seq<Seq<char>>
    decreases a,
{
    if a.len() == 0 {
        Seq::empty()
    } else if a.len() == 1 {
        toks(a[0])
    } else {
        toks(a[0]) + seq![seq![',']] + items_toks(a.subrange(1, a.len() as int))
    }
}

pub open spec fn entries_toks(o: Seq<(Seq<char>, Val)>) -> Seq<Seq<char>>
    decreases o,
{
    if o.len() == 0 {
        Seq::empty()
    } else if o.len() == 1 {
        seq![string_token(o[0].0), seq![':']] + toks(o[0].1)
    } else {
        seq![string_token(o[0].0), seq![':']] + toks(o[0].1) + seq![seq![',']] + entries_toks(
            o.subrange(1, o.len() as int),
        )
    }
}

// ---------------------------------------------------------------- lexing

/// Where `x + y` stands in `s` from `i` on, `x` and `y` stand there too.
proof fn lemma_split(s: Seq<char>, i: int, x: Seq<char>, y: Seq<char>)
    requires
        0 <= i,
        i + x.len() + y.len() <= s.len(),
        s.subrange(i, i + x.len() + y.len()) == x + y,
    ensures
        s.subrange(i, i + x.len()) == x,
        s.subrange(i + x.len(), i + x.len() + y.len()) == y,
{
    let w = s.subrange(i, i + x.len() + y.len());
    assert forall|k: int| 0 <= k < x.len() implies s[i + k] == x[k] by {
        assert(w[k] == s[i + k]);
        assert((x + y)[k] == x[k]);
    }
    assert forall|k: int| 0 <= k < y.len() implies s[i + x.len() + k] == y[k] by {
        assert(w[x.len() + k] == s[i + x.len() + k]);
        assert((x + y)[x.len() + k] == y[k]);
    }
    assert(s.subrange(i, i + x.len()) =~= x);
    assert(s.subrange(i + x.len(), i + x.len() + y.len()) =~= y);
}

proof fn lemma_not_word(s: Seq<char>, i: int, w: Seq<char>)
    requires
        0 <= i < s.len(),
        w.len() > 0,
        s[i] != w[0],
    ensures
        !word_at(s, i, w),
{
    if word_at(s, i, w) {
        assert(s.subrange(i, i + w.len())[0] == s[i]);
    }
}

/// A structural character becomes a token of its own; a space is dropped.
proof fn lemma_lex_char(s: Seq<char>, i: int, acc: Seq<Seq<char>>)
    requires
        0 <= i < s.len(),
        is_control(s[i]) || is_space(s[i]),
    ensures
        is_control(s[i]) ==> lex_from(s, i, acc) == lex_from(s, i + 1, acc.push(seq![s[i]])),
        is_space(s[i]) ==> lex_from(s, i, acc) == lex_from(s, i + 1, acc),
{
    lemma_not_word(s, i, null_word());
    lemma_not_word(s, i, true_word());
    lemma_not_word(s, i, false_word());
}

proof fn lemma_nat_text(n: nat)
    ensures
        nat_text(n).len() >= 1,
        forall|k: int| 0 <= k < nat_text(n).len() ==> '0' <= #[trigger] nat_text(n)[k] <= '9',
        digits_value(nat_text(n)) == Some(n as int),
    decreases n,
{
    if n >= 10 {
        lemma_nat_text(n / 10);
        let t = nat_text(n);
        assert(t.drop_last() =~= nat_text(n / 10));
        assert(t.last() == digit(n % 10));
    }
    let d = digit(n % 10);
    assert(d as int == (n % 10) + 48) by {
        assert(((n % 10 + 48) as u8) as int == n % 10 + 48);
    }
}

proof fn lemma_int_text(i: int)
    ensures
        int_text(i).len() >= 1,
        forall|k: int| 0 <= k < int_text(i).len() ==> is_number_char(#[trigger] int_text(i)[k]),
        !is_suffix(int_text(i).last()),
        numeral_value(int_text(i)) == Some(i),
{
    let n: nat = if i < 0 { (-i) as nat } else { i as nat };
    lemma_nat_text(n);
    let t = int_text(i);
    assert forall|k: int| 0 <= k < t.len() implies is_number_char(#[trigger] t[k]) by {
        if i < 0 && k > 0 {
            assert(t[k] == nat_text(n)[k - 1]);
        }
    }
    assert(t.last() == nat_text(n).last());
    if i < 0 {
        assert(t.subrange(1, t.len() as int) =~= nat_text(n));
    } else {
        assert(t =~= nat_text(n));
    }
}

/// The run of number characters from `j` on ends where the numeral `t`
/// that stands at `i` ends.
proof fn lemma_number_run(s: Seq<char>, i: int, t: Seq<char>, j: int)
    requires
        0 <= i <= j <= i + t.len() <= s.len(),
        s.subrange(i, i + t.len()) == t,
        forall|k: int| 0 <= k < t.len() ==> is_number_char(#[trigger] t[k]),
        i + t.len() == s.len() || !is_number_char(s[i + t.len()]),
    ensures
        number_run_end(s, j) == i + t.len(),
    decreases i + t.len() - j,
{
    if j < i + t.len() {
        assert(s[j] == t[j - i]);
        lemma_number_run(s, i, t, j + 1);
    }
}

/// A numeral, with its suffix if it has one, is one token.
proof fn lemma_lex_number(s: Seq<char>, i: int, t: Seq<char>, tok: Seq<char>, acc: Seq<Seq<char>>)
    requires
        0 <= i,
        i + tok.len() <= s.len(),
        s.subrange(i, i + tok.len()) == tok,
        t.len() >= 1,
        forall|k: int| 0 <= k < t.len() ==> is_number_char(#[trigger] t[k]),
        tok == t || (tok.len() == t.len() + 1 && tok.drop_last() == t && is_suffix(tok.last())),
        tok == t ==> !is_suffix(t.last()) && (i + t.len() == s.len() || (!is_number_char(
            s[i + t.len()],
        ) && !is_suffix(s[i + t.len()]))),
    ensures
        lex_from(s, i, acc) == lex_from(s, i + tok.len(), acc.push(tok)),
{
    assert(s[i] == tok[0]);
    assert(tok[0] == t[0]);
    if tok == t {
        lemma_number_run(s, i, t, i);
    } else {
        assert(s.subrange(i, i + t.len()) =~= t);
        assert(s[i + t.len()] == tok.last());
        assert(!is_number_char(tok.last()));
        lemma_number_run(s, i, t, i);
    }
    assert(number_end(s, i) == i + tok.len());
}

proof fn lemma_escaped_concat(a: Seq<char>, b: Seq<char>)
    ensures
        escaped(a + b) == escaped(a) + escaped(b),
    decreases b.len(),
{
    if b.len() == 0 {
        assert(a + b =~= a);
        assert(escaped(a) + escaped(b) =~= escaped(a));
    } else {
        lemma_escaped_concat(a, b.drop_last());
        assert((a + b).drop_last() =~= a + b.drop_last());
        assert((a + b).last() == b.last());
    }
}

/// The rest of a quoted string lexes to the string itself.
proof fn lemma_string_token(r: Seq<char>, s: Seq<char>, j: int, tok: Seq<char>)
    requires
        no_backslash(r),
        tok.len() > 0,
        tok.last() != '\\',
        0 <= j,
        j + escaped(r).len() + 1 <= s.len(),
        s.subrange(j, j + escaped(r).len() + 1) == escaped(r) + seq!['"'],
    ensures
        string_token_from(s, j, tok) == Some((tok + r + seq!['"'], j + escaped(r).len() + 1)),
    decreases r.len(),
{
    if r.len() == 0 {
        assert(escaped(r) =~= Seq::<char>::empty());
        assert(s.subrange(j, j + 1)[0] == s[j]);
        assert((escaped(r) + seq!['"'])[0] == '"');
        assert(s[j] == '"');
        assert(tok + r + seq!['"'] =~= tok.push('"'));
    } else {
        let c = r[0];
        let rest = r.drop_first();
        assert(r =~= seq![c] + rest);
        lemma_escaped_concat(seq![c], rest);
        assert(seq![c].drop_last() =~= Seq::<char>::empty());
        assert(escaped(seq![c]) == escaped(Seq::<char>::empty()) + (if c == '"' {
            seq!['\\', '"']
        } else {
            seq![c]
        })) by {
            if c != '"' {
                assert(escaped(Seq::<char>::empty()).push(c) =~= escaped(Seq::<char>::empty()) + seq![c]);
            }
        };
        assert(escaped(Seq::<char>::empty()) =~= Seq::<char>::empty());
        let e1 = escaped(seq![c]);
        assert(no_backslash(rest)) by {
            assert forall|k: int| 0 <= k < rest.len() implies #[trigger] rest[k] != '\\' by {
                assert(rest[k] == r[k + 1]);
            }
        }
        assert(c != '\\') by {
            assert(r[0] != '\\');
        }
        assert(escaped(r) + seq!['"'] =~= e1 + (escaped(rest) + seq!['"']));
        lemma_split(s, j, e1, escaped(rest) + seq!['"']);
        if c == '"' {
            assert(s[j] == '\\');
            assert(s[j + 1] == '"');
            let t1 = tok.push('\\');
            assert(string_token_from(s, j, tok) == string_token_from(s, j + 1, t1));
            assert(t1.drop_last().push('"') =~= tok.push('"'));
            assert(string_token_from(s, j + 1, t1) == string_token_from(s, j + 2, tok.push('"')));
            lemma_string_token(rest, s, j + 2, tok.push('"'));
            assert(tok.push('"') + rest + seq!['"'] =~= tok + r + seq!['"']);
        } else {
            assert(s[j] == c);
            lemma_string_token(rest, s, j + 1, tok.push(c));
            assert(tok.push(c) + rest + seq!['"'] =~= tok + r + seq!['"']);
        }
    }
}

proof fn lemma_lex_string(r: Seq<char>, s: Seq<char>, i: int, acc: Seq<Seq<char>>)
    requires
        no_backslash(r),
        0 <= i,
        i + quoted(r).len() <= s.len(),
        s.subrange(i, i + quoted(r).len()) == quoted(r),
    ensures
        lex_from(s, i, acc) == lex_from(s, i + quoted(r).len(), acc.push(string_token(r))),
{
    let q = quoted(r);
    assert(s[i] == q[0]);
    lemma_not_word(s, i, null_word());
    lemma_not_word(s, i, true_word());
    lemma_not_word(s, i, false_word());
    assert(q =~= seq!['"'] + (escaped(r) + seq!['"']));
    lemma_split(s, i, seq!['"'], escaped(r) + seq!['"']);
    lemma_string_token(r, s, i + 1, seq!['"']);
    assert(seq!['"'] + r + seq!['"'] =~= string_token(r));
}

/// Where `x` stands in `s` from `i` on, each piece of `x` stands there too.
proof fn lemma_sub(s: Seq<char>, i: int, x: Seq<char>, a: int, b: int)
    requires
        0 <= i,
        i + x.len() <= s.len(),
        s.subrange(i, i + x.len()) == x,
        0 <= a <= b <= x.len(),
    ensures
        s.subrange(i + a, i + b) == x.subrange(a, b),
        a < x.len() ==> s[i + a] == x[a],
{
    let w = s.subrange(i, i + x.len());
    assert forall|k: int| 0 <= k < b - a implies #[trigger] s.subrange(i + a, i + b)[k] == x.subrange(a, b)[k] by {
        assert(w[a + k] == s[i + a + k]);
    }
    assert(s.subrange(i + a, i + b) =~= x.subrange(a, b));
    if a < x.len() {
        assert(w[a] == s[i + a]);
    }
}

/// A character that may follow a token: the end of the text, or one that
/// cannot continue a numeral.
pub open spec fn ends_token(s: Seq<char>, k: int) -> bool {
    k == s.len() || (0 <= k < s.len() && !is_number_char(s[k]) && !is_suffix(s[k]))
}

/// The text of a value lexes to its tokens.
proof fn lemma_lex_value(v: Val, tb: Seq<(u64, bool, Seq<char>)>, s: Seq<char>, i: int, acc: Seq<Seq<char>>)
    requires
        text_plain(v),
        0 <= i,
        i + text(v, tb).len() <= s.len(),
        s.subrange(i, i + text(v, tb).len()) == text(v, tb),
        ends_token(s, i + text(v, tb).len()),
    ensures
        lex_from(s, i, acc) == lex_from(s, i + text(v, tb).len(), acc + toks(v)),
    decreases v, 0nat,
{
    let t = text(v, tb);
    match v {
        Val::Null => {
            lemma_sub(s, i, t, 0, 0);
            assert(t == null_word());
            assert(acc + toks(v) =~= acc.push(null_word()));
        },
        Val::Boolean(b) => {
            lemma_sub(s, i, t, 0, 0);
            lemma_not_word(s, i, null_word());
            if b {
                assert(t == true_word());
                assert(acc + toks(v) =~= acc.push(true_word()));
            } else {
                lemma_not_word(s, i, true_word());
                assert(t == false_word());
                assert(acc + toks(v) =~= acc.push(false_word()));
            }
        },
        Val::Bit(b) => {
            let n = if b { seq!['1'] } else { seq!['0'] };
            assert(t.drop_last() =~= n);
            lemma_lex_number(s, i, n, t, acc);
            assert(acc + toks(v) =~= acc.push(t));
        },
        Val::Int8(x) => {
            lemma_int_text(x as int);
            assert(t.drop_last() =~= int_text(x as int));
            lemma_lex_number(s, i, int_text(x as int), t, acc);
            assert(acc + toks(v) =~= acc.push(t));
        },
        Val::Int16(x) => {
            lemma_int_text(x as int);
            assert(t.drop_last() =~= int_text(x as int));
            lemma_lex_number(s, i, int_text(x as int), t, acc);
            assert(acc + toks(v) =~= acc.push(t));
        },
        Val::Int32(x) => {
            lemma_int_text(x as int);
            lemma_lex_number(s, i, int_text(x as int), t, acc);
            assert(acc + toks(v) =~= acc.push(t));
        },
        Val::Int64(x) => {
            lemma_int_text(x as int);
            assert(t.drop_last() =~= int_text(x as int));
            lemma_lex_number(s, i, int_text(x as int), t, acc);
            assert(acc + toks(v) =~= acc.push(t));
        },
        Val::Str(r) => {
            lemma_lex_string(r, s, i, acc);
            assert(acc + toks(v) =~= acc.push(string_token(r)));
        },
        Val::Array(a) => {
            let body = items_text(a, tb);
            let l: int = body.len() as int;
            lemma_sub(s, i, t, 0, 1);
            lemma_sub(s, i, t, 1, 1 + l);
            lemma_sub(s, i, t, 1 + l, 2 + l);
            assert(t.subrange(1, 1 + l) =~= body);
            assert(t[0] == '[' && t[1 + l] == ']');
            lemma_lex_char(s, i, acc);
            let acc1 = acc.push(seq!['[']);
            assert(seq![s[i]] == seq!['[']);
            lemma_lex_items(a, tb, s, i + 1, acc1);
            let acc2 = acc1 + items_toks(a);
            lemma_lex_char(s, i + 1 + l, acc2);
            assert(seq![s[i + 1 + l]] == seq![']']);
            assert(acc + toks(v) =~= acc2.push(seq![']']));
        },
        Val::Object(o) => {
            let body = entries_text(o, tb);
            let l: int = body.len() as int;
            lemma_sub(s, i, t, 0, 1);
            lemma_sub(s, i, t, 1, 1 + l);
            lemma_sub(s, i, t, 1 + l, 2 + l);
            assert(t.subrange(1, 1 + l) =~= body);
            assert(t[0] == '{' && t[1 + l] == '}');
            lemma_lex_char(s, i, acc);
            let acc1 = acc.push(seq!['{']);
            assert(seq![s[i]] == seq!['{']);
            lemma_lex_entries(o, tb, s, i + 1, acc1);
            let acc2 = acc1 + entries_toks(o);
            lemma_lex_char(s, i + 1 + l, acc2);
            assert(seq![s[i + 1 + l]] == seq!['}']);
            assert(acc + toks(v) =~= acc2.push(seq!['}']));
        },
        _ => {},
    }
}

proof fn lemma_lex_items(a: Seq<Val>, tb: Seq<(u64, bool, Seq<char>)>, s: Seq<char>, i: int, acc: Seq<Seq<char>>)
    requires
        forall|j: int| 0 <= j < a.len() ==> text_plain(#[trigger] a[j]),
        0 <= i,
        i + items_text(a, tb).len() <= s.len(),
        s.subrange(i, i + items_text(a, tb).len()) == items_text(a, tb),
        ends_token(s, i + items_text(a, tb).len()),
    ensures
        lex_from(s, i, acc) == lex_from(s, i + items_text(a, tb).len(), acc + items_toks(a)),
    decreases a, 0nat,
{
    let t = items_text(a, tb);
    if a.len() == 0 {
        assert(acc + items_toks(a) =~= acc);
    } else if a.len() == 1 {
        lemma_lex_value(a[0], tb, s, i, acc);
    } else {
        let rest = a.subrange(1, a.len() as int);
        let t0 = text(a[0], tb);
        let l0: int = t0.len() as int;
        let tr = items_text(rest, tb);
        assert(t =~= t0 + seq![',', ' '] + tr);
        lemma_sub(s, i, t, 0, l0);
        lemma_sub(s, i, t, l0, l0 + 1);
        lemma_sub(s, i, t, l0 + 1, l0 + 2);
        lemma_sub(s, i, t, l0 + 2, t.len() as int);
        assert(t.subrange(0, l0) =~= t0);
        assert(t.subrange(l0 + 2, t.len() as int) =~= tr);
        assert(t[l0] == ',' && t[l0 + 1] == ' ');
        lemma_lex_value(a[0], tb, s, i, acc);
        let acc1 = acc + toks(a[0]);
        lemma_lex_char(s, i + l0, acc1);
        let acc2 = acc1.push(seq![',']);
        assert(seq![s[i + l0]] == seq![',']);
        lemma_lex_char(s, i + l0 + 1, acc2);
        assert forall|j: int| 0 <= j < rest.len() implies text_plain(#[trigger] rest[j]) by {
            assert(rest[j] == a[j + 1]);
        }
        lemma_lex_items(rest, tb, s, i + l0 + 2, acc2);
        assert(acc2 + items_toks(rest) =~= acc + items_toks(a));
    }
}

/// One entry, `"key": value`, lexes to the key's token, `:` and the value's
/// tokens.
proof fn lemma_lex_entry(
    k: Seq<char>,
    v: Val,
    tb: Seq<(u64, bool, Seq<char>)>,
    s: Seq<char>,
    i: int,
    acc: Seq<Seq<char>>,
)
    requires
        no_backslash(k),
        text_plain(v),
        0 <= i,
        i + quoted(k).len() + 2 + text(v, tb).len() <= s.len(),
        s.subrange(i, i + quoted(k).len() + 2 + text(v, tb).len()) == quoted(k) + seq![':', ' '] + text(
            v,
            tb,
        ),
        ends_token(s, i + quoted(k).len() + 2 + text(v, tb).len()),
    ensures
        lex_from(s, i, acc) == lex_from(
            s,
            i + quoted(k).len() + 2 + text(v, tb).len(),
            acc + seq![string_token(k), seq![':']] + toks(v),
        ),
    decreases v, 1nat,
{
    let q = quoted(k);
    let lq: int = q.len() as int;
    let tv = text(v, tb);
    let lv: int = tv.len() as int;
    let t = q + seq![':', ' '] + tv;
    lemma_sub(s, i, t, 0, lq);
    lemma_sub(s, i, t, lq, lq + 1);
    lemma_sub(s, i, t, lq + 1, lq + 2);
    lemma_sub(s, i, t, lq + 2, lq + 2 + lv);
    assert(t.subrange(0, lq) =~= q);
    assert(t.subrange(lq + 2, lq + 2 + lv) =~= tv);
    assert(t[lq] == ':' && t[lq + 1] == ' ');
    lemma_lex_string(k, s, i, acc);
    let acc1 = acc.push(string_token(k));
    lemma_lex_char(s, i + lq, acc1);
    let acc2 = acc1.push(seq![':']);
    assert(seq![s[i + lq]] == seq![':']);
    lemma_lex_char(s, i + lq + 1, acc2);
    lemma_lex_value(v, tb, s, i + lq + 2, acc2);
    assert(acc2 + toks(v) =~= acc + seq![string_token(k), seq![':']] + toks(v));
}

proof fn lemma_lex_entries(
    o: Seq<(Seq<char>, Val)>,
    tb: Seq<(u64, bool, Seq<char>)>,
    s: Seq<char>,
    i: int,
    acc: Seq<Seq<char>>,
)
    requires
        forall|j: int| #![trigger o[j]] 0 <= j < o.len() ==> no_backslash(o[j].0) && text_plain(o[j].1),
        0 <= i,
        i + entries_text(o, tb).len() <= s.len(),
        s.subrange(i, i + entries_text(o, tb).len()) == entries_text(o, tb),
        ends_token(s, i + entries_text(o, tb).len()),
    ensures
        lex_from(s, i, acc) == lex_from(s, i + entries_text(o, tb).len(), acc + entries_toks(o)),
    decreases o, 0nat,
{
    let t = entries_text(o, tb);
    if o.len() == 0 {
        assert(acc + entries_toks(o) =~= acc);
    } else {
        let (k, v) = o[0];
        let head = quoted(k) + seq![':', ' '] + text(v, tb);
        let lh: int = head.len() as int;
        let acc2 = acc + seq![string_token(k), seq![':']] + toks(v);
        if o.len() == 1 {
            assert(t =~= head);
            lemma_lex_entry(k, v, tb, s, i, acc);
            assert(acc2 =~= acc + entries_toks(o));
        } else {
            let rest = o.subrange(1, o.len() as int);
            let tr = entries_text(rest, tb);
            assert(t =~= head + seq![',', ' '] + tr);
            lemma_sub(s, i, t, 0, lh);
            lemma_sub(s, i, t, lh, lh + 1);
            lemma_sub(s, i, t, lh + 1, lh + 2);
            lemma_sub(s, i, t, lh + 2, t.len() as int);
            assert(t.subrange(0, lh) =~= head);
            assert(t[lh] == ',' && t[lh + 1] == ' ');
            assert(t.subrange(lh + 2, t.len() as int) =~= tr);
            lemma_lex_entry(k, v, tb, s, i, acc);
            lemma_lex_char(s, i + lh, acc2);
            let acc4 = acc2.push(seq![',']);
            assert(seq![s[i + lh]] == seq![',']);
            lemma_lex_char(s, i + lh + 1, acc4);
            assert forall|m: int| #![trigger rest[m]] 0 <= m < rest.len() implies no_backslash(rest[m].0)
                && text_plain(rest[m].1) by {
                assert(rest[m] == o[m + 1]);
            }
            lemma_lex_entries(rest, tb, s, i + lh + 2, acc4);
            assert(acc4 + entries_toks(rest) =~= acc + entries_toks(o));
        }
    }
}

// ---------------------------------------------------------------- parsing

proof fn lemma_first_tok(v: Val)
    requires
        text_plain(v),
    ensures
        toks(v).len() >= 1,
        toks(v)[0] != seq![']'],
        toks(v)[0] != seq!['}'],
{
    match v {
        Val::Int8(x) => lemma_int_text(x as int),
        Val::Int16(x) => lemma_int_text(x as int),
        Val::Int32(x) => lemma_int_text(x as int),
        Val::Int64(x) => lemma_int_text(x as int),
        _ => {},
    }
    let t0 = toks(v)[0];
    assert(t0.len() >= 1 && t0[0] != ']' && t0[0] != '}') by {
        match v {
            Val::Int8(x) => assert(t0[0] == int_text(x as int)[0]),
            Val::Int16(x) => assert(t0[0] == int_text(x as int)[0]),
            Val::Int64(x) => assert(t0[0] == int_text(x as int)[0]),
            _ => {},
        }
    }
    assert(seq![']'][0] == ']');
    assert(seq!['}'][0] == '}');
}

/// Where `x` stands in `t` from `i` on, its pieces stand there too.
proof fn lemma_tsub(t: Seq<Seq<char>>, i: int, x: Seq<Seq<char>>, a: int, b: int)
    requires
        0 <= i,
        i + x.len() <= t.len(),
        t.subrange(i, i + x.len()) == x,
        0 <= a <= b <= x.len(),
    ensures
        t.subrange(i + a, i + b) == x.subrange(a, b),
        a < x.len() ==> t[i + a] == x[a],
{
    let w = t.subrange(i, i + x.len());
    assert forall|k: int| 0 <= k < b - a implies #[trigger] t.subrange(i + a, i + b)[k] == x.subrange(a, b)[k] by {
        assert(w[a + k] == t[i + a + k]);
    }
    assert(t.subrange(i + a, i + b) =~= x.subrange(a, b));
    if a < x.len() {
        assert(w[a] == t[i + a]);
    }
}

/// A string's token parses to it.
proof fn lemma_parse_str(r: Seq<char>, t: Seq<Seq<char>>, fl: Seq<Option<u64>>, i: int)
    requires
        0 <= i < t.len(),
        t[i] == string_token(r),
    ensures
        parse_from(t, fl, i) == Ok::<(Val, int), crate::errors::ParseFault>((Val::Str(r), i + 1)),
{
    let tok = t[i];
    assert(tok[0] == '"');
    assert(tok != seq!['['] && tok != seq!['{']) by {
        assert(seq!['['][0] == '[');
        assert(seq!['{'][0] == '{');
    }
    assert(tok != null_word() && tok != true_word() && tok != false_word()) by {
        assert(null_word()[0] == 'n');
        assert(true_word()[0] == 't');
        assert(false_word()[0] == 'f');
    }
    assert(tok.subrange(1, tok.len() - 1) =~= r);
}

/// A numeric token of a value parses to it.
proof fn lemma_parse_number(v: Val, fl: Option<u64>)
    requires
        v is Bit || v is Int8 || v is Int16 || v is Int32 || v is Int64,
    ensures
        toks(v)[0].len() > 0,
        is_number_char(toks(v)[0][0]),
        number_value(toks(v)[0], fl) == Ok::<Val, crate::errors::ParseFault>(v),
{
    let tok = toks(v)[0];
    match v {
        Val::Bit(b) => {},
        Val::Int8(x) => {
            lemma_int_text(x as int);
            assert(tok.drop_last() =~= int_text(x as int));
            assert(tok[0] == int_text(x as int)[0]);
        },
        Val::Int16(x) => {
            lemma_int_text(x as int);
            assert(tok.drop_last() =~= int_text(x as int));
            assert(tok[0] == int_text(x as int)[0]);
        },
        Val::Int32(x) => {
            lemma_int_text(x as int);
            let l = tok.last();
            assert(is_number_char(l));
        },
        Val::Int64(x) => {
            lemma_int_text(x as int);
            assert(tok.drop_last() =~= int_text(x as int));
            assert(tok[0] == int_text(x as int)[0]);
        },
        _ => {},
    }
}

/// The tokens of a value parse to it.
proof fn lemma_parse_value(v: Val, t: Seq<Seq<char>>, fl: Seq<Option<u64>>, i: int)
    requires
        text_plain(v),
        wf(v),
        0 <= i,
        i + toks(v).len() <= t.len(),
        t.subrange(i, i + toks(v).len()) == toks(v),
    ensures
        parse_from(t, fl, i) == Ok::<(Val, int), crate::errors::ParseFault>((v, i + toks(v).len())),
    decreases v, 1nat,
{
    let x = toks(v);
    lemma_first_tok(v);
    lemma_tsub(t, i, x, 0, 1);
    let tok = t[i];
    assert(tok == x[0]);
    match v {
        Val::Array(a) => {
            let body = items_toks(a);
            let l: int = body.len() as int;
            lemma_tsub(t, i, x, 1, l + 2);
            assert(x.subrange(1, l + 2) =~= body + seq![seq![']']]);
            lemma_parse_items(a, t, fl, i + 1, Seq::empty());
            assert(Seq::<Val>::empty() + a =~= a);
        },
        Val::Object(o) => {
            let body = entries_toks(o);
            let l: int = body.len() as int;
            lemma_tsub(t, i, x, 1, l + 2);
            assert(x.subrange(1, l + 2) =~= body + seq![seq!['}']]);
            let empty = Seq::<(Seq<char>, Val)>::empty();
            assert(empty + o =~= o);
            lemma_parse_entries(o, t, fl, i + 1, empty);
        },
        Val::Str(r) => {
            lemma_parse_str(r, t, fl, i);
        },
        Val::Null => {},
        Val::Boolean(b) => {
            assert(true_word() != null_word()) by {
                assert(true_word()[0] != null_word()[0]);
            }
            assert(false_word() != null_word()) by {
                assert(false_word()[0] != null_word()[0]);
            }
            assert(false_word() != true_word()) by {
                assert(false_word()[0] != true_word()[0]);
            }
        },
        _ => {
            lemma_parse_number(v, if 0 <= i < fl.len() { fl[i] } else { None });
            let c = tok[0];
            assert(is_number_char(c));
            assert(tok != seq!['['] && tok != seq!['{']) by {
                assert(seq!['['][0] == '[');
                assert(seq!['{'][0] == '{');
            }
            assert(tok != null_word() && tok != true_word() && tok != false_word()) by {
                assert(null_word()[0] == 'n');
                assert(true_word()[0] == 't');
                assert(false_word()[0] == 'f');
            }
        },
    }
}

proof fn lemma_parse_items(a: Seq<Val>, t: Seq<Seq<char>>, fl: Seq<Option<u64>>, i: int, acc: Seq<Val>)
    requires
        forall|j: int| 0 <= j < a.len() ==> text_plain(#[trigger] a[j]) && wf(a[j]),
        0 <= i,
        i + items_toks(a).len() + 1 <= t.len(),
        t.subrange(i, i + items_toks(a).len() + 1) == items_toks(a) + seq![seq![']']],
    ensures
        items_from(t, fl, i, acc) == Ok::<(Seq<Val>, int), crate::errors::ParseFault>(
            (acc + a, i + items_toks(a).len() + 1),
        ),
    decreases a, 0nat,
{
    let x = items_toks(a) + seq![seq![']']];
    let l: int = items_toks(a).len() as int;
    lemma_tsub(t, i, x, l, l + 1);
    assert(t[i + l] == seq![']']);
    if a.len() == 0 {
        assert(acc + a =~= acc);
    } else {
        let v = a[0];
        let tv = toks(v);
        let lv: int = tv.len() as int;
        lemma_first_tok(v);
        let rest = a.subrange(1, a.len() as int);
        if a.len() == 1 {
            assert(x =~= tv + seq![seq![']']]);
        } else {
            assert(x =~= tv + seq![seq![',']] + (items_toks(rest) + seq![seq![']']]));
        }
        lemma_tsub(t, i, x, 0, lv);
        assert(x.subrange(0, lv) =~= tv);
        lemma_tsub(t, i, x, lv, lv + 1);
        assert(t[i] == tv[0]);
        lemma_parse_value(v, t, fl, i);
        let e = i + lv;
        assert(parse_from(t, fl, i) == Ok::<(Val, int), crate::errors::ParseFault>((v, e)));
        assert(i < e < t.len());
        assert(t[i] != seq![']']);
        assert(seq![','] != seq![']']) by {
            assert(seq![','][0] != seq![']'][0]);
        }
        if a.len() == 1 {
            assert(t[e] == seq![']']);
            assert(t[e] != seq![',']);
            assert(items_from(t, fl, i, acc) == items_from(t, fl, e, acc.push(v)));
            assert(items_from(t, fl, e, acc.push(v)) == Ok::<(Seq<Val>, int), crate::errors::ParseFault>((acc.push(v), e + 1)));
            assert(acc.push(v) =~= acc + a);
        } else {
            assert(t[e] == seq![',']);
            assert(seq![','] != seq![']']) by {
                assert(seq![','][0] != seq![']'][0]);
            }
            let lr: int = items_toks(rest).len() as int;
            lemma_tsub(t, i, x, lv + 1, lv + 2 + lr);
            assert(x.subrange(lv + 1, lv + 2 + lr) =~= items_toks(rest) + seq![seq![']']]);
            assert forall|j: int| 0 <= j < rest.len() implies text_plain(#[trigger] rest[j]) && wf(rest[j]) by {
                assert(rest[j] == a[j + 1]);
            }
            assert(items_from(t, fl, i, acc) == items_from(t, fl, e + 1, acc.push(v)));
            lemma_parse_items(rest, t, fl, e + 1, acc.push(v));
            assert(acc.push(v) + rest =~= acc + a);
        }
    }
}

/// One entry's tokens: the key, `:` and the value.
proof fn lemma_parse_entry(k: Seq<char>, v: Val, t: Seq<Seq<char>>, fl: Seq<Option<u64>>, i: int)
    requires
        no_backslash(k),
        text_plain(v),
        wf(v),
        0 <= i,
        i + 2 + toks(v).len() <= t.len(),
        t.subrange(i, i + 2 + toks(v).len()) == seq![string_token(k), seq![':']] + toks(v),
    ensures
        parse_from(t, fl, i) == Ok::<(Val, int), crate::errors::ParseFault>((Val::Str(k), i + 1)),
        t[i + 1] == seq![':'],
        parse_from(t, fl, i + 2) == Ok::<(Val, int), crate::errors::ParseFault>((v, i + 2 + toks(v).len())),
    decreases v, 2nat,
{
    let x = seq![string_token(k), seq![':']] + toks(v);
    let lv: int = toks(v).len() as int;
    lemma_tsub(t, i, x, 0, 1);
    lemma_parse_str(k, t, fl, i);
    lemma_tsub(t, i, x, 1, 2);
    lemma_tsub(t, i, x, 2, 2 + lv);
    assert(x.subrange(2, 2 + lv) =~= toks(v));
    lemma_parse_value(v, t, fl, i + 2);
}

proof fn lemma_parse_entries(
    o: Seq<(Seq<char>, Val)>,
    t: Seq<Seq<char>>,
    fl: Seq<Option<u64>>,
    i: int,
    acc: Seq<(Seq<char>, Val)>,
)
    requires
        forall|j: int|
            #![trigger o[j]]
            0 <= j < o.len() ==> no_backslash(o[j].0) && text_plain(o[j].1) && wf(o[j].1),
        keys_of(acc + o).no_duplicates(),
        0 <= i,
        i + entries_toks(o).len() + 1 <= t.len(),
        t.subrange(i, i + entries_toks(o).len() + 1) == entries_toks(o) + seq![seq!['}']],
    ensures
        entries_from(t, fl, i, acc) == Ok::<(Seq<(Seq<char>, Val)>, int), crate::errors::ParseFault>(
            (acc + o, i + entries_toks(o).len() + 1),
        ),
    decreases o, 0nat,
{
    let x = entries_toks(o) + seq![seq!['}']];
    let l: int = entries_toks(o).len() as int;
    lemma_tsub(t, i, x, l, l + 1);
    assert(t[i + l] == seq!['}']);
    if o.len() == 0 {
        assert(acc + o =~= acc);
    } else {
        let (k, v) = o[0];
        let head = seq![string_token(k), seq![':']] + toks(v);
        let lh: int = head.len() as int;
        let rest = o.subrange(1, o.len() as int);
        if o.len() == 1 {
            assert(x =~= head + seq![seq!['}']]);
        } else {
            assert(x =~= head + seq![seq![',']] + (entries_toks(rest) + seq![seq!['}']]));
        }
        lemma_tsub(t, i, x, 0, lh);
        assert(x.subrange(0, lh) =~= head);
        lemma_tsub(t, i, x, lh, lh + 1);
        lemma_parse_entry(k, v, t, fl, i);
        lemma_first_tok(v);
        assert(t[i] == string_token(k));
        assert(t[i] != seq!['}']) by {
            assert(t[i][0] == '"');
            assert(seq!['}'][0] == '}');
        }
        assert(seq![':'] != seq!['}']) by {
            assert(seq![':'][0] != seq!['}'][0]);
        }
        assert forall|j: int| 0 <= j < acc.len() implies (#[trigger] acc[j]).0 != k by {
            assert(keys_of(acc + o)[j] == acc[j].0);
            assert(keys_of(acc + o)[acc.len() as int] == k);
        }
        lemma_insert_new(acc, k, v, 0);
        assert(entry_insert(acc, k, v) == acc.push((k, v)));
        let e2 = i + lh;
        assert(seq![','] != seq!['}']) by {
            assert(seq![','][0] != seq!['}'][0]);
        }
        assert(lh == 2 + toks(v).len());
        assert(i + 1 < t.len() && t[i + 1] == seq![':']);
        assert(parse_from(t, fl, i + 2) == Ok::<(Val, int), crate::errors::ParseFault>((v, e2)));
        assert(e2 < t.len());
        if o.len() == 1 {
            assert(t[e2] == seq!['}']);
            assert(t[e2] != seq![',']);
            assert(entries_from(t, fl, i, acc) == entries_from(t, fl, e2, acc.push((k, v))));
            assert(entries_from(t, fl, e2, acc.push((k, v))) == Ok::<
                (Seq<(Seq<char>, Val)>, int),
                crate::errors::ParseFault,
            >((acc.push((k, v)), e2 + 1)));
            assert(acc.push((k, v)) =~= acc + o);
        } else {
            assert(t[e2] == seq![',']);
            assert(seq![','] != seq!['}']) by {
                assert(seq![','][0] != seq!['}'][0]);
            }
            let lr: int = entries_toks(rest).len() as int;
            lemma_tsub(t, i, x, lh + 1, lh + 2 + lr);
            assert(x.subrange(lh + 1, lh + 2 + lr) =~= entries_toks(rest) + seq![seq!['}']]);
            assert forall|m: int|
                #![trigger rest[m]]
                0 <= m < rest.len() implies no_backslash(rest[m].0) && text_plain(rest[m].1) && wf(
                    rest[m].1,
                ) by {
                assert(rest[m] == o[m + 1]);
            }
            assert(acc.push((k, v)) + rest =~= acc + o);
            assert(entries_from(t, fl, i, acc) == entries_from(t, fl, e2 + 1, acc.push((k, v))));
            lemma_parse_entries(rest, t, fl, e2 + 1, acc.push((k, v)));
        }
    }
}

/// Writing a value and reading the text back gives the value: the text
/// lexes to tokens that parse to the value and are used up by it. This holds
/// of well-formed values (unique keys) with no float and no backslash in
/// their strings and keys; the float texts and float bits play no part.
pub proof fn lemma_text_round_trip(v: Val, table: Seq<(u64, bool, Seq<char>)>, floats: Seq<Option<u64>>)
    requires
        wf(v),
        text_plain(v),
    ensures
        lex_spec(text(v, table)) == Ok::<Seq<Seq<char>>, crate::errors::ParseFault>(toks(v)),
        parse_from(toks(v), floats, 0) == Ok::<(Val, int), crate::errors::ParseFault>(
            (v, toks(v).len() as int),
        ),
{
    let s = text(v, table);
    assert(s.subrange(0, s.len() as int) =~= s);
    lemma_lex_value(v, table, s, 0, Seq::empty());
    assert(Seq::<Seq<char>>::empty() + toks(v) =~= toks(v));
    assert(lex_from(s, s.len() as int, toks(v)) == Ok::<Seq<Seq<char>>, crate::errors::ParseFault>(toks(v)));
    let t = toks(v);
    assert(t.subrange(0, t.len() as int) =~= t);
    lemma_parse_value(v, t, floats, 0);
}

} // verus!
