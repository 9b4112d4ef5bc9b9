//! The text notation: a lexer from characters to tokens, and a parser from
//! tokens to values.

use crate::errors::{ParseError, ParseFault};
use crate::value::{
    chars_of, entries_view, entry_insert, insert_entry, items_view, lemma_array_view,
    lemma_object_view, string_from, Val, Value,
};
use vstd::prelude::*;

verus! {

/// A character that a numeric literal is made of.
pub open spec fn is_number_char(c: char) -> bool {
    ('0' <= c && c <= '9') || c == '.' || c == '-'
}

/// A type suffix of a numeric literal.
pub open spec fn is_suffix(c: char) -> bool {
    c == 'b' || c == 'B' || c == 'l' || c == 's' || c == 'f' || c == 'd'
}

/// A character that separates tokens and is dropped.
pub open spec fn is_space(c: char) -> bool {
    c == ' ' || c == '\t' || c == '\n' || c == '\r'
}

/// A structural character, a token of its own.
pub open spec fn is_control(c: char) -> bool {
    c == ',' || c == ':' || c == '[' || c == '{' || c == ']' || c == '}'
}

/// Whether the characters of `w` stand in `s` from `i` on.
pub open spec fn word_at(s: Seq<char>, i: int, w: Seq<char>) -> bool {
    0 <= i && i + w.len() <= s.len() && s.subrange(i, i + w.len()) == w
}

pub open spec fn null_word() -> Seq<char> {
    seq!['n', 'u', 'l', 'l']
}

pub open spec fn true_word() -> Seq<char> {
    seq!['t', 'r', 'u', 'e']
}

pub open spec fn false_word() -> Seq<char> {
    seq!['f', 'a', 'l', 's', 'e']
}

/// The end of the run of number characters that starts at `i`.
pub open spec fn number_run_end(s: Seq<char>, i: int) -> int
    decreases s.len() - i,
{
    if 0 <= i < s.len() && is_number_char(s[i]) {
        number_run_end(s, i + 1)
    } else {
        i
    }
}

/// The end of the numeric literal at `i`: its run of number characters,
/// and a type suffix where one follows.
pub open spec fn number_end(s: Seq<char>, i: int) -> int {
    let j = number_run_end(s, i);
    if 0 <= j < s.len() && is_suffix(s[j]) {
        j + 1
    } else {
        j
    }
}

/// The rest of a quoted string from `i` on, `tok` being the token so far
/// (opening quote included): an escaped quote `\"` becomes `"`, and the
/// token ends with the first other quote. `None` where the text ends first.
pub open spec fn string_token_from(s: Seq<char>, i: int, tok: Seq<char>) -> Option<(Seq<char>, int)>
    decreases s.len() - i,
{
    if i < 0 || i >= s.len() {
        None
    } else if s[i] == '"' && tok.len() > 0 && tok.last() == '\\' {
        string_token_from(s, i + 1, tok.drop_last().push('"'))
    } else if s[i] == '"' {
        Some((tok.push('"'), i + 1))
    } else {
        string_token_from(s, i + 1, tok.push(s[i]))
    }
}

/// The tokens of `s` from `i` on, after those in `acc`.
/// (Each token ends past `i`; the conditions on `e` only make the measure plain.)
pub open spec fn lex_from(s: Seq<char>, i: int, acc: Seq<Seq<char>>) -> Result<Seq<Seq<char>>, ParseFault>
    decreases s.len() - i,
{
    if i < 0 || i >= s.len() {
        Ok(acc)
    } else {
        let c = s[i];
        if is_number_char(c) {
            let e = number_end(s, i);
            if i < e <= s.len() {
                lex_from(s, e, acc.push(s.subrange(i, e)))
            } else {
                Ok(acc)
            }
        } else if word_at(s, i, null_word()) {
            lex_from(s, i + 4, acc.push(null_word()))
        } else if word_at(s, i, true_word()) {
            lex_from(s, i + 4, acc.push(true_word()))
        } else if word_at(s, i, false_word()) {
            lex_from(s, i + 5, acc.push(false_word()))
        } else if c == '"' {
            match string_token_from(s, i + 1, seq!['"']) {
                None => Err(ParseFault::Eof),
                Some((t, e)) => if i < e <= s.len() {
                    lex_from(s, e, acc.push(t))
                } else {
                    Ok(acc)
                },
            }
        } else if is_space(c) {
            lex_from(s, i + 1, acc)
        } else if is_control(c) {
            lex_from(s, i + 1, acc.push(seq![c]))
        } else {
            Err(ParseFault::UnexpectedCharacter(c))
        }
    }
}

/// The tokens of a text.
pub open spec fn lex_spec(s: Seq<char>) -> Result<Seq<Seq<char>>, ParseFault> {
    lex_from(s, 0, Seq::empty())
}

/// The models of a list of tokens.
pub open spec fn tokens_view(t: Seq<String>) -> Seq<Seq<char>> {
    Seq::new(t.len(), |i: int| t[i]@)
}

fn is_number_char_exec(c: char) -> (r: bool)
    ensures
        r == is_number_char(c),
{
    ('0' <= c && c <= '9') || c == '.' || c == '-'
}

fn is_suffix_exec(c: char) -> (r: bool)
    ensures
        r == is_suffix(c),
{
    c == 'b' || c == 'B' || c == 'l' || c == 's' || c == 'f' || c == 'd'
}

/// A numeric literal at `i`: its token and the position after it.
fn lex_num(cs: &Vec<char>, i: usize) -> (r: Option<(String, usize)>)
    requires
        i < cs@.len(),
    ensures
        is_number_char(cs@[i as int]) ==> r is Some && r->Some_0.0@ == cs@.subrange(
            i as int,
            number_end(cs@, i as int),
        ) && r->Some_0.1 == number_end(cs@, i as int) && i < r->Some_0.1 <= cs@.len(),
        !is_number_char(cs@[i as int]) ==> r is None,
{
    if !is_number_char_exec(cs[i]) {
        return None;
    }
    let mut j = i;
    while j < cs.len() && is_number_char_exec(cs[j])
        invariant
            i <= j <= cs@.len(),
            j > i || is_number_char(cs@[i as int]),
            number_run_end(cs@, i as int) == number_run_end(cs@, j as int),
        decreases cs@.len() - j,
    {
        j += 1;
    }
    if j < cs.len() && is_suffix_exec(cs[j]) {
        j += 1;
    }
    Some((string_from(&cs.as_slice()[i..j]), j))
}

/// The word `null` at `i`.
fn lex_null(cs: &Vec<char>, i: usize) -> (r: Option<(String, usize)>)
    ensures
        word_at(cs@, i as int, null_word()) ==> r is Some && r->Some_0.0@ == null_word() && r->Some_0.1
            == i + 4,
        !word_at(cs@, i as int, null_word()) ==> r is None,
{
    if i < cs.len() && cs.len() - i >= 4 && cs[i] == 'n' && cs[i + 1] == 'u' && cs[i + 2] == 'l' && cs[i
        + 3] == 'l' {
        assert(cs@.subrange(i as int, i + 4) =~= null_word());
        let w = ['n', 'u', 'l', 'l'];
        let t = string_from(&w);
        assert(t@ =~= null_word());
        return Some((t, i + 4));
    }
    proof {
        if word_at(cs@, i as int, null_word()) {
            assert(cs@.subrange(i as int, i + 4)[0] == 'n');
            assert(cs@.subrange(i as int, i + 4)[1] == 'u');
            assert(cs@.subrange(i as int, i + 4)[2] == 'l');
            assert(cs@.subrange(i as int, i + 4)[3] == 'l');
        }
    }
    None
}

/// The word `true` or `false` at `i`.
fn lex_bool(cs: &Vec<char>, i: usize) -> (r: Option<(String, usize)>)
    ensures
        word_at(cs@, i as int, true_word()) ==> r is Some && r->Some_0.0@ == true_word() && r->Some_0.1
            == i + 4,
        !word_at(cs@, i as int, true_word()) && word_at(cs@, i as int, false_word()) ==> r is Some
            && r->Some_0.0@ == false_word() && r->Some_0.1 == i + 5,
        !word_at(cs@, i as int, true_word()) && !word_at(cs@, i as int, false_word()) ==> r is None,
{
    if i < cs.len() && cs.len() - i >= 4 && cs[i] == 't' && cs[i + 1] == 'r' && cs[i + 2] == 'u' && cs[i
        + 3] == 'e' {
        assert(cs@.subrange(i as int, i + 4) =~= true_word());
        let w = ['t', 'r', 'u', 'e'];
        let t = string_from(&w);
        assert(t@ =~= true_word());
        return Some((t, i + 4));
    }
    proof {
        if word_at(cs@, i as int, true_word()) {
            assert(cs@.subrange(i as int, i + 4)[0] == 't');
            assert(cs@.subrange(i as int, i + 4)[1] == 'r');
            assert(cs@.subrange(i as int, i + 4)[2] == 'u');
            assert(cs@.subrange(i as int, i + 4)[3] == 'e');
        }
    }
    if i < cs.len() && cs.len() - i >= 5 && cs[i] == 'f' && cs[i + 1] == 'a' && cs[i + 2] == 'l' && cs[i
        + 3] == 's' && cs[i + 4] == 'e' {
        assert(cs@.subrange(i as int, i + 5) =~= false_word());
        let w = ['f', 'a', 'l', 's', 'e'];
        let t = string_from(&w);
        assert(t@ =~= false_word());
        return Some((t, i + 5));
    }
    proof {
        if word_at(cs@, i as int, false_word()) {
            assert(cs@.subrange(i as int, i + 5)[0] == 'f');
            assert(cs@.subrange(i as int, i + 5)[1] == 'a');
            assert(cs@.subrange(i as int, i + 5)[2] == 'l');
            assert(cs@.subrange(i as int, i + 5)[3] == 's');
            assert(cs@.subrange(i as int, i + 5)[4] == 'e');
        }
    }
    None
}

/// A quoted string at `i`: its token, quotes included and escaped quotes
/// unescaped, and the position after it.
fn lex_string(cs: &Vec<char>, i: usize) -> (r: Result<Option<(String, usize)>, ParseError>)
    requires
        i < cs@.len(),
    ensures
        cs@[i as int] != '"' ==> r is Ok && r->Ok_0 is None,
        cs@[i as int] == '"' ==> match string_token_from(cs@, i + 1, seq!['"']) {
            None => r is Err && r->Err_0@ == ParseFault::Eof,
            Some((t, e)) => r is Ok && r->Ok_0 is Some && r->Ok_0->Some_0.0@ == t && r->Ok_0->Some_0.1
                == e && i < e <= cs@.len(),
        },
{
    let n = cs.len();
    if cs[i] != '"' {
        return Ok(None);
    }
    let mut tok: Vec<char> = Vec::new();
    tok.push('"');
    assert(tok@ =~= seq!['"']);
    let mut j = i + 1;
    while j < n
        invariant
            n == cs@.len(),
            i < j <= cs@.len(),
            cs@[i as int] == '"',
            tok@.len() > 0,
            string_token_from(cs@, i + 1, seq!['"']) == string_token_from(cs@, j as int, tok@),
        decreases cs@.len() - j,
    {
        let c = cs[j];
        if c == '"' && tok[tok.len() - 1] == '\\' {
            let ghost before = tok@;
            tok.pop();
            tok.push('"');
            assert(tok@ =~= before.drop_last().push('"'));
            j += 1;
        } else if c == '"' {
            tok.push('"');
            return Ok(Some((string_from(tok.as_slice()), j + 1)));
        } else {
            tok.push(c);
            j += 1;
        }
    }
    Err(ParseError::EOFError)
}

fn push_token(tokens: &mut Vec<String>, t: String)
    ensures
        tokens_view(final(tokens)@) == tokens_view(old(tokens)@).push(t@),
{
    tokens.push(t);
    assert(tokens_view(tokens@) =~= tokens_view(old(tokens)@).push(t@));
}

/// Splits a text into tokens: numeric literals, the words `null`, `true`
/// and `false`, quoted strings and the structural characters; whitespace
/// is dropped.
pub fn lex(string: &str) -> (r: Result<Vec<String>, ParseError>)
    ensures
        match lex_spec(string@) {
            Ok(ts) => r is Ok && tokens_view(r->Ok_0@) == ts,
            Err(f) => r is Err && r->Err_0@ == f,
        },
{
    let cs = chars_of(string);
    let mut tokens: Vec<String> = Vec::new();
    let mut i: usize = 0;
    assert(tokens_view(tokens@) =~= Seq::<Seq<char>>::empty());
    while i < cs.len()
        invariant
            i <= cs@.len(),
            cs@ == string@,
            lex_spec(string@) == lex_from(cs@, i as int, tokens_view(tokens@)),
        decreases cs@.len() - i,
    {
        if let Some((t, e)) = lex_num(&cs, i) {
            push_token(&mut tokens, t);
            i = e;
            continue;
        }
        if let Some((t, e)) = lex_null(&cs, i) {
            push_token(&mut tokens, t);
            i = e;
            continue;
        }
        if let Some((t, e)) = lex_bool(&cs, i) {
            push_token(&mut tokens, t);
            i = e;
            continue;
        }
        match lex_string(&cs, i) {
            Err(e) => return Err(e),
            Ok(Some((t, e))) => {
                push_token(&mut tokens, t);
                i = e;
                continue;
            },
            Ok(None) => {},
        }
        let c = cs[i];
        if c == ' ' || c == '\t' || c == '\n' || c == '\r' {
            i += 1;
            continue;
        }
        if c == ',' || c == ':' || c == '[' || c == '{' || c == ']' || c == '}' {
            let one = [c];
            let t = string_from(&one);
            assert(t@ =~= seq![c]);
            push_token(&mut tokens, t);
            i += 1;
            continue;
        }
        return Err(ParseError::UnexpectedCharacterError(c));
    }
    Ok(tokens)
}

// ---------------------------------------------------------------- parser

/// The value of a run of decimal digits, `None` where it is empty or holds
/// anything else.
pub open spec fn digits_value(d: Seq<char>) -> Option<int>
    decreases d.len(),
{
    if d.len() == 0 {
        None
    } else if !('0' <= d.last() && d.last() <= '9') {
        None
    } else {
        let dig = d.last() as int - '0' as int;
        if d.len() == 1 {
            Some(dig)
        } else {
            match digits_value(d.drop_last()) {
                Some(v) => Some(v * 10 + dig),
                None => None,
            }
        }
    }
}

/// The integer a decimal numeral stands for: an optional sign `+` or `-`,
/// then one or more digits.
pub open spec fn numeral_value(s: Seq<char>) -> Option<int> {
    if s.len() > 0 && s[0] == '-' {
        match digits_value(s.subrange(1, s.len() as int)) {
            Some(v) => Some(-v),
            None => None,
        }
    } else if s.len() > 0 && s[0] == '+' {
        digits_value(s.subrange(1, s.len() as int))
    } else {
        digits_value(s)
    }
}

/// The integer of a numeral where it lies in `lo..=hi`.
pub open spec fn int_in(s: Seq<char>, lo: int, hi: int) -> Option<int> {
    match numeral_value(s) {
        Some(v) => if lo <= v <= hi {
            Some(v)
        } else {
            None
        },
        None => None,
    }
}

/// The float bits given for the token at `i`, if any.
pub open spec fn float_at(floats: Seq<Option<u64>>, i: int) -> Option<u64> {
    if 0 <= i < floats.len() {
        floats[i]
    } else {
        None
    }
}

/// The value of a numeric literal, by its last character: a type suffix, or
/// none for a 32-bit integer. A float literal takes the bits in `float`.
pub open spec fn number_value(tok: Seq<char>, float: Option<u64>) -> Result<Val, ParseFault> {
    let last = tok.last();
    let body = tok.drop_last();
    let bad = Err(ParseFault::InvalidNumber(last));
    if last == 'b' {
        Ok(Val::Bit(tok[0] == '1'))
    } else if last == 'B' {
        match int_in(body, -0x80, 0x7f) {
            Some(v) => Ok(Val::Int8(v as i8)),
            None => bad,
        }
    } else if last == 's' {
        match int_in(body, -0x8000, 0x7fff) {
            Some(v) => Ok(Val::Int16(v as i16)),
            None => bad,
        }
    } else if last == 'l' {
        match int_in(body, -0x8000_0000_0000_0000, 0x7fff_ffff_ffff_ffff) {
            Some(v) => Ok(Val::Int64(v as i64)),
            None => bad,
        }
    } else if last == 'f' {
        match float {
            Some(bits) => Ok(Val::Float(bits as u32)),
            None => bad,
        }
    } else if last == 'd' {
        match float {
            Some(bits) => Ok(Val::Double(bits)),
            None => bad,
        }
    } else {
        match int_in(tok, -0x8000_0000, 0x7fff_ffff) {
            Some(v) => Ok(Val::Int32(v as i32)),
            None => bad,
        }
    }
}

/// An array from its elements and end position.
pub open spec fn array_result(r: Result<(Seq<Val>, int), ParseFault>) -> Result<(Val, int), ParseFault> {
    match r {
        Ok((a, e)) => Ok((Val::Array(a), e)),
        Err(f) => Err(f),
    }
}

/// An object from its entries and end position.
pub open spec fn object_result(r: Result<(Seq<(Seq<char>, Val)>, int), ParseFault>) -> Result<(Val, int), ParseFault> {
    match r {
        Ok((o, e)) => Ok((Val::Object(o), e)),
        Err(f) => Err(f),
    }
}

/// The value that starts at token `i`, and the position after it.
/// (In the functions for containers below, a value always ends past where
/// it starts; the conditions on `e` only make the measure plain.)
pub open spec fn parse_from(t: Seq<Seq<char>>, floats: Seq<Option<u64>>, i: int) -> Result<(Val, int), ParseFault>
    decreases t.len() - i, 0nat,
{
    if i < 0 || i >= t.len() {
        Err(ParseFault::Eof)
    } else {
        let tok = t[i];
        if tok == seq!['['] {
            array_result(items_from(t, floats, i + 1, Seq::empty()))
        } else if tok == seq!['{'] {
            object_result(entries_from(t, floats, i + 1, Seq::empty()))
        } else if tok == null_word() {
            Ok((Val::Null, i + 1))
        } else if tok == true_word() {
            Ok((Val::Boolean(true), i + 1))
        } else if tok == false_word() {
            Ok((Val::Boolean(false), i + 1))
        } else if tok.len() >= 2 && tok[0] == '"' {
            Ok((Val::Str(tok.subrange(1, tok.len() - 1)), i + 1))
        } else if tok.len() > 0 && is_number_char(tok[0]) {
            match number_value(tok, float_at(floats, i)) {
                Ok(v) => Ok((v, i + 1)),
                Err(f) => Err(f),
            }
        } else {
            Err(ParseFault::UnexpectedToken(tok))
        }
    }
}

/// The elements of an array from token `i` on, after those in `acc`, up to
/// and past its `]`.
pub open spec fn items_from(t: Seq<Seq<char>>, floats: Seq<Option<u64>>, i: int, acc: Seq<Val>) -> Result<
    (Seq<Val>, int),
    ParseFault,
>
    decreases t.len() - i, 1nat,
{
    if i < 0 || i >= t.len() {
        Err(ParseFault::Eof)
    } else if t[i] == seq![']'] {
        Ok((acc, i + 1))
    } else {
        match parse_from(t, floats, i) {
            Err(f) => Err(f),
            Ok((v, e)) => if !(i < e <= t.len()) {
                Err(ParseFault::Eof)
            } else if e == t.len() {
                Err(ParseFault::Eof)
            } else if t[e] == seq![','] {
                items_from(t, floats, e + 1, acc.push(v))
            } else if t[e] == seq![']'] {
                items_from(t, floats, e, acc.push(v))
            } else {
                Err(ParseFault::UnexpectedToken(t[e]))
            },
        }
    }
}

/// The entries of an object from token `i` on, up to and past its `}`.
pub open spec fn entries_from(
    t: Seq<Seq<char>>,
    floats: Seq<Option<u64>>,
    i: int,
    acc: Seq<(Seq<char>, Val)>,
) -> Result<(Seq<(Seq<char>, Val)>, int), ParseFault>
    decreases t.len() - i, 1nat,
{
    if i < 0 || i >= t.len() {
        Err(ParseFault::Eof)
    } else if t[i] == seq!['}'] {
        Ok((acc, i + 1))
    } else {
        match parse_from(t, floats, i) {
            Err(f) => Err(f),
            Ok((k, e)) => if !(i < e <= t.len()) {
                Err(ParseFault::Eof)
            } else {
                match k {
                    Val::Str(key) => if e == t.len() {
                        Err(ParseFault::Eof)
                    } else if t[e] != seq![':'] {
                        Err(ParseFault::UnexpectedToken(t[e]))
                    } else {
                        match parse_from(t, floats, e + 1) {
                            Err(f) => Err(f),
                            Ok((v, e2)) => if !(e + 1 < e2 <= t.len()) {
                                Err(ParseFault::Eof)
                            } else if e2 == t.len() {
                                Err(ParseFault::Eof)
                            } else if t[e2] == seq![','] {
                                entries_from(t, floats, e2 + 1, entry_insert(acc, key, v))
                            } else if t[e2] == seq!['}'] {
                                entries_from(t, floats, e2, entry_insert(acc, key, v))
                            } else {
                                Err(ParseFault::UnexpectedToken(t[e2]))
                            },
                        }
                    },
                    _ => Err(ParseFault::InvalidKey(k)),
                }
            },
        }
    }
}

/// Whether `r` is what the model `s` says: the same value and end position,
/// or the same error.
pub open spec fn parsed_as(r: Result<(Value, usize), ParseError>, s: Result<(Val, int), ParseFault>) -> bool {
    match s {
        Ok((v, e)) => r is Ok && r->Ok_0.0@ == v && r->Ok_0.1 as int == e,
        Err(f) => r is Err && r->Err_0@ == f,
    }
}

fn is_single(cs: &Vec<char>, c: char) -> (r: bool)
    ensures
        r == (cs@ == seq![c]),
{
    let r = cs.len() == 1 && cs[0] == c;
    proof {
        if r {
            assert(cs@ =~= seq![c]);
        }
    }
    r
}

fn same_chars(a: &Vec<char>, b: &[char]) -> (r: bool)
    ensures
        r == (a@ == b@),
{
    if a.len() != b.len() {
        return false;
    }
    let mut i: usize = 0;
    while i < a.len()
        invariant
            a@.len() == b@.len(),
            i <= a@.len(),
            a@.subrange(0, i as int) == b@.subrange(0, i as int),
        decreases a@.len() - i,
    {
        if a[i] != b[i] {
            assert(a@[i as int] != b@[i as int]);
            return false;
        }
        assert(a@.subrange(0, i + 1) =~= b@.subrange(0, i + 1));
        i += 1;
    }
    assert(a@ =~= a@.subrange(0, i as int));
    assert(b@ =~= b@.subrange(0, i as int));
    true
}

/// The value of a run of decimal digits, capped at `2^64`.
fn digits_capped(d: &[char]) -> (r: Option<u128>)
    ensures
        match digits_value(d@) {
            None => r is None,
            Some(v) => r is Some && r->Some_0 as int == if v > 0x1_0000_0000_0000_0000 {
                0x1_0000_0000_0000_0000
            } else {
                v
            },
        },
{
    let n = d.len();
    if n == 0 {
        return None;
    }
    let mut ok = true;
    let mut acc: u128 = 0;
    let mut i: usize = 0;
    while i < n
        invariant
            n == d@.len(),
            i <= n,
            i > 0 ==> match digits_value(d@.subrange(0, i as int)) {
                None => !ok,
                Some(v) => ok && v >= 0 && acc as int == if v > 0x1_0000_0000_0000_0000 {
                    0x1_0000_0000_0000_0000
                } else {
                    v
                },
            },
            i == 0 ==> ok && acc == 0,
        decreases n - i,
    {
        let c = d[i];
        proof {
            assert(d@.subrange(0, i + 1).drop_last() =~= d@.subrange(0, i as int));
            assert(d@.subrange(0, i + 1).last() == c);
        }
        if !('0' <= c && c <= '9') {
            ok = false;
        } else if ok {
            let dig = (c as u32 - '0' as u32) as u128;
            if acc < 0x1_0000_0000_0000_0000 {
                acc = acc * 10 + dig;
                if acc > 0x1_0000_0000_0000_0000 {
                    acc = 0x1_0000_0000_0000_0000;
                }
            }
        }
        i += 1;
    }
    assert(d@.subrange(0, n as int) =~= d@);
    if ok {
        Some(acc)
    } else {
        None
    }
}

/// The integer of a decimal numeral where it lies in `lo..=hi`.
fn parse_int(s: &[char], lo: i128, hi: i128) -> (r: Option<i128>)
    requires
        -0x1_0000_0000_0000_0000 < lo <= 0 <= hi < 0x1_0000_0000_0000_0000,
    ensures
        match int_in(s@, lo as int, hi as int) {
            None => r is None,
            Some(v) => r is Some && r->Some_0 as int == v,
        },
{
    let n = s.len();
    let neg = n > 0 && s[0] == '-';
    let start: usize = if n > 0 && (s[0] == '-' || s[0] == '+') { 1 } else { 0 };
    let digits = &s[start..n];
    assert(start == 0 ==> digits@ =~= s@);
    match digits_capped(digits) {
        None => None,
        Some(m) => {
            let v: i128 = if neg { 0 - (m as i128) } else { m as i128 };
            if lo <= v && v <= hi {
                Some(v)
            } else {
                None
            }
        },
    }
}

/// The value of a numeric literal, by its type suffix; `float` holds the
/// bits of a float literal.
fn parse_number(cs: &Vec<char>, float: Option<u64>) -> (r: Result<Value, ParseError>)
    requires
        cs@.len() > 0,
    ensures
        match number_value(cs@, float) {
            Ok(v) => r is Ok && r->Ok_0@ == v,
            Err(f) => r is Err && r->Err_0@ == f,
        },
{
    let n = cs.len();
    let last = cs[n - 1];
    let body = &cs.as_slice()[0..n - 1];
    assert(body@ =~= cs@.drop_last());
    if last == 'b' {
        Ok(Value::Bit(cs[0] == '1'))
    } else if last == 'B' {
        match parse_int(body, -0x80, 0x7f) {
            Some(v) => Ok(Value::Int8(v as i8)),
            None => Err(ParseError::InvalidNumberError(last)),
        }
    } else if last == 's' {
        match parse_int(body, -0x8000, 0x7fff) {
            Some(v) => Ok(Value::Int16(v as i16)),
            None => Err(ParseError::InvalidNumberError(last)),
        }
    } else if last == 'l' {
        match parse_int(body, -0x8000_0000_0000_0000, 0x7fff_ffff_ffff_ffff) {
            Some(v) => Ok(Value::Int64(v as i64)),
            None => Err(ParseError::InvalidNumberError(last)),
        }
    } else if last == 'f' {
        match float {
            Some(bits) => Ok(Value::Float(#[verifier::truncate] (bits as u32))),
            None => Err(ParseError::InvalidNumberError(last)),
        }
    } else if last == 'd' {
        match float {
            Some(bits) => Ok(Value::Double(bits)),
            None => Err(ParseError::InvalidNumberError(last)),
        }
    } else {
        match parse_int(cs.as_slice(), -0x8000_0000, 0x7fff_ffff) {
            Some(v) => Ok(Value::Int32(v as i32)),
            None => Err(ParseError::InvalidNumberError(last)),
        }
    }
}

fn parse_null(cs: &Vec<char>) -> (r: Option<Value>)
    ensures
        r is Some <==> cs@ == null_word(),
        r is Some ==> r->Some_0@ == Val::Null,
{
    let w = ['n', 'u', 'l', 'l'];
    assert(w@ =~= null_word());
    if same_chars(cs, &w) {
        Some(Value::Null)
    } else {
        None
    }
}

fn parse_bool(cs: &Vec<char>) -> (r: Option<Value>)
    ensures
        r is Some <==> cs@ == true_word() || cs@ == false_word(),
        cs@ == true_word() ==> r is Some && r->Some_0@ == Val::Boolean(true),
        cs@ == false_word() ==> r is Some && r->Some_0@ == Val::Boolean(false),
{
    let t = ['t', 'r', 'u', 'e'];
    let f = ['f', 'a', 'l', 's', 'e'];
    assert(t@ =~= true_word());
    assert(f@ =~= false_word());
    if same_chars(cs, &t) {
        Some(Value::Boolean(true))
    } else if same_chars(cs, &f) {
        Some(Value::Boolean(false))
    } else {
        None
    }
}

fn parse_string(cs: &Vec<char>) -> (r: Option<Value>)
    ensures
        r is Some <==> cs@.len() >= 2 && cs@[0] == '"',
        r is Some ==> r->Some_0@ == Val::Str(cs@.subrange(1, cs@.len() - 1)),
{
    let n = cs.len();
    if n >= 2 && cs[0] == '"' {
        Some(Value::String(string_from(&cs.as_slice()[1..n - 1])))
    } else {
        None
    }
}

fn parse_array(tokens: &[String], floats: &[Option<u64>], pos: usize) -> (r: Result<(Value, usize), ParseError>)
    requires
        pos < tokens@.len(),
        tokens@[pos as int]@ == seq!['['],
    ensures
        parsed_as(r, parse_from(tokens_view(tokens@), floats@, pos as int)),
        r is Ok ==> pos < r->Ok_0.1 <= tokens@.len(),
    decreases tokens@.len() - pos, 1nat,
{
    let ghost tv = tokens_view(tokens@);
    let n = tokens.len();
    let mut values: Vec<Value> = Vec::new();
    let mut p = pos + 1;
    assert(items_view(values@) =~= Seq::<Val>::empty());
    assert(tv[pos as int] == seq!['[']);
    while p < n
        invariant
            n == tokens@.len(),
            pos < p <= tokens@.len(),
            tv == tokens_view(tokens@),
            parse_from(tv, floats@, pos as int) == array_result(
                items_from(tv, floats@, p as int, items_view(values@)),
            ),
        decreases tokens@.len() - p,
    {
        let cs = chars_of(tokens[p].as_str());
        if is_single(&cs, ']') {
            proof {
                lemma_array_view(&values);
            }
            return Ok((Value::Array(values), p + 1));
        }
        match parse_at(tokens, floats, p) {
            Err(e) => return Err(e),
            Ok((v, e)) => {
                let ghost before = items_view(values@);
                let ghost vv = v@;
                values.push(v);
                assert(items_view(values@) =~= before.push(vv));
                if e >= tokens.len() {
                    return Err(ParseError::EOFError);
                }
                let next = chars_of(tokens[e].as_str());
                if is_single(&next, ',') {
                    p = e + 1;
                } else if is_single(&next, ']') {
                    p = e;
                } else {
                    return Err(ParseError::UnexpectedTokenError(tokens[e].clone()));
                }
            },
        }
    }
    Err(ParseError::EOFError)
}

fn parse_object(tokens: &[String], floats: &[Option<u64>], pos: usize) -> (r: Result<(Value, usize), ParseError>)
    requires
        pos < tokens@.len(),
        tokens@[pos as int]@ == seq!['{'],
    ensures
        parsed_as(r, parse_from(tokens_view(tokens@), floats@, pos as int)),
        r is Ok ==> pos < r->Ok_0.1 <= tokens@.len(),
    decreases tokens@.len() - pos, 1nat,
{
    let ghost tv = tokens_view(tokens@);
    let n = tokens.len();
    let mut values: Vec<(String, Value)> = Vec::new();
    let mut p = pos + 1;
    assert(entries_view(values@) =~= Seq::<(Seq<char>, Val)>::empty());
    assert(tv[pos as int] == seq!['{']);
    while p < n
        invariant
            n == tokens@.len(),
            pos < p <= tokens@.len(),
            tv == tokens_view(tokens@),
            parse_from(tv, floats@, pos as int) == object_result(
                entries_from(tv, floats@, p as int, entries_view(values@)),
            ),
        decreases tokens@.len() - p,
    {
        let cs = chars_of(tokens[p].as_str());
        if is_single(&cs, '}') {
            proof {
                lemma_object_view(&values);
            }
            return Ok((Value::Object(values), p + 1));
        }
        let (key, e) = match parse_at(tokens, floats, p) {
            Err(e) => return Err(e),
            Ok((Value::String(s), e)) => (s, e),
            Ok((other, _)) => return Err(ParseError::InvalidKeyError(other)),
        };
        if e >= tokens.len() {
            return Err(ParseError::EOFError);
        }
        let colon = chars_of(tokens[e].as_str());
        if !is_single(&colon, ':') {
            return Err(ParseError::UnexpectedTokenError(tokens[e].clone()));
        }
        match parse_at(tokens, floats, e + 1) {
            Err(err) => return Err(err),
            Ok((v, e2)) => {
                insert_entry(&mut values, key, v);
                if e2 >= tokens.len() {
                    return Err(ParseError::EOFError);
                }
                let next = chars_of(tokens[e2].as_str());
                if is_single(&next, ',') {
                    p = e2 + 1;
                } else if is_single(&next, '}') {
                    p = e2;
                } else {
                    return Err(ParseError::UnexpectedTokenError(tokens[e2].clone()));
                }
            },
        }
    }
    Err(ParseError::EOFError)
}

/// Parses the value that starts at token `pos`.
fn parse_at(tokens: &[String], floats: &[Option<u64>], pos: usize) -> (r: Result<(Value, usize), ParseError>)
    requires
        pos <= tokens@.len(),
    ensures
        parsed_as(r, parse_from(tokens_view(tokens@), floats@, pos as int)),
        r is Ok ==> pos < r->Ok_0.1 <= tokens@.len(),
    decreases tokens@.len() - pos, 2nat,
{
    if pos >= tokens.len() {
        return Err(ParseError::EOFError);
    }
    let cs = chars_of(tokens[pos].as_str());
    assert(tokens_view(tokens@)[pos as int] == cs@);
    if is_single(&cs, '[') {
        return parse_array(tokens, floats, pos);
    }
    if is_single(&cs, '{') {
        return parse_object(tokens, floats, pos);
    }
    if let Some(v) = parse_null(&cs) {
        return Ok((v, pos + 1));
    }
    if let Some(v) = parse_bool(&cs) {
        return Ok((v, pos + 1));
    }
    if let Some(v) = parse_string(&cs) {
        return Ok((v, pos + 1));
    }
    if cs.len() > 0 && is_number_char_exec(cs[0]) {
        let float = if pos < floats.len() { floats[pos] } else { None };
        return match parse_number(&cs, float) {
            Ok(v) => Ok((v, pos + 1)),
            Err(e) => Err(e),
        };
    }
    Err(ParseError::UnexpectedTokenError(tokens[pos].clone()))
}

/// Parses the value at the front of `tokens`; the slice returned with it
/// holds the tokens after it. `floats[i]` holds the bits of the float
/// literal at token `i`, or `None` where its text is no valid float.
pub fn parse<'a>(tokens: &'a [String], floats: &[Option<u64>]) -> (r: Result<(Value, &'a [String]), ParseError>)
    ensures
        match parse_from(tokens_view(tokens@), floats@, 0) {
            Ok((v, e)) => r is Ok && r->Ok_0.0@ == v && r->Ok_0.1@ == tokens@.subrange(
                e,
                tokens@.len() as int,
            ),
            Err(f) => r is Err && r->Err_0@ == f,
        },
{
    match parse_at(tokens, floats, 0) {
        Ok((v, e)) => Ok((v, &tokens[e..tokens.len()])),
        Err(e) => Err(e),
    }
}

/// The numeral of a float literal token, and whether it is a 64-bit float
/// (suffix `d`) rather than a 32-bit one (suffix `f`).
pub fn float_literal(token: &String) -> (r: Option<(String, bool)>)
    ensures
        r is Some <==> token@.len() > 0 && is_number_char(token@[0]) && (token@.last() == 'f'
            || token@.last() == 'd'),
        r is Some ==> r->Some_0.0@ == token@.drop_last() && r->Some_0.1 == (token@.last() == 'd'),
{
    let cs = chars_of(token.as_str());
    let n = cs.len();
    if n > 0 && is_number_char_exec(cs[0]) && (cs[n - 1] == 'f' || cs[n - 1] == 'd') {
        let body = string_from(&cs.as_slice()[0..n - 1]);
        assert(body@ =~= token@.drop_last());
        Some((body, cs[n - 1] == 'd'))
    } else {
        None
    }
}

} // verus!
