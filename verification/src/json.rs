//! A JSON value as the certificate checker reads it.

use vstd::prelude::*;
use serde_json::Value;

use crate::text::{dec_int, push_char, push_i64, push_u64, str_eq};

verus! {

/// A JSON number, kept as JSON holds it: a non-negative or a negative
/// integer, or any other number by its decimal text.
#[derive(Debug, Clone)]
pub enum Number {
    PosInt(u64),
    NegInt(i64),
    Float(String),
}

/// A JSON value. Object members keep their order.
#[derive(Debug)]
pub enum Json {
    Null,
    Bool(bool),
    Number(Number),
    String(String),
    Array(Vec<Json>),
    Object(Vec<(String, Json)>),
}

/// The value of the first member named `key`.
pub open spec fn member(m: Seq<(String, Json)>, key: Seq<char>) -> Option<Json>
    decreases m.len(),
{
    if m.len() == 0 {
        None
    } else if m[0].0@ == key {
        Some(m[0].1)
    } else {
        member(m.drop_first(), key)
    }
}

/// The member `key` of an object; `None` for anything else.
pub open spec fn json_get(v: Json, key: Seq<char>) -> Option<Json> {
    match v {
        Json::Object(m) => member(m@, key),
        _ => None,
    }
}

/// A lowercase hexadecimal digit.
pub open spec fn hex_digit(d: int) -> char {
    if d < 10 {
        (48 + d) as char
    } else {
        (87 + d) as char
    }
}

/// How JSON writes one character of a string: `"` and `\` behind a
/// backslash, the control characters with a short escape as `\b`, `\t`,
/// `\n`, `\f` and `\r`, the other characters below U+0020 as `\u00` and two
/// lowercase hexadecimal digits, and every other character as itself.
pub open spec fn json_char(ch: char) -> Seq<char> {
    let u = ch as int;
    if ch == '"' {
        seq!['\\', '"']
    } else if ch == '\\' {
        seq!['\\', '\\']
    } else if u == 0x08 {
        seq!['\\', 'b']
    } else if u == 0x09 {
        seq!['\\', 't']
    } else if u == 0x0A {
        seq!['\\', 'n']
    } else if u == 0x0C {
        seq!['\\', 'f']
    } else if u == 0x0D {
        seq!['\\', 'r']
    } else if u < 0x20 {
        seq!['\\', 'u', '0', '0', hex_digit(u / 16), hex_digit(u % 16)]
    } else {
        seq![ch]
    }
}

/// The characters of a string, each as JSON writes it.
pub open spec fn json_chars(s: Seq<char>) -> Seq<char>
    decreases s.len(),
{
    if s.len() == 0 {
        Seq::empty()
    } else {
        json_chars(s.drop_last()) + json_char(s.last())
    }
}

/// How JSON writes a string: between double quotes, each character as
/// `json_char` writes it.
pub open spec fn json_quoted(s: Seq<char>) -> Seq<char> {
    seq!['"'] + json_chars(s) + seq!['"']
}

/// A string written as JSON text, by serde_json's `Display` for
/// `Value::String` (the compact writer's `format_escaped_str`): the string
/// between double quotes, with the escapes that `json_char` lists.
#[verifier::external_body]
fn quote_json(s: &str) -> (r: String)
    ensures
        r@ == json_quoted(s@),
{
    serde_json::Value::String(s.to_owned()).to_string()
}

/// A JSON document as serde_json holds it after parsing.
#[verifier::external_type_specification]
#[verifier::external_body]
pub struct ExValue(serde_json::Value);

/// The value that `text` parses to as a JSON document, or `None` where it is
/// not one.
pub uninterp spec fn json_parsed(text: Seq<char>) -> Option<Json>;

/// The message with which a text that is not a JSON document is refused.
pub uninterp spec fn json_error(text: Seq<char>) -> Seq<char>;

/// A serde_json value rewritten node for node as the library's `Json`:
/// integers that fit `u64` or `i64` as such, any other number by its
/// decimal text, object members in the order serde_json keeps them.
#[verifier::external_body]
fn json_of_value(v: &Value) -> Json {
    match v {
        Value::Null => Json::Null,
        Value::Bool(b) => Json::Bool(*b),
        Value::Number(n) => Json::Number(match (n.as_u64(), n.as_i64()) {
            (Some(u), _) => Number::PosInt(u),
            (None, Some(i)) => Number::NegInt(i),
            (None, None) => Number::Float(n.to_string()),
        }),
        Value::String(s) => Json::String(s.clone()),
        Value::Array(a) => Json::Array(a.iter().map(json_of_value).collect()),
        Value::Object(m) => Json::Object(m.iter().map(|(k, v)| (k.clone(), json_of_value(v))).collect()),
    }
}

/// Parses `text` as a JSON document with `serde_json::from_str` into a
/// `serde_json::Value`, then rewrites it as a `Json`; a refusal is reported by
/// the `Display` text of serde_json's error. The contract claims only that the
/// outcome is a function of the text: which texts parse, to what, and with
/// which message the others fail is serde_json's and is named, not stated.
#[verifier::external_body]
pub(crate) fn parse_json(text: &str) -> (r: Result<Json, String>)
    ensures
        r is Err <==> json_parsed(text@) is None,
        r matches Ok(v) ==> json_parsed(text@) == Some(v),
        r matches Err(m) ==> m@ == json_error(text@),
{
    match serde_json::from_str::<Value>(text) {
        Ok(v) => Ok(json_of_value(&v)),
        Err(e) => Err(e.to_string()),
    }
}

/// The compact JSON text of a value.
pub open spec fn json_text(v: Json) -> Seq<char>
    decreases v, 0nat,
{
    match v {
        Json::Null => seq!['n', 'u', 'l', 'l'],
        Json::Bool(b) => if b {
            seq!['t', 'r', 'u', 'e']
        } else {
            seq!['f', 'a', 'l', 's', 'e']
        },
        Json::Number(n) => match n {
            Number::PosInt(u) => dec_int(u as int),
            Number::NegInt(i) => dec_int(i as int),
            Number::Float(t) => t@,
        },
        Json::String(s) => json_quoted(s@),
        Json::Array(a) => seq!['['] + items_text(a@) + seq![']'],
        Json::Object(m) => seq!['{'] + members_text(m@) + seq!['}'],
    }
}

/// Array items, separated by commas.
pub open spec fn items_text(s: Seq<Json>) -> Seq<char>
    decreases s, 1nat,
{
    if s.len() == 0 {
        Seq::empty()
    } else if s.len() == 1 {
        json_text(s[0])
    } else {
        items_text(s.drop_last()) + seq![','] + json_text(s.last())
    }
}

/// Object members `"key":value`, separated by commas.
pub open spec fn members_text(m: Seq<(String, Json)>) -> Seq<char>
    decreases m, 1nat,
{
    if m.len() == 0 {
        Seq::empty()
    } else if m.len() == 1 {
        json_quoted(m[0].0@) + seq![':'] + json_text(m[0].1)
    } else {
        members_text(m.drop_last()) + seq![','] + json_quoted(m.last().0@) + seq![':'] + json_text(
            m.last().1,
        )
    }
}


impl Json {
    /// The member `key` of an object; `None` for anything else.
    pub fn get(&self, key: &str) -> (r: Option<&Json>)
        ensures
            match r {
                Some(v) => json_get(*self, key@) == Some(*v),
                None => json_get(*self, key@) is None,
            },
    {
        match self {
            Json::Object(m) => {
                let mut i: usize = 0;
                assert(m@.skip(0) =~= m@);
                while i < m.len()
                    invariant
                        *self == Json::Object(*m),
                        i <= m@.len(),
                        member(m@, key@) == member(m@.skip(i as int), key@),
                    decreases m.len() - i,
                {
                    assert(m@.skip(i as int).drop_first() =~= m@.skip(i + 1));
                    if str_eq(m[i].0.as_str(), key) {
                        assert(m@.skip(i as int)[0] == m@[i as int]);
                        return Some(&m[i].1);
                    }
                    i = i + 1;
                }
                None
            },
            _ => None,
        }
    }
}

/// Appends the compact JSON text of `v`.
pub fn push_json(out: &mut String, v: &Json)
    ensures
        final(out)@ == old(out)@ + json_text(*v),
    decreases *v,
{
    match v {
        Json::Null => {
            push_char(out, 'n');
            push_char(out, 'u');
            push_char(out, 'l');
            push_char(out, 'l');
        },
        Json::Bool(b) => {
            if *b {
                push_char(out, 't');
                push_char(out, 'r');
                push_char(out, 'u');
                push_char(out, 'e');
            } else {
                push_char(out, 'f');
                push_char(out, 'a');
                push_char(out, 'l');
                push_char(out, 's');
                push_char(out, 'e');
            }
        },
        Json::Number(n) => match n {
            Number::PosInt(u) => push_u64(out, *u),
            Number::NegInt(i) => push_i64(out, *i),
            Number::Float(t) => out.append(t.as_str()),
        },
        Json::String(s) => {
            let q = quote_json(s.as_str());
            out.append(q.as_str());
        },
        Json::Array(a) => {
            let ghost start = out@;
            push_char(out, '[');
            let mut i: usize = 0;
            while i < a.len()
                invariant
                    *v == Json::Array(*a),
                    i <= a@.len(),
                    out@ == start + seq!['['] + items_text(a@.take(i as int)),
                decreases a.len() - i,
            {
                assert(a@.take(i + 1).drop_last() =~= a@.take(i as int));
                if i > 0 {
                    push_char(out, ',');
                }
                assert(decreases_to!(*v => (*v)->Array_0));
                assert(decreases_to!(*a => a@));
                push_json(out, &a[i]);
                assert(out@ =~= start + seq!['['] + items_text(a@.take(i + 1)));
                i = i + 1;
            }
            assert(a@.take(a.len() as int) =~= a@);
            push_char(out, ']');
        },
        Json::Object(m) => {
            let ghost start = out@;
            push_char(out, '{');
            let mut i: usize = 0;
            while i < m.len()
                invariant
                    *v == Json::Object(*m),
                    i <= m@.len(),
                    out@ == start + seq!['{'] + members_text(m@.take(i as int)),
                decreases m.len() - i,
            {
                assert(m@.take(i + 1).drop_last() =~= m@.take(i as int));
                if i > 0 {
                    push_char(out, ',');
                }
                let q = quote_json(m[i].0.as_str());
                out.append(q.as_str());
                push_char(out, ':');
                assert(decreases_to!(*v => (*v)->Object_0));
                assert(decreases_to!(*m => m@));
                assert(decreases_to!(m@ => m@[i as int]));
                push_json(out, &m[i].1);
                assert(out@ =~= start + seq!['{'] + members_text(m@.take(i + 1)));
                i = i + 1;
            }
            assert(m@.take(m.len() as int) =~= m@);
            push_char(out, '}');
        },
    }
    assert(final(out)@ =~= old(out)@ + json_text(*v));
}

} // verus!
