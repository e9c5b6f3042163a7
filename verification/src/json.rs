//! Recorded lines: JSON texts, and what stands at a place in them.

use crate::config::{self, Num, NumV};
use crate::decimal;
use crate::numeral::{self, read_value};
use crate::text::{self, chars_of, push_str, read_i64};
use serde_json::Value;
use vstd::prelude::*;

verus! {

/// A JSON value.
#[verifier::external_type_specification]
#[verifier::external_body]
pub struct ExValue(Value);

/// What stands at one place in a JSON value.
pub ghost enum Leaf {
    Text(Seq<char>),
    /// How `serde_json` writes the number, and its value where it is a whole one
    /// of 64 bits.
    Number(Seq<char>, Option<int>),
    Flag(bool),
    /// The length of an array.
    List(nat),
    /// An object, or `null`.
    Other,
}

/// What a JSON value holds, by the JSON pointers to its parts.
pub uninterp spec fn leaves(v: Value) -> Map<Seq<char>, Leaf>;

/// What the JSON value that a text writes holds; `None` where the text is not
/// JSON.
pub uninterp spec fn leaves_in_text(text: Seq<char>) -> Option<Map<Seq<char>, Leaf>>;

pub open spec fn opt_leaves(v: Option<Value>) -> Option<Map<Seq<char>, Leaf>> {
    match v {
        Some(v) => Some(leaves(v)),
        None => None,
    }
}

/// The text at a place.
pub open spec fn text_leaf(m: Map<Seq<char>, Leaf>, at: Seq<char>) -> Option<Seq<char>> {
    if m.contains_key(at) {
        match m[at] {
            Leaf::Text(t) => Some(t),
            _ => None,
        }
    } else {
        None
    }
}

/// How `serde_json` writes the number at a place.
pub open spec fn number_leaf(m: Map<Seq<char>, Leaf>, at: Seq<char>) -> Option<Seq<char>> {
    if m.contains_key(at) {
        match m[at] {
            Leaf::Number(t, _) => Some(t),
            _ => None,
        }
    } else {
        None
    }
}

/// The whole number at a place.
pub open spec fn int_leaf(m: Map<Seq<char>, Leaf>, at: Seq<char>) -> Option<int> {
    if m.contains_key(at) {
        match m[at] {
            Leaf::Number(_, n) => n,
            _ => None,
        }
    } else {
        None
    }
}

/// The truth value at a place.
pub open spec fn flag_leaf(m: Map<Seq<char>, Leaf>, at: Seq<char>) -> Option<bool> {
    if m.contains_key(at) {
        match m[at] {
            Leaf::Flag(b) => Some(b),
            _ => None,
        }
    } else {
        None
    }
}

/// The length of the array at a place.
pub open spec fn list_leaf(m: Map<Seq<char>, Leaf>, at: Seq<char>) -> Option<nat> {
    if m.contains_key(at) {
        match m[at] {
            Leaf::List(n) => Some(n),
            _ => None,
        }
    } else {
        None
    }
}

pub open spec fn opt_chars(s: Option<String>) -> Option<Seq<char>> {
    match s {
        Some(s) => Some(s@),
        None => None,
    }
}

pub open spec fn opt_int(n: Option<i64>) -> Option<int> {
    match n {
        Some(n) => Some(n as int),
        None => None,
    }
}

pub open spec fn opt_len(n: Option<usize>) -> Option<nat> {
    match n {
        Some(n) => Some(n as nat),
        None => None,
    }
}

/// `serde_json::from_str`: the JSON value that a text writes. What it holds is a
/// function of the text.
#[verifier::external_body]
pub(crate) fn read_json(line: &str) -> (r: Option<Value>)
    ensures
        opt_leaves(r) == leaves_in_text(line@),
{
    serde_json::from_str::<Value>(line).ok()
}

/// `serde_json::Value::pointer`: whether there is anything at a place.
#[verifier::external_body]
pub(crate) fn has_at(v: &Value, at: &str) -> (r: bool)
    ensures
        r == leaves(*v).contains_key(at@),
{
    v.pointer(at).is_some()
}

/// `serde_json::Value::as_str`, of what is at a place: the characters of a text,
/// nothing of any other value.
#[verifier::external_body]
pub(crate) fn text_at(v: &Value, at: &str) -> (r: Option<String>)
    ensures
        opt_chars(r) == text_leaf(leaves(*v), at@),
{
    v.pointer(at).and_then(Value::as_str).map(str::to_string)
}

/// `serde_json::Value::as_i64`, of what is at a place: a whole number of 64 bits,
/// nothing of any other value.
#[verifier::external_body]
pub(crate) fn int_at(v: &Value, at: &str) -> (r: Option<i64>)
    ensures
        opt_int(r) == int_leaf(leaves(*v), at@),
{
    v.pointer(at).and_then(Value::as_i64)
}

/// `serde_json::Value::as_number`, of what is at a place: how the crate writes a
/// number, nothing of any other value.
#[verifier::external_body]
pub(crate) fn number_at(v: &Value, at: &str) -> (r: Option<String>)
    ensures
        opt_chars(r) == number_leaf(leaves(*v), at@),
{
    v.pointer(at).and_then(Value::as_number).map(|n| n.to_string())
}

/// `serde_json::Value::as_bool`, of what is at a place: a truth value, nothing of
/// any other value.
#[verifier::external_body]
pub(crate) fn flag_at(v: &Value, at: &str) -> (r: Option<bool>)
    ensures
        r == flag_leaf(leaves(*v), at@),
{
    v.pointer(at).and_then(Value::as_bool)
}

/// `serde_json::Value::as_array`, of what is at a place: the length of an array,
/// nothing of any other value.
#[verifier::external_body]
pub(crate) fn len_at(v: &Value, at: &str) -> (r: Option<usize>)
    ensures
        opt_len(r) == list_leaf(leaves(*v), at@),
{
    v.pointer(at).and_then(Value::as_array).map(Vec::len)
}

/// The number at a place: a JSON number, or a text that writes one.
pub open spec fn value_leaf(m: Map<Seq<char>, Leaf>, at: Seq<char>) -> Option<NumV> {
    match number_leaf(m, at) {
        Some(t) => numeral::value(t),
        None => match text_leaf(m, at) {
            Some(t) => numeral::value(t),
            None => None,
        },
    }
}

/// The number at a place.
pub(crate) fn value_at(v: &Value, at: &str) -> (r: Option<Num>)
    ensures
        config::opt_num(r) == value_leaf(leaves(*v), at@),
{
    let written = match number_at(v, at) {
        Some(t) => Some(t),
        None => text_at(v, at),
    };
    match written {
        Some(t) => {
            let chars = chars_of(&t);
            read_value(chars.as_slice())
        },
        None => None,
    }
}

/// The whole number of 64 bits at a place: a JSON number, or a text that writes
/// one.
pub open spec fn whole_leaf(m: Map<Seq<char>, Leaf>, at: Seq<char>) -> Option<int> {
    match int_leaf(m, at) {
        Some(n) => Some(n),
        None => match text_leaf(m, at) {
            Some(t) => match text::signed_number(t) {
                Some(n) if i64::MIN <= n <= i64::MAX => Some(n),
                _ => None,
            },
            None => None,
        },
    }
}

/// The whole number at a place.
pub(crate) fn whole_at(v: &Value, at: &str) -> (r: Option<i64>)
    ensures
        opt_int(r) == whole_leaf(leaves(*v), at@),
{
    match int_at(v, at) {
        Some(n) => Some(n),
        None => match text_at(v, at) {
            Some(t) => {
                let chars = chars_of(&t);
                read_i64(chars.as_slice())
            },
            None => None,
        },
    }
}

/// A place below another one.
pub open spec fn below(at: Seq<char>, name: Seq<char>) -> Seq<char> {
    at + "/"@ + name
}

pub(crate) fn place_below(at: &str, name: &str) -> (r: String)
    ensures
        r@ == below(at@, name@),
{
    let mut out = String::new();
    push_str(&mut out, at);
    push_str(&mut out, "/");
    push_str(&mut out, name);
    assert(out@ =~= below(at@, name@));
    out
}

/// The place of an item of an array.
pub open spec fn item(at: Seq<char>, i: nat) -> Seq<char> {
    below(at, decimal::digits(i))
}

pub(crate) fn item_place(at: &str, i: usize) -> (r: String)
    ensures
        r@ == item(at@, i as nat),
{
    let mut out = String::new();
    push_str(&mut out, at);
    push_str(&mut out, "/");
    text::push_number(&mut out, i as u64);
    assert(out@ =~= item(at@, i as nat));
    out
}

} // verus!
