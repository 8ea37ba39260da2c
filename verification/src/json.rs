//! JSON values as `serde_json` holds them, seen as mathematical trees.
//!
//! `serde_json::Value` and `serde_json::Map` are opaque to the verifier. Each
//! is given a name for what it holds, and each operation the library needs is
//! stated over those names.

use serde_json::{Map as JsonMap, Value};
use vstd::prelude::*;

verus! {

/// What a `serde_json::Value` holds.
#[verifier::ext_equal]
pub enum Json {
    /// JSON `null`.
    Null,
    /// A boolean.
    Bool(bool),
    /// A number held as an integer.
    Integer(int),
    /// A number held as a double, given by its IEEE 754 bits.
    Float(u64),
    /// A string.
    Text(Seq<char>),
    /// An array.
    Array(Seq<Json>),
    /// An object.
    Object(Map<Seq<char>, Json>),
}

/// Declares `serde_json::Value`.
#[verifier::external_type_specification]
#[verifier::external_body]
pub struct ExValue(serde_json::Value);

/// Declares `serde_json::Map`.
#[verifier::external_type_specification]
#[verifier::external_body]
#[verifier::reject_recursive_types(K)]
#[verifier::reject_recursive_types(V)]
pub struct ExJsonMap<K, V>(serde_json::Map<K, V>);

/// The tree that a value holds.
pub uninterp spec fn json_tree(value: serde_json::Value) -> Json;

/// The members that an object holds, by key.
pub uninterp spec fn json_members(object: serde_json::Map<String, serde_json::Value>) -> Map<Seq<char>, Json>;

/// The value that a floating-point numeral stands for: `None` where the text
/// is no such numeral, JSON `null` where the number is not finite.
pub uninterp spec fn float_json(numeral: Seq<char>) -> Option<Json>;

/// The compact JSON text of a tree.
pub uninterp spec fn json_text(tree: Json) -> Seq<char>;

/// An object without members.
pub open spec fn no_members() -> Map<Seq<char>, Json> {
    Map::empty()
}

/// The trees of a list of values.
pub open spec fn json_trees(values: Seq<Value>) -> Seq<Json> {
    values.map_values(|value: Value| json_tree(value))
}

/// Whether a tree is a double or `null`.
pub open spec fn is_float_or_null(tree: Json) -> bool {
    tree is Float || tree is Null
}

/// Whether `text` is an optional minus sign, digits, a point and digits, at
/// most three hundred characters in all.
pub open spec fn is_plain_decimal(text: Seq<char>) -> bool {
    text.len() <= 300 && exists|point: int| #[trigger] is_decimal_around(text, point)
}

/// Whether `text` is an optional minus sign and digits up to `point`, a point
/// there and digits behind it.
pub open spec fn is_decimal_around(text: Seq<char>, point: int) -> bool {
    let start: int = if text.len() > 0 && text[0] == '-' {
        1
    } else {
        0
    };
    &&& start < point < text.len() - 1
    &&& text[point] == '.'
    &&& forall|i: int| start <= i < text.len() && i != point ==> '0' <= #[trigger] text[i] <= '9'
}

/// A lower-case hexadecimal digit.
pub open spec fn hex_digit(value: u32) -> char {
    if value < 10 {
        ('0' as u32 + value) as char
    } else {
        ('a' as u32 + value - 10) as char
    }
}

/// One character as it stands inside a JSON string.
pub open spec fn json_escaped(c: char) -> Seq<char> {
    if c == '"' || c == '\\' {
        seq!['\\', c]
    } else if c == '\u{8}' {
        seq!['\\', 'b']
    } else if c == '\t' {
        seq!['\\', 't']
    } else if c == '\n' {
        seq!['\\', 'n']
    } else if c == '\u{c}' {
        seq!['\\', 'f']
    } else if c == '\r' {
        seq!['\\', 'r']
    } else if (c as u32) < 0x20 {
        seq!['\\', 'u', '0', '0', hex_digit(c as u32 / 16), hex_digit(c as u32 % 16)]
    } else {
        seq![c]
    }
}

/// A text as a JSON string, with its quotes.
pub open spec fn json_quoted(text: Seq<char>) -> Seq<char> {
    seq!['"'] + text.map_values(|c: char| json_escaped(c)).flatten() + seq!['"']
}

/// `serde_json::Map::new`: an object without members.
#[verifier::external_body]
pub(crate) fn new_object() -> (object: JsonMap<String, Value>)
    ensures
        json_members(object) == no_members(),
{
    JsonMap::new()
}

/// `serde_json::Map::insert`: adds a member, in place of one with the same key.
#[verifier::external_body]
pub(crate) fn insert_member(object: &mut JsonMap<String, Value>, key: &str, value: Value)
    ensures
        json_members(*final(object)) == json_members(*old(object)).insert(key@, json_tree(value)),
{
    object.insert(key.to_owned(), value);
}

/// `serde_json::Map::get`: the member with the given key, where there is one.
#[verifier::external_body]
pub(crate) fn get_member<'a>(object: &'a JsonMap<String, Value>, key: &str) -> (value: Option<&'a Value>)
    ensures
        value is Some <==> json_members(*object).contains_key(key@),
        value matches Some(found) ==> json_tree(*found) == json_members(*object)[key@],
{
    object.get(key)
}

/// `serde_json::Value::Bool`: a boolean.
#[verifier::external_body]
pub(crate) fn bool_value(flag: bool) -> (value: Value)
    ensures
        json_tree(value) == Json::Bool(flag),
{
    Value::Bool(flag)
}

/// `serde_json::Value::from` on an `i64`: an integer.
#[verifier::external_body]
pub(crate) fn integer_value(number: i64) -> (value: Value)
    ensures
        json_tree(value) == Json::Integer(number as int),
{
    Value::from(number)
}

/// `serde_json::Value::String`: a string.
#[verifier::external_body]
pub(crate) fn text_value(text: String) -> (value: Value)
    ensures
        json_tree(value) == Json::Text(text@),
{
    Value::String(text)
}

/// `serde_json::Value::Array`: an array.
#[verifier::external_body]
pub(crate) fn array_value(items: Vec<Value>) -> (value: Value)
    ensures
        json_tree(value) == Json::Array(json_trees(items@)),
{
    Value::Array(items)
}

/// `serde_json::Value::Object`: an object.
#[verifier::external_body]
pub(crate) fn object_value(object: JsonMap<String, Value>) -> (value: Value)
    ensures
        json_tree(value) == Json::Object(json_members(object)),
{
    Value::Object(object)
}

/// `serde_json::Number::from_f64` on what `str::parse` makes of the text: a
/// finite double becomes a number, another one becomes `null`, and a text that
/// is no floating-point numeral gives `None`. Which double a numeral stands
/// for is left to the name; a plain decimal of at most three hundred
/// characters always stands for a finite one.
#[verifier::external_body]
pub(crate) fn float_value(numeral: &str) -> (value: Option<Value>)
    ensures
        value is Some <==> float_json(numeral@) is Some,
        value matches Some(number) ==> float_json(numeral@) == Some(json_tree(number)),
        value matches Some(number) ==> is_float_or_null(json_tree(number)),
        is_plain_decimal(numeral@) ==> value is Some && json_tree(value->0) is Float,
{
    match numeral.parse() {
        Ok(number) => Some(serde_json::Number::from_f64(number).map_or(Value::Null, Value::Number)),
        Err(_) => None,
    }
}

/// `serde_json::Value::as_i64`: the integer held, where it fits.
pub assume_specification[ serde_json::Value::as_i64 ](value: &serde_json::Value) -> (number: Option<i64>)
    ensures
        number == (match json_tree(*value) {
            Json::Integer(held) if i64::MIN <= held <= i64::MAX => Some(held as i64),
            _ => None,
        }),
;

/// `serde_json::Value::as_bool`: the boolean held.
pub assume_specification[ serde_json::Value::as_bool ](value: &serde_json::Value) -> (flag: Option<bool>)
    ensures
        flag == (match json_tree(*value) {
            Json::Bool(held) => Some(held),
            _ => None,
        }),
;

/// `serde_json::Value::as_str`: the string held.
pub assume_specification<'a>[ serde_json::Value::as_str ](value: &'a serde_json::Value) -> (text: Option<&'a str>)
    ensures
        text is Some <==> json_tree(*value) is Text,
        text matches Some(held) ==> json_tree(*value) == Json::Text(held@),
;

/// `serde_json::to_string` on a value: its compact text. It cannot fail, since
/// a value has string keys only and a text grows without bound. Objects are
/// held sorted by key, so the text depends on the members alone. A string
/// stands between quotes, with `"`, `\` and the control characters escaped;
/// what other values look like is left to the name.
#[verifier::external_body]
pub(crate) fn value_text(value: &Value) -> (text: String)
    ensures
        text@ == json_text(json_tree(*value)),
        json_tree(*value) matches Json::Text(held) ==> text@ == json_quoted(held),
{
    serde_json::to_string(value).expect("a JSON value has string keys only")
}

} // verus!
