//! The calls into `serde_json` and `base64`, and what this crate takes for granted of them.

use vstd::prelude::*;
use vstd::utf8::encode_utf8;

use crate::json::{distinct_keys, is_read_back, nests_within, strings_occur, JsonTree, NumberView};
use crate::text::{trimmed, without_cr};

verus! {

/// A JSON number.
#[verifier::external_type_specification]
#[verifier::external_body]
pub struct ExNumber(serde_json::Number);

/// A JSON value as `serde_json` holds it.
#[verifier::external_type_specification]
#[verifier::external_body]
pub struct ExValue(serde_json::Value);

/// Why JSON text could not be read or written.
#[verifier::external_type_specification]
#[verifier::external_body]
pub struct ExError(serde_json::Error);

/// The integer that a number is held as, or the number itself where it is held as a fraction.
pub uninterp spec fn number_view(number: serde_json::Number) -> NumberView;

/// `Number::clone`: a copy of a number is the same number.
pub assume_specification[ <serde_json::Number as Clone>::clone ](
    number: &serde_json::Number,
) -> (res: serde_json::Number)
    ensures
        number_view(res) == number_view(*number),
;

/// What a value of `serde_json` holds.
pub uninterp spec fn value_tree(value: serde_json::Value) -> JsonTree;

/// The kind of a `serde_json` value, with what it is made of.
pub(crate) enum ValueParts {
    Null,
    Bool(bool),
    Number(serde_json::Number),
    String(String),
    Array(Vec<serde_json::Value>),
    Object(Vec<(String, serde_json::Value)>),
}

/// What a value that is made of `parts` holds.
pub(crate) open spec fn parts_tree(parts: ValueParts) -> JsonTree {
    match parts {
        ValueParts::Null => JsonTree::Null,
        ValueParts::Bool(b) => JsonTree::Bool(b),
        ValueParts::Number(n) => JsonTree::Number(number_view(n)),
        ValueParts::String(s) => JsonTree::String(s@),
        ValueParts::Array(items) => JsonTree::Array(
            items@.map_values(|item: serde_json::Value| value_tree(item)),
        ),
        ValueParts::Object(members) => JsonTree::Object(
            members@.map_values(
                |member: (String, serde_json::Value)| (member.0@, value_tree(member.1)),
            ),
        ),
    }
}

/// Takes a `serde_json::Value` apart: the variant that it is, with its fields. A map gives its
/// members in its own order (`Map::into_iter`).
#[verifier::external_body]
pub(crate) fn value_into_parts(value: serde_json::Value) -> (parts: ValueParts)
    ensures
        parts_tree(parts) == value_tree(value),
{
    match value {
        serde_json::Value::Null => ValueParts::Null,
        serde_json::Value::Bool(b) => ValueParts::Bool(b),
        serde_json::Value::Number(n) => ValueParts::Number(n),
        serde_json::Value::String(s) => ValueParts::String(s),
        serde_json::Value::Array(items) => ValueParts::Array(items),
        serde_json::Value::Object(members) => ValueParts::Object(members.into_iter().collect()),
    }
}

/// Puts a `serde_json::Value` together. A map that is built from members with distinct keys
/// (`Map::from_iter`) holds those members in their order: the feature `preserve_order` is on.
#[verifier::external_body]
pub(crate) fn value_from_parts(parts: ValueParts) -> (value: serde_json::Value)
    requires
        parts_tree(parts) matches JsonTree::Object(members) ==> crate::json::unique_keys(members),
    ensures
        value_tree(value) == parts_tree(parts),
{
    match parts {
        ValueParts::Null => serde_json::Value::Null,
        ValueParts::Bool(b) => serde_json::Value::Bool(b),
        ValueParts::Number(n) => serde_json::Value::Number(n),
        ValueParts::String(s) => serde_json::Value::String(s),
        ValueParts::Array(items) => serde_json::Value::Array(items),
        ValueParts::Object(members) => serde_json::Value::Object(members.into_iter().collect()),
    }
}

/// The value that JSON bytes denote, as `serde_json::from_slice` reads them; nothing for bytes
/// that it refuses.
pub uninterp spec fn json_of_bytes(bytes: Seq<u8>) -> Option<JsonTree>;

/// `error` is what `serde_json::from_slice` says of bytes that it refuses.
pub uninterp spec fn is_json_refusal(error: serde_json::Error, bytes: Seq<u8>) -> bool;

/// `serde_json::from_slice` for a `Value`: whether the bytes are read, and to which value, depends
/// on the bytes alone. The objects of a value that was read have distinct keys, and arrays and
/// objects nest in it at most 127 deep.
#[verifier::external_body]
pub(crate) fn from_slice(bytes: &[u8]) -> (res: Result<serde_json::Value, serde_json::Error>)
    ensures
        match res {
            Ok(value) => {
                &&& json_of_bytes(bytes@) == Some(value_tree(value))
                &&& distinct_keys(value_tree(value))
                &&& nests_within(value_tree(value), 127)
            },
            Err(error) => json_of_bytes(bytes@) is None && is_json_refusal(error, bytes@),
        },
{
    serde_json::from_slice(bytes)
}

/// The value that JSON text denotes, as `serde_json::from_str` reads it; nothing for text that it
/// refuses.
pub uninterp spec fn json_of_text(text: Seq<char>) -> Option<JsonTree>;

/// `error` is what `serde_json::from_str` says of text that it refuses.
pub uninterp spec fn is_text_refusal(error: serde_json::Error, text: Seq<char>) -> bool;

/// `serde_json::from_str` for a `Value`: whether the text is read, and to which value, depends on
/// the text alone. The objects of a value that was read have distinct keys, and arrays and objects
/// nest in it at most 127 deep. Its strings and keys stand in the text as they are, where that has
/// no backslash, with which all escapes begin. A carriage return at the end is white space, without
/// which the text is refused all the same.
#[verifier::external_body]
pub(crate) fn from_str(text: &str) -> (res: Result<serde_json::Value, serde_json::Error>)
    ensures
        match res {
            Ok(value) => {
                &&& json_of_text(text@) == Some(value_tree(value))
                &&& distinct_keys(value_tree(value))
                &&& nests_within(value_tree(value), 127)
                &&& !text@.contains('\\') ==> strings_occur(value_tree(value), text@)
            },
            Err(error) => {
                &&& json_of_text(text@) is None
                &&& json_of_text(without_cr(text@)) is None
                &&& is_text_refusal(error, text@)
            },
        },
{
    serde_json::from_str(text)
}

/// No character of `text` comes before the space.
pub open spec fn no_control_characters(text: Seq<char>) -> bool {
    forall|i: int| 0 <= i < text.len() ==> #[trigger] text[i] >= ' '
}

/// The JSON text of a value, as `serde_json::to_string` writes it.
pub uninterp spec fn json_text(tree: JsonTree) -> Seq<char>;

/// `serde_json::to_string` for a `Value`: it succeeds, the text depends on what the value holds
/// alone, and has no control character in it, since those are escaped. `serde_json::from_str` reads
/// the text back to the same value, if that nests no deeper than `serde_json` reads. A fraction may
/// come back as another one: the feature `float_roundtrip` is off. The text is not `[DONE]`, even
/// with white space around it, since that is no JSON.
#[verifier::external_body]
pub(crate) fn to_string(value: &serde_json::Value) -> (res: Result<String, serde_json::Error>)
    ensures
        res is Ok,
        res->Ok_0@ == json_text(value_tree(*value)),
        no_control_characters(res->Ok_0@),
        trimmed(res->Ok_0@) != "[DONE]"@,
        nests_within(value_tree(*value), 127) ==> is_read_back(
            json_of_text(res->Ok_0@),
            value_tree(*value),
        ),
{
    serde_json::to_string(value)
}

/// `serde_json::to_vec` for a `Value`: it succeeds, and gives the bytes of the text that
/// `serde_json::to_string` gives. `serde_json::from_slice` reads them back as
/// `serde_json::from_str` reads that text.
#[verifier::external_body]
pub(crate) fn to_vec(value: &serde_json::Value) -> (res: Result<Vec<u8>, serde_json::Error>)
    ensures
        res is Ok,
        res->Ok_0@ == encode_utf8(json_text(value_tree(*value))),
        nests_within(value_tree(*value), 127) ==> is_read_back(
            json_of_bytes(res->Ok_0@),
            value_tree(*value),
        ),
{
    serde_json::to_vec(value)
}

/// A character of the standard base64 alphabet, or the padding character.
pub open spec fn is_base64_char(c: char) -> bool {
    ||| 'A' <= c <= 'Z'
    ||| 'a' <= c <= 'z'
    ||| '0' <= c <= '9'
    ||| c == '+'
    ||| c == '/'
    ||| c == '='
}

/// Every character of `text` can occur in base64.
pub open spec fn is_base64_text(text: Seq<char>) -> bool {
    forall|i: int| 0 <= i < text.len() ==> is_base64_char(#[trigger] text[i])
}

/// The base64 text of `length` bytes fits into memory: four characters for every three bytes.
pub open spec fn encodable(length: nat) -> bool {
    length <= 3 * (isize::MAX / 4)
}

/// The bytes that a text encodes, as the engine `STANDARD` of `base64` decodes it; nothing for a
/// text that it refuses.
pub uninterp spec fn base64_decoded(text: Seq<char>) -> Option<Seq<u8>>;

/// `Engine::decode` of the engine `STANDARD`: whether a text is decoded, and to which bytes,
/// depends on the text alone. A text with a character from outside the alphabet is refused.
#[verifier::external_body]
pub(crate) fn base64_decode(text: &str) -> (res: Option<Vec<u8>>)
    ensures
        match res {
            Some(bytes) => base64_decoded(text@) == Some(bytes@) && is_base64_text(text@),
            None => base64_decoded(text@) is None,
        },
{
    base64::Engine::decode(&base64::engine::general_purpose::STANDARD, text).ok()
}

/// The base64 text of bytes, as the engine `STANDARD` of `base64` encodes them.
pub uninterp spec fn base64_encoded(bytes: Seq<u8>) -> Seq<char>;

/// `Engine::encode` of the engine `STANDARD`: the text depends on the bytes alone, is made of the
/// alphabet, and is decoded to the same bytes.
#[verifier::external_body]
pub(crate) fn base64_encode(bytes: &[u8]) -> (res: String)
    requires
        encodable(bytes@.len()),
    ensures
        res@ == base64_encoded(bytes@),
        is_base64_text(res@),
        base64_decoded(res@) == Some(bytes@),
{
    base64::Engine::encode(&base64::engine::general_purpose::STANDARD, bytes)
}

} // verus!
