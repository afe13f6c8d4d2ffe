//! Settings that are stored as JSON text.

use vstd::prelude::*;

use crate::text::opt_text;

verus! {

/// A JSON value.
#[verifier::external_type_specification]
#[verifier::external_body]
pub struct ExValue(serde_json::Value);

/// Why a text is not JSON.
#[verifier::external_type_specification]
#[verifier::external_body]
pub struct ExError(serde_json::Error);

/// The members of a JSON object whose values are strings, from their names to those strings.
/// Any other JSON value has none.
pub uninterp spec fn string_members(value: serde_json::Value) -> Map<Seq<char>, Seq<char>>;

/// What `serde_json::from_str` makes of a text: the members, that are strings, of the value that
/// it reads; nothing where the text is not JSON.
pub uninterp spec fn json_members(text: Seq<char>) -> Option<Map<Seq<char>, Seq<char>>>;

/// `serde_json::from_str` to a `Value`: whether it succeeds, and which value it reads, depends
/// on the text alone. Of the value only the members that are strings are spoken of.
#[verifier::external_body]
pub(crate) fn parse_json(text: &str) -> (r: Result<serde_json::Value, serde_json::Error>)
    ensures
        match r {
            Ok(value) => json_members(text@) == Some(string_members(value)),
            Err(_) => json_members(text@) is None,
        },
{
    serde_json::from_str(text)
}

/// `serde_json::Value::get` with a name, and `as_str` on what it returns: the string under that
/// name, where the value is an object that has a string there.
#[verifier::external_body]
pub(crate) fn string_member(value: &serde_json::Value, name: &str) -> (r: Option<String>)
    ensures
        opt_text(r) == member(string_members(*value), name@),
{
    value.get(name).and_then(|v| v.as_str()).map(|s| s.to_string())
}

/// The text that stands under a name, if there is one.
pub open spec fn member(members: Map<Seq<char>, Seq<char>>, name: Seq<char>) -> Option<Seq<char>> {
    if members.dom().contains(name) {
        Some(members[name])
    } else {
        None
    }
}

/// The string under a name of the object that a text is as JSON, if there is one.
pub open spec fn json_text(text: Seq<char>, name: Seq<char>) -> Option<Seq<char>> {
    match json_members(text) {
        Some(members) => member(members, name),
        None => None,
    }
}

/// The string under a name of the object that a text is as JSON; nothing where the text is not
/// JSON, or has no string there.
pub fn read_json_text(text: &str, name: &str) -> (r: Option<String>)
    ensures
        opt_text(r) == json_text(text@, name@),
{
    match parse_json(text) {
        Ok(value) => string_member(&value, name),
        Err(_) => None,
    }
}

/// The string under a name of the object that a setting is as JSON, if it is set and has one.
pub open spec fn setting_text(setting: Option<Seq<char>>, name: Seq<char>) -> Option<Seq<char>> {
    match setting {
        Some(raw) => json_text(raw, name),
        None => None,
    }
}

/// The string under a name of the object that a setting is as JSON; nothing where it is not set,
/// is not JSON, or has no string there.
pub fn read_setting_text(setting: &Option<String>, name: &str) -> (r: Option<String>)
    ensures
        opt_text(r) == setting_text(opt_text(*setting), name@),
{
    match setting {
        Some(raw) => read_json_text(raw.as_str(), name),
        None => None,
    }
}

/// What is read of a setting is the string under the name, just as it stands there, and nothing
/// only where there is none, or no JSON, or no setting.
pub proof fn law_a_setting_is_read_by_name(raw: Seq<char>, name: Seq<char>)
    ensures
        setting_text(None, name) is None,
        json_members(raw) is None ==> setting_text(Some(raw), name) is None,
        json_members(raw) matches Some(m) ==> (setting_text(Some(raw), name) is Some
            <==> m.dom().contains(name)),
        json_members(raw) matches Some(m) ==> m.dom().contains(name) ==> setting_text(
            Some(raw),
            name,
        ) == Some(m[name]),
{
}

} // verus!
