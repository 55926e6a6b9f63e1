//! Reading JSON documents, which `serde_json` parses.

use vstd::prelude::*;

verus! {

/// A JSON value as a mathematical value.
pub enum Tree {
    Null,
    Flag(bool),
    /// A number: its decimal notation, and its value if it is an integer in the range of
    /// `i64`.
    Number { text: Seq<char>, integer: Option<i64> },
    Text(Seq<char>),
    List(Seq<Tree>),
    Object(Map<Seq<char>, Tree>),
}

impl Tree {
    /// The value under a name, where the tree is an object that holds it.
    pub open spec fn field(self, name: Seq<char>) -> Option<Tree> {
        match self {
            Tree::Object(fields) => if fields.contains_key(name) {
                Some(fields[name])
            } else {
                None
            },
            _ => None,
        }
    }

    /// The text under a name.
    pub open spec fn text_field(self, name: Seq<char>) -> Option<Seq<char>> {
        match self.field(name) {
            Some(Tree::Text(text)) => Some(text),
            _ => None,
        }
    }

    /// The decimal notation of the number under a name.
    pub open spec fn number_field(self, name: Seq<char>) -> Option<Seq<char>> {
        match self.field(name) {
            Some(Tree::Number { text, integer }) => Some(text),
            _ => None,
        }
    }

    /// The integer under a name.
    pub open spec fn integer_field(self, name: Seq<char>) -> Option<i64> {
        match self.field(name) {
            Some(Tree::Number { text, integer }) => integer,
            _ => None,
        }
    }

    /// The flag under a name.
    pub open spec fn flag_field(self, name: Seq<char>) -> Option<bool> {
        match self.field(name) {
            Some(Tree::Flag(flag)) => Some(flag),
            _ => None,
        }
    }

    /// The list under a name.
    pub open spec fn list_field(self, name: Seq<char>) -> Option<Seq<Tree>> {
        match self.field(name) {
            Some(Tree::List(list)) => Some(list),
            _ => None,
        }
    }
}

/// `serde_json::Value`, a JSON value of any kind.
#[verifier::external_type_specification]
#[verifier::external_body]
pub struct ExValue(serde_json::Value);

/// What a `serde_json::Value` holds. A number is told by the notation that it prints as.
pub uninterp spec fn json_tree(value: serde_json::Value) -> Tree;

/// What parsing a JSON text gives: the value, or the message of the parse error.
pub uninterp spec fn json_parse(text: Seq<char>) -> Result<Tree, Seq<char>>;

/// `serde_json::from_str`, with the error as the text that it prints as. What it returns
/// is a function of the text alone.
#[verifier::external_body]
pub(crate) fn parse(text: &str) -> (result: Result<serde_json::Value, String>)
    ensures
        match result {
            Ok(value) => json_parse(text@) == Ok::<Tree, Seq<char>>(json_tree(value)),
            Err(message) => json_parse(text@) == Err::<Tree, Seq<char>>(message@),
        },
{
    serde_json::from_str(text).map_err(|e: serde_json::Error| e.to_string())
}

/// `serde_json::Value::get` with a name: the value under it, if this is an object that
/// holds the name.
#[verifier::external_body]
fn get<'a>(value: &'a serde_json::Value, name: &str) -> (field: Option<&'a serde_json::Value>)
    ensures
        match json_tree(*value).field(name@) {
            Some(tree) => field is Some && json_tree(*field->0) == tree,
            None => field is None,
        },
{
    value.get(name)
}

/// `serde_json::Value::as_array`: the items, if this is a list.
#[verifier::external_body]
fn as_array<'a>(value: &'a serde_json::Value) -> (items: Option<&'a Vec<serde_json::Value>>)
    ensures
        match json_tree(*value) {
            Tree::List(list) => {
                &&& items is Some
                &&& items->0@.len() == list.len()
                &&& forall|i: int|
                    0 <= i < list.len() ==> json_tree(#[trigger] items->0@[i]) == list[i]
            },
            _ => items is None,
        },
{
    value.as_array()
}

/// `serde_json::Value::as_str`: the text, if this is one.
#[verifier::external_body]
fn as_str<'a>(value: &'a serde_json::Value) -> (text: Option<&'a str>)
    ensures
        match json_tree(*value) {
            Tree::Text(held) => text is Some && text->0@ == held,
            _ => text is None,
        },
{
    value.as_str()
}

/// `serde_json::Value::as_number`: the number as the text that it prints as, if this is
/// one.
#[verifier::external_body]
fn as_number(value: &serde_json::Value) -> (number: Option<String>)
    ensures
        match json_tree(*value) {
            Tree::Number { text, integer } => number is Some && number->0@ == text,
            _ => number is None,
        },
{
    value.as_number().map(|number: &serde_json::Number| number.to_string())
}

/// `serde_json::Value::as_i64`: the number, if this is an integer in the range of `i64`.
#[verifier::external_body]
fn as_i64(value: &serde_json::Value) -> (number: Option<i64>)
    ensures
        match json_tree(*value) {
            Tree::Number { text, integer } => number == integer,
            _ => number is None,
        },
{
    value.as_i64()
}

/// `serde_json::Value::as_bool`: the flag, if this is one.
#[verifier::external_body]
fn as_bool(value: &serde_json::Value) -> (flag: Option<bool>)
    ensures
        match json_tree(*value) {
            Tree::Flag(held) => flag == Some(held),
            _ => flag is None,
        },
{
    value.as_bool()
}

/// Reads the list under a name.
pub(crate) fn list_field<'a>(value: &'a serde_json::Value, name: &str) -> (items: Option<
    &'a Vec<serde_json::Value>,
>)
    ensures
        match json_tree(*value).list_field(name@) {
            Some(list) => {
                &&& items is Some
                &&& items->0@.len() == list.len()
                &&& forall|i: int|
                    0 <= i < list.len() ==> json_tree(#[trigger] items->0@[i]) == list[i]
            },
            None => items is None,
        },
{
    match get(value, name) {
        Some(field) => as_array(field),
        None => None,
    }
}

/// Reads the text under a name.
pub(crate) fn text_field(value: &serde_json::Value, name: &str) -> (text: Option<String>)
    ensures
        text_view(text) == json_tree(*value).text_field(name@),
{
    match get(value, name) {
        Some(field) => match as_str(field) {
            Some(text) => Some(text.to_owned()),
            None => None,
        },
        None => None,
    }
}

/// Reads the decimal notation of the number under a name.
pub(crate) fn number_field(value: &serde_json::Value, name: &str) -> (text: Option<String>)
    ensures
        text_view(text) == json_tree(*value).number_field(name@),
{
    match get(value, name) {
        Some(field) => as_number(field),
        None => None,
    }
}

/// Reads the integer under a name.
pub(crate) fn integer_field(value: &serde_json::Value, name: &str) -> (number: Option<i64>)
    ensures
        number == json_tree(*value).integer_field(name@),
{
    match get(value, name) {
        Some(field) => as_i64(field),
        None => None,
    }
}

/// Reads the flag under a name.
pub(crate) fn flag_field(value: &serde_json::Value, name: &str) -> (flag: Option<bool>)
    ensures
        flag == json_tree(*value).flag_field(name@),
{
    match get(value, name) {
        Some(field) => as_bool(field),
        None => None,
    }
}

/// The text of an optional string.
pub open spec fn text_view(text: Option<String>) -> Option<Seq<char>> {
    match text {
        Some(text) => Some(text@),
        None => None,
    }
}

} // verus!
