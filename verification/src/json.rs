//! JSON values, as far as this library reads them.

use vstd::prelude::*;

use crate::text::{self, Text};

verus! {

// ---------------------------------------------------------------------------
// Values
// ---------------------------------------------------------------------------

/// A JSON value. What a number is worth is never read, so it is left out.
#[derive(Debug)]
pub enum Json {
    Null,
    Bool(bool),
    Number,
    Text(String),
    List(Vec<Json>),
    Object(Vec<(String, Json)>),
}

pub enum JsonView {
    Null,
    Bool(bool),
    Number,
    Text(Text),
    List(Seq<JsonView>),
    Object(Seq<(Text, JsonView)>),
}

pub open spec fn json_view(json: Json) -> JsonView
    decreases json,
{
    match json {
        Json::Null => JsonView::Null,
        Json::Bool(b) => JsonView::Bool(b),
        Json::Number => JsonView::Number,
        Json::Text(t) => JsonView::Text(t@),
        Json::List(items) => JsonView::List(list_view(items@)),
        Json::Object(fields) => JsonView::Object(fields_view(fields@)),
    }
}

pub open spec fn list_view(items: Seq<Json>) -> Seq<JsonView>
    decreases items,
{
    if items.len() == 0 {
        Seq::empty()
    } else {
        list_view(items.drop_last()).push(json_view(items.last()))
    }
}

pub open spec fn fields_view(fields: Seq<(String, Json)>) -> Seq<(Text, JsonView)>
    decreases fields,
{
    if fields.len() == 0 {
        Seq::empty()
    } else {
        fields_view(fields.drop_last()).push((fields.last().0@, json_view(fields.last().1)))
    }
}

impl View for Json {
    type V = JsonView;

    open spec fn view(&self) -> JsonView {
        json_view(*self)
    }
}

proof fn lemma_fields_view(fields: Seq<(String, Json)>)
    ensures
        fields_view(fields).len() == fields.len(),
        forall|i: int|
            #![trigger fields_view(fields)[i]]
            0 <= i < fields.len() ==> fields_view(fields)[i] == (fields[i].0@, fields[i].1@),
    decreases fields.len(),
{
    if fields.len() > 0 {
        lemma_fields_view(fields.drop_last());
    }
}

// ---------------------------------------------------------------------------
// Reading fields
// ---------------------------------------------------------------------------

/// The value under a key.
pub open spec fn field(fields: Seq<(Text, JsonView)>, key: Text) -> Option<JsonView>
    decreases fields.len(),
{
    if fields.len() == 0 {
        None
    } else if fields[0].0 == key {
        Some(fields[0].1)
    } else {
        field(fields.skip(1), key)
    }
}

impl JsonView {
    /// The value under a key of an object; nothing has keys that is not one.
    pub open spec fn at(self, key: Text) -> Option<JsonView> {
        match self {
            JsonView::Object(fields) => field(fields, key),
            _ => None,
        }
    }
}

pub open spec fn json_option(json: Option<&Json>) -> Option<JsonView> {
    match json {
        Some(json) => Some(json@),
        None => None,
    }
}

/// A string, or an empty one where there is none.
pub open spec fn text_or_empty(json: Option<JsonView>) -> Text {
    match json {
        Some(JsonView::Text(t)) => t,
        _ => Seq::empty(),
    }
}

/// A flag, or `false` where there is none.
pub open spec fn flag_or_false(json: Option<JsonView>) -> bool {
    match json {
        Some(JsonView::Bool(b)) => b,
        _ => false,
    }
}

impl Json {
    /// The value under a key.
    pub fn get(&self, key: &str) -> (r: Option<&Json>)
        ensures
            json_option(r) == self@.at(key@),
    {
        match self {
            Json::Object(fields) => {
                let ghost all = fields_view(fields@);
                proof {
                    lemma_fields_view(fields@);
                    assert(all.skip(0) =~= all);
                }
                for i in 0..fields.len()
                    invariant
                        all == fields_view(fields@),
                        all.len() == fields@.len(),
                        self@ == JsonView::Object(all),
                        field(all, key@) == field(all.skip(i as int), key@),
                {
                    proof {
                        lemma_fields_view(fields@);
                        assert(all.skip(i as int)[0] == all[i as int]);
                        assert(all.skip(i as int).skip(1) =~= all.skip(i + 1));
                    }
                    if text::same(fields[i].0.as_str(), key) {
                        return Some(&fields[i].1);
                    }
                }
                None
            },
            _ => None,
        }
    }

    pub fn is_object(&self) -> (r: bool)
        ensures
            r == (self@ is Object),
    {
        match self {
            Json::Object(_) => true,
            _ => false,
        }
    }
}

pub fn text_in(json: Option<&Json>) -> (r: String)
    ensures
        r@ == text_or_empty(json_option(json)),
{
    match json {
        Some(Json::Text(t)) => t.clone(),
        _ => String::new(),
    }
}

pub fn flag_in(json: Option<&Json>) -> (r: bool)
    ensures
        r == flag_or_false(json_option(json)),
{
    match json {
        Some(Json::Bool(b)) => *b,
        _ => false,
    }
}

// ---------------------------------------------------------------------------
// Parsing
// ---------------------------------------------------------------------------

/// The value type of the `serde_json` crate.
#[verifier::external_type_specification]
#[verifier::external_body]
pub struct ExValue(serde_json::Value);

/// What a value of the `serde_json` crate holds.
pub uninterp spec fn contents(value: serde_json::Value) -> JsonView;

/// The value that a text stands for in JSON, if it stands for any.
pub uninterp spec fn parsed(raw: Text) -> Option<JsonView>;

/// One level of a value: its kind, and the values right inside it.
enum Node {
    Null,
    Bool(bool),
    Number,
    Text(String),
    List(Vec<serde_json::Value>),
    Object(Vec<(String, serde_json::Value)>),
}

spec fn contents_of_list(items: Seq<serde_json::Value>) -> Seq<JsonView> {
    items.map_values(|item: serde_json::Value| contents(item))
}

spec fn contents_of_fields(fields: Seq<(String, serde_json::Value)>) -> Seq<(Text, JsonView)> {
    fields.map_values(|entry: (String, serde_json::Value)| (entry.0@, contents(entry.1)))
}

spec fn node_view(node: Node) -> JsonView {
    match node {
        Node::Null => JsonView::Null,
        Node::Bool(b) => JsonView::Bool(b),
        Node::Number => JsonView::Number,
        Node::Text(t) => JsonView::Text(t@),
        Node::List(items) => JsonView::List(contents_of_list(items@)),
        Node::Object(fields) => JsonView::Object(contents_of_fields(fields@)),
    }
}

/// The variants of `serde_json::Value`, told apart: each holds what its name says,
/// an array its items in order, and an object its keys with their values.
#[verifier::external_body]
fn open(value: &serde_json::Value) -> (r: Node)
    ensures
        node_view(r) == contents(*value),
{
    match value {
        serde_json::Value::Null => Node::Null,
        serde_json::Value::Bool(b) => Node::Bool(*b),
        serde_json::Value::Number(_) => Node::Number,
        serde_json::Value::String(t) => Node::Text(t.clone()),
        serde_json::Value::Array(items) => Node::List(items.clone()),
        serde_json::Value::Object(fields) => Node::Object(fields.clone().into_iter().collect()),
    }
}

/// `serde_json::from_str` for a `serde_json::Value`: the value that the text
/// stands for, or an error (here `None`) where it stands for none. Which texts
/// those are, and for what, is left to the name.
#[verifier::external_body]
fn parse_value(raw: &str) -> (r: Option<serde_json::Value>)
    ensures
        match r {
            Some(value) => parsed(raw@) == Some(contents(value)),
            None => parsed(raw@) is None,
        },
{
    match serde_json::from_str::<serde_json::Value>(raw) {
        Ok(value) => Some(value),
        Err(_) => None,
    }
}

fn from_value(value: &serde_json::Value) -> (r: Json)
    ensures
        r@ == contents(*value),
    decreases contents(*value),
{
    match open(value) {
        Node::Null => Json::Null,
        Node::Bool(b) => Json::Bool(b),
        Node::Number => Json::Number,
        Node::Text(t) => Json::Text(t),
        Node::List(items) => {
            let ghost all = contents_of_list(items@);
            let mut out: Vec<Json> = Vec::new();
            assert(list_view(out@) =~= all.take(0));
            for i in 0..items.len()
                invariant
                    all == contents_of_list(items@),
                    contents(*value) == JsonView::List(all),
                    list_view(out@) == all.take(i as int),
            {
                proof {
                    assert(all[i as int] == contents(items@[i as int]));
                    assert(decreases_to!(contents(*value) => contents(*value)->List_0));
                    assert(decreases_to!(all => all[i as int]));
                }
                let item = from_value(&items[i]);
                let ghost before = out@;
                out.push(item);
                proof {
                    assert(out@.drop_last() =~= before);
                    assert(all.take(i + 1) =~= all.take(i as int).push(all[i as int]));
                }
            }
            assert(all.take(items@.len() as int) =~= all);
            Json::List(out)
        },
        Node::Object(fields) => {
            let ghost all = contents_of_fields(fields@);
            let mut out: Vec<(String, Json)> = Vec::new();
            assert(fields_view(out@) =~= all.take(0));
            for i in 0..fields.len()
                invariant
                    all == contents_of_fields(fields@),
                    contents(*value) == JsonView::Object(all),
                    fields_view(out@) == all.take(i as int),
            {
                proof {
                    assert(all[i as int] == (fields@[i as int].0@, contents(fields@[i as int].1)));
                    assert(decreases_to!(contents(*value) => contents(*value)->Object_0));
                    assert(decreases_to!(all => all[i as int]));
                    assert(decreases_to!(all[i as int] => all[i as int].1));
                }
                let item = from_value(&fields[i].1);
                let ghost before = out@;
                out.push((fields[i].0.clone(), item));
                proof {
                    assert(out@.drop_last() =~= before);
                    assert(all.take(i + 1) =~= all.take(i as int).push(all[i as int]));
                }
            }
            assert(all.take(fields@.len() as int) =~= all);
            Json::Object(out)
        },
    }
}

/// The value that a text stands for, or `None` where it stands for none.
pub fn parse(raw: &str) -> (r: Option<Json>)
    ensures
        match r {
            Some(json) => parsed(raw@) == Some(json@),
            None => parsed(raw@) is None,
        },
{
    match parse_value(raw) {
        Some(value) => Some(from_value(&value)),
        None => None,
    }
}

// ---------------------------------------------------------------------------
// Writing
// ---------------------------------------------------------------------------

/// A hexadecimal digit, with small letters.
pub open spec fn hex_digit(d: nat) -> char {
    if d < 10 {
        text::digit(d)
    } else if d == 10 {
        'a'
    } else if d == 11 {
        'b'
    } else if d == 12 {
        'c'
    } else if d == 13 {
        'd'
    } else if d == 14 {
        'e'
    } else {
        'f'
    }
}

/// A character as it stands in a JSON string: quotes, backslashes and control
/// characters are escaped, by a letter where there is one for them and by their
/// number otherwise, and all else is as it is.
pub open spec fn escaped_char(c: char) -> Text {
    if c == '"' || c == '\\' {
        seq!['\\', c]
    } else if c == '\u{8}' {
        seq!['\\', 'b']
    } else if c == '\u{9}' {
        seq!['\\', 't']
    } else if c == '\u{a}' {
        seq!['\\', 'n']
    } else if c == '\u{c}' {
        seq!['\\', 'f']
    } else if c == '\u{d}' {
        seq!['\\', 'r']
    } else if c <= '\u{1f}' {
        let n = c as nat;
        seq!['\\', 'u', '0', '0', hex_digit(n / 16), hex_digit(n % 16)]
    } else {
        seq![c]
    }
}

/// A text as a JSON string.
pub open spec fn quoted(t: Text) -> Text {
    seq!['"'] + text::concat(t.map_values(|c: char| escaped_char(c))) + seq!['"']
}

/// `serde_json::to_string` for a string: the text between quotes, each character
/// escaped where JSON asks for it. It does not fail on a string.
#[verifier::external_body]
fn to_json_string(t: &str) -> (r: Option<String>)
    ensures
        text::optional(r) == Some(quoted(t@)),
{
    match serde_json::to_string(t) {
        Ok(json) => Some(json),
        Err(_) => None,
    }
}

/// A text as a JSON string.
pub fn quote(t: &str) -> (r: String)
    ensures
        r@ == quoted(t@),
{
    match to_json_string(t) {
        Some(json) => json,
        None => String::new(),
    }
}

} // verus!
