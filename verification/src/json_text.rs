//! JSON text produced by the JSON serializer: quoted strings, and flat
//! objects of scalar cells.

use vstd::prelude::*;

verus! {

/// The value of one field of a flat JSON object.
#[derive(Debug, Clone)]
pub enum JsonCell {
    Null,
    Bool(bool),
    Int(i64),
    UInt(u64),
    /// A number given as its JSON text.
    Number(String),
    Text(String),
    /// An array of strings.
    List(Vec<String>),
}

#[derive(Debug, Clone)]
pub struct JsonField {
    pub key: String,
    pub value: JsonCell,
}

/// The views of a list of strings, in order.
pub open spec fn strings_view(v: Seq<String>) -> Seq<Seq<char>> {
    v.map_values(|s: String| s@)
}

pub enum JsonCellView {
    Null,
    Bool(bool),
    Int(i64),
    UInt(u64),
    Number(Seq<char>),
    Text(Seq<char>),
    List(Seq<Seq<char>>),
}

impl View for JsonCell {
    type V = JsonCellView;

    open spec fn view(&self) -> JsonCellView {
        match self {
            JsonCell::Null => JsonCellView::Null,
            JsonCell::Bool(b) => JsonCellView::Bool(*b),
            JsonCell::Int(i) => JsonCellView::Int(*i),
            JsonCell::UInt(u) => JsonCellView::UInt(*u),
            JsonCell::Number(t) => JsonCellView::Number(t@),
            JsonCell::Text(t) => JsonCellView::Text(t@),
            JsonCell::List(l) => JsonCellView::List(strings_view(l@)),
        }
    }
}

pub struct JsonFieldView {
    pub key: Seq<char>,
    pub value: JsonCellView,
}

impl View for JsonField {
    type V = JsonFieldView;

    open spec fn view(&self) -> JsonFieldView {
        JsonFieldView { key: self.key@, value: self.value@ }
    }
}

/// The views of a list of fields, in order.
pub open spec fn fields_view(fields: Seq<JsonField>) -> Seq<JsonFieldView> {
    fields.map_values(|f: JsonField| f@)
}

/// `s` as a JSON string literal: quoted, with escapes where JSON needs them.
pub uninterp spec fn json_quoted_text(s: Seq<char>) -> Seq<char>;

/// The compact JSON text of the object that holds `fields`, inserted in
/// order into a map (a later field replaces an earlier one of the same
/// key); `None` where the serializer fails.
pub uninterp spec fn json_object_text(fields: Seq<JsonFieldView>) -> Option<Seq<char>>;

/// Whether `text` is read as a JSON number.
pub uninterp spec fn json_number_parses(text: Seq<char>) -> bool;

/// Whether a cell can be handed to the serializer: a number cell must hold
/// text that is read as a number.
pub open spec fn cell_ready(cell: JsonCellView) -> bool {
    cell matches JsonCellView::Number(text) ==> json_number_parses(text)
}

/// Whether every field can be handed to the serializer.
pub open spec fn fields_ready(fields: Seq<JsonFieldView>) -> bool {
    forall|i: int| 0 <= i < fields.len() ==> cell_ready(#[trigger] fields[i].value)
}

/// Calls `str::parse::<serde_json::Number>`, that is `Number::from_str`,
/// and tells whether it reads `text` as a number. The answer depends on the
/// text alone and is known here only by name.
#[verifier::external_body]
pub(crate) fn is_json_number(text: &str) -> (r: bool)
    ensures
        r == json_number_parses(text@),
{
    text.parse::<serde_json::Number>().is_ok()
}

/// Calls `serde_json::to_string` on a string. The escaping rules are the
/// serializer's; the result depends on `s` alone and is known here only by
/// name. Serializing a string into memory has no way to fail; were it to,
/// the empty text would come back.
#[verifier::external_body]
pub(crate) fn json_quote(s: &str) -> (r: String)
    ensures
        r@ == json_quoted_text(s@),
{
    serde_json::to_string(s).unwrap_or_default()
}

/// Builds a `serde_json::Map` by `insert`ing each field in order and calls
/// `serde_json::to_string` on the object. The text depends on the fields
/// alone and is known here only by name. The text of a number cell is
/// read by `Number::from_str`; the callers hand over only text that it
/// reads, so a number cell is always written as that number.
#[verifier::external_body]
pub(crate) fn object_to_json(fields: &Vec<JsonField>) -> (r: Option<String>)
    requires
        fields_ready(fields_view(fields@)),
    ensures
        match r {
            Some(t) => json_object_text(fields_view(fields@)) == Some(t@),
            None => json_object_text(fields_view(fields@)) is None,
        },
{
    let mut map = serde_json::Map::new();
    for f in fields.iter() {
        let value = match &f.value {
            JsonCell::Null => serde_json::Value::Null,
            JsonCell::Bool(b) => serde_json::Value::Bool(*b),
            JsonCell::Int(i) => serde_json::Value::from(*i),
            JsonCell::UInt(u) => serde_json::Value::from(*u),
            JsonCell::Number(t) => t.parse().map_or(serde_json::Value::Null, serde_json::Value::Number),
            JsonCell::Text(t) => serde_json::Value::String(t.clone()),
            JsonCell::List(l) => serde_json::Value::from(l.clone()),
        };
        map.insert(f.key.clone(), value);
    }
    serde_json::to_string(&serde_json::Value::Object(map)).ok()
}

} // verus!
