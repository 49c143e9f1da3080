//! A JSON document model for request payloads.

use vstd::prelude::*;

verus! {

/// A JSON value. Numbers keep their textual form.
#[derive(Debug)]
pub enum Json {
    Null,
    Bool(bool),
    Number(String),
    Str(String),
    Array(Vec<Json>),
    Object(Vec<(String, Json)>),
}

/// What a JSON value holds, as text.
pub enum JsonView {
    Null,
    Bool(bool),
    Number(Seq<char>),
    Str(Seq<char>),
    Array(Seq<JsonView>),
    Object(Seq<(Seq<char>, JsonView)>),
}

impl Json {
    pub open spec fn view_rec(&self) -> JsonView
        decreases self,
    {
        match self {
            Json::Null => JsonView::Null,
            Json::Bool(b) => JsonView::Bool(*b),
            Json::Number(n) => JsonView::Number(n@),
            Json::Str(s) => JsonView::Str(s@),
            Json::Array(v) => JsonView::Array(
                Seq::new(v@.len(), |i: int| if 0 <= i < v@.len() { v@[i].view_rec() } else { JsonView::Null }),
            ),
            Json::Object(v) => JsonView::Object(
                Seq::new(
                    v@.len(),
                    |i: int|
                        if 0 <= i < v@.len() {
                            (v@[i].0@, v@[i].1.view_rec())
                        } else {
                            (Seq::empty(), JsonView::Null)
                        },
                ),
            ),
        }
    }
}

impl View for Json {
    type V = JsonView;

    open spec fn view(&self) -> JsonView {
        self.view_rec()
    }
}

#[verifier::external_type_specification]
#[verifier::external_body]
pub struct ExJsonValue(serde_json::Value);

/// The document that `serde_json::from_str::<serde_json::Value>` reads from a text, taken as
/// a [`JsonView`] (numbers in serde_json's own text form, object members in the order of its
/// map); `None` where it refuses the text.
pub uninterp spec fn json_text_value(text: Seq<char>) -> Option<JsonView>;

/// The message of serde_json's error for a text it refuses.
pub uninterp spec fn json_text_error(text: Seq<char>) -> Seq<char>;

/// The bytes `serde_json::to_vec` writes for a document.
pub uninterp spec fn json_serialized(doc: JsonView) -> Seq<u8>;

/// Converts a parsed serde_json document, variant by variant.
#[verifier::external_body]
fn json_of_value(v: &serde_json::Value) -> Json {
    match v {
        serde_json::Value::Null => Json::Null,
        serde_json::Value::Bool(b) => Json::Bool(*b),
        serde_json::Value::Number(n) => Json::Number(n.to_string()),
        serde_json::Value::String(s) => Json::Str(s.clone()),
        serde_json::Value::Array(items) => Json::Array(items.iter().map(json_of_value).collect()),
        serde_json::Value::Object(m) => Json::Object(m.iter().map(|(k, x)| (k.clone(), json_of_value(x))).collect()),
    }
}

/// Converts a document to serde_json's, variant by variant.
#[verifier::external_body]
fn value_of_json(j: &Json) -> serde_json::Value {
    match j {
        Json::Null => serde_json::Value::Null,
        Json::Bool(b) => serde_json::Value::Bool(*b),
        Json::Number(n) => serde_json::from_str(n).unwrap_or(serde_json::Value::Null),
        Json::Str(s) => serde_json::Value::String(s.clone()),
        Json::Array(items) => serde_json::Value::Array(items.iter().map(value_of_json).collect()),
        Json::Object(m) => serde_json::Value::Object(m.iter().map(|(k, x)| (k.clone(), value_of_json(x))).collect()),
    }
}

/// Parses JSON text with `serde_json::from_str` into a `serde_json::Value`, converted variant by
/// variant; the contract claims that the result is the document serde_json reads
/// ([`json_text_value`]), or its error message ([`json_text_error`]) where it refuses the text.
#[verifier::external_body]
pub(crate) fn parse_json(text: &str) -> (r: Result<Json, String>)
    ensures
        match json_text_value(text@) {
            Some(v) => r matches Ok(j) && j@ == v,
            None => r matches Err(m) && m@ == json_text_error(text@),
        },
{
    match serde_json::from_str::<serde_json::Value>(text) {
        Ok(v) => Ok(json_of_value(&v)),
        Err(e) => Err(e.to_string()),
    }
}

/// Serialises a document with `serde_json::to_vec` (after converting it variant by variant);
/// the contract claims that the bytes are [`json_serialized`] of the document.
#[verifier::external_body]
pub(crate) fn json_bytes(j: &Json) -> (r: Vec<u8>)
    ensures
        r@ == json_serialized(j@),
{
    serde_json::to_vec(&value_of_json(j)).unwrap_or_default()
}

/// The text view of object entries.
pub open spec fn entries_view(v: Seq<(String, Json)>) -> Seq<(Seq<char>, JsonView)> {
    v.map_values(|e: (String, Json)| (e.0@, e.1@))
}

/// The view of an object is the view of its entries.
pub proof fn lemma_object_view(v: Vec<(String, Json)>)
    ensures
        Json::Object(v)@ == JsonView::Object(entries_view(v@)),
{
    assert(Json::Object(v)@->Object_0 =~= entries_view(v@));
}

/// A JSON string.
pub fn json_str(s: &str) -> (r: Json)
    ensures
        r@ == JsonView::Str(s@),
{
    Json::Str(String::from_str(s))
}

/// An object from its entries, in order.
pub fn json_object(entries: Vec<(String, Json)>) -> (r: Json)
    ensures
        r@ == JsonView::Object(entries_view(entries@)),
{
    proof {
        lemma_object_view(entries);
    }
    Json::Object(entries)
}

/// An object with one entry.
pub fn json_object1(key: &str, value: Json) -> (r: Json)
    ensures
        r@ == JsonView::Object(seq![(key@, value@)]),
{
    let mut v: Vec<(String, Json)> = Vec::new();
    v.push((String::from_str(key), value));
    let r = json_object(v);
    assert(entries_view(v@) =~= seq![(key@, value@)]);
    r
}

/// The empty object `{}`.
pub fn json_empty_object() -> (r: Json)
    ensures
        r@ == JsonView::Object(Seq::empty()),
{
    let v: Vec<(String, Json)> = Vec::new();
    let r = json_object(v);
    assert(entries_view(v@) =~= Seq::empty());
    r
}

/// Appends an entry to object entries.
pub fn push_entry(v: &mut Vec<(String, Json)>, key: &str, value: Json)
    ensures
        entries_view(final(v)@) == entries_view(old(v)@).push((key@, value@)),
{
    let ghost before = v@;
    v.push((String::from_str(key), value));
    assert(entries_view(v@) =~= entries_view(before).push((key@, value@)));
}

/// A JSON boolean.
pub fn json_bool(b: bool) -> (r: Json)
    ensures
        r@ == JsonView::Bool(b),
{
    Json::Bool(b)
}

/// A JSON number for a count.
pub fn json_count(n: usize) -> (r: Json)
    ensures
        r@ == JsonView::Number(crate::text::decimal(n as nat)),
{
    let d = crate::text::decimal_chars(n as u64);
    Json::Number(crate::text::string_from_chars(&d))
}

/// The text views of strings as JSON strings.
pub open spec fn str_views(v: Seq<String>) -> Seq<JsonView> {
    v.map_values(|s: String| JsonView::Str(s@))
}

/// A JSON array of strings.
pub fn json_str_array(v: &Vec<String>) -> (r: Json)
    ensures
        r@ == JsonView::Array(str_views(v@)),
{
    let mut out: Vec<Json> = Vec::new();
    for i in 0..v.len()
        invariant
            out@.len() == i,
            forall|k: int| 0 <= k < i ==> #[trigger] out@[k]@ == JsonView::Str(v@[k]@),
    {
        out.push(Json::Str(v[i].clone()));
    }
    let ghost items = out@;
    let r = Json::Array(out);
    assert forall|k: int| 0 <= k < v@.len() implies #[trigger] r@->Array_0[k] == str_views(v@)[k] by {
        assert(r@->Array_0[k] == items[k].view_rec());
        assert(items[k]@ == JsonView::Str(v@[k]@));
    }
    assert(r@->Array_0 =~= str_views(v@));
    r
}

} // verus!
