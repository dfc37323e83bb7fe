//! Semantic JSON values.
//!
//! A value is null, a boolean, a number, a string, an array of values,
//! or an object. An object is carried as a vector of key/value entries
//! whose keys are unique; its mathematical view forgets the entry order
//! and is a map from key text to value, later entries overriding
//! earlier ones.

use crate::number::JsonNumber;
use crate::number::NumberModel;
use vstd::prelude::*;

verus! {

/// A JSON value. String content is kept verbatim, escape sequences
/// included: the builder does not interpret escapes.
#[derive(Debug, PartialEq)]
pub enum JsonValue {
    Null,
    Bool(bool),
    Number(JsonNumber),
    String(String),
    Array(Vec<JsonValue>),
    Object(Vec<(String, JsonValue)>),
}

/// The mathematical shape of a JSON value: sequences for arrays, and a
/// map — order forgotten — for objects.
pub enum JsonModel {
    Null,
    Bool(bool),
    Number(NumberModel),
    String(Seq<char>),
    Array(Seq<JsonModel>),
    Object(Map<Seq<char>, JsonModel>),
}

/// The map that a sequence of key/value entries denotes: each entry is
/// inserted in order, so a later entry overrides an earlier one with
/// the same key.
pub open spec fn entries_to_map(s: Seq<(Seq<char>, JsonModel)>) -> Map<Seq<char>, JsonModel>
    decreases s.len(),
{
    if s.len() == 0 {
        Map::empty()
    } else {
        entries_to_map(s.drop_last()).insert(s.last().0, s.last().1)
    }
}

/// The views of a sequence of values, element by element.
pub open spec fn values_view(s: Seq<JsonValue>) -> Seq<JsonModel>
    decreases s,
{
    Seq::new(s.len(), |i: int| if 0 <= i < s.len() { s[i].view() } else { JsonModel::Null })
}

/// The views of a sequence of object entries, entry by entry.
pub open spec fn entry_views(s: Seq<(String, JsonValue)>) -> Seq<(Seq<char>, JsonModel)>
    decreases s,
{
    Seq::new(
        s.len(),
        |i: int|
            if 0 <= i < s.len() {
                (s[i].0@, s[i].1.view())
            } else {
                (Seq::empty(), JsonModel::Null)
            },
    )
}

impl View for JsonValue {
    type V = JsonModel;

    open spec fn view(&self) -> JsonModel
        decreases self,
    {
        match self {
            JsonValue::Null => JsonModel::Null,
            JsonValue::Bool(b) => JsonModel::Bool(*b),
            JsonValue::Number(n) => JsonModel::Number(n@),
            JsonValue::String(s) => JsonModel::String(s@),
            JsonValue::Array(elems) => JsonModel::Array(values_view(elems@)),
            JsonValue::Object(entries) => JsonModel::Object(entries_to_map(entry_views(entries@))),
        }
    }
}

/// No two entries share a key.
pub open spec fn unique_keys(s: Seq<(String, JsonValue)>) -> bool {
    forall|i: int, j: int| 0 <= i < j < s.len() ==> (#[trigger] s[i]).0@ != (#[trigger] s[j]).0@
}

impl JsonValue {
    /// Well-formedness: in every object of the tree the entry keys are
    /// unique, so each key names exactly one value.
    pub open spec fn wf(self) -> bool
        decreases self,
    {
        match self {
            JsonValue::Array(elems) => forall|i: int|
                0 <= i < elems@.len() ==> (#[trigger] elems@[i]).wf(),
            JsonValue::Object(entries) => unique_keys(entries@) && forall|i: int|
                0 <= i < entries@.len() ==> (#[trigger] entries@[i]).1.wf(),
            _ => true,
        }
    }
}

} // verus!
