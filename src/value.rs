use vstd::prelude::*;

verus! {

/// A parsed document node. A number keeps the characters of its literal.
/// An object keeps its pairs in the order they were read, duplicates
/// included.
#[derive(Debug, PartialEq)]
pub enum JsonValue {
    Null,
    Bool(bool),
    Number(String),
    String(String),
    Array(Vec<JsonValue>),
    Object(Vec<(String, JsonValue)>),
}

/// The mathematical value of a document node.
pub enum Json {
    Null,
    Bool(bool),
    Number(Seq<char>),
    String(Seq<char>),
    Array(Seq<Json>),
    Object(Seq<(Seq<char>, Json)>),
}

impl View for JsonValue {
    type V = Json;

    open spec fn view(&self) -> Json
        decreases self,
    {
        match self {
            JsonValue::Null => Json::Null,
            JsonValue::Bool(b) => Json::Bool(*b),
            JsonValue::Number(n) => Json::Number(n@),
            JsonValue::String(s) => Json::String(s@),
            JsonValue::Array(items) => Json::Array(
                Seq::new(
                    items@.len(),
                    |k: int|
                        if 0 <= k < items@.len() {
                            items@[k].view()
                        } else {
                            Json::Null
                        },
                ),
            ),
            JsonValue::Object(pairs) => Json::Object(members_view(pairs@)),
        }
    }
}

/// The models of the pairs of an object, in order.
pub open spec fn members_view(s: Seq<(String, JsonValue)>) -> Seq<(Seq<char>, Json)>
    decreases s,
{
    if s.len() == 0 {
        Seq::empty()
    } else {
        members_view(s.drop_last()).push((s.last().0@, s.last().1.view()))
    }
}

} // verus!
