//! The value tree and its mathematical model.
use vstd::prelude::*;

verus! {

broadcast use vstd::std_specs::vec::axiom_vec_index_decreases;

/// The meaning of a value tree: numbers as integers, text as character sequences, and an
/// object as its list of key and value entries.
pub ghost enum Json {
    Number(int),
    True,
    False,
    Str(Seq<char>),
    Array(Seq<Json>),
    Object(Seq<(Seq<char>, Json)>),
}

/// A parsed value. Each node owns its children.
#[derive(Debug, PartialEq)]
pub enum Value {
    /// A run of decimal digits.
    Number(i64),
    True,
    False,
    /// The text between two quotes, as it stood.
    String(String),
    /// The items in the order they were read.
    Array(Vec<Value>),
    /// The entries of a mapping from keys to values. A parsed object holds each key once,
    /// where the key was first read, with the value read last for it.
    Object(Vec<(String, Value)>),
}

impl Value {
    /// The model of this value.
    pub open spec fn model(self) -> Json
        decreases self,
    {
        match self {
            Value::Number(n) => Json::Number(n as int),
            Value::True => Json::True,
            Value::False => Json::False,
            Value::String(s) => Json::Str(s@),
            Value::Array(items) => Json::Array(
                Seq::new(
                    items.len() as nat,
                    |i: int| if 0 <= i < items.len() { items[i].model() } else { Json::True },
                ),
            ),
            Value::Object(entries) => Json::Object(
                Seq::new(
                    entries.len() as nat,
                    |i: int|
                        if 0 <= i < entries.len() {
                            (entries[i].0@, entries[i].1.model())
                        } else {
                            (Seq::empty(), Json::True)
                        },
                ),
            ),
        }
    }
}

/// The models of a list of values.
pub open spec fn items_model(items: Seq<Value>) -> Seq<Json> {
    Seq::new(items.len(), |i: int| items[i].model())
}

/// The models of a list of object entries.
pub open spec fn entries_model(entries: Seq<(String, Value)>) -> Seq<(Seq<char>, Json)> {
    Seq::new(entries.len(), |i: int| (entries[i].0@, entries[i].1.model()))
}

/// The model of an array is the list of its items' models.
pub proof fn lemma_array_model(items: Vec<Value>)
    ensures
        Value::Array(items).model() == Json::Array(items_model(items@)),
{
    let m = Value::Array(items).model();
    assert(m->Array_0 =~= items_model(items@));
}

/// The model of an object is the list of its entries' models.
pub proof fn lemma_object_model(entries: Vec<(String, Value)>)
    ensures
        Value::Object(entries).model() == Json::Object(entries_model(entries@)),
{
    let m = Value::Object(entries).model();
    assert(m->Object_0 =~= entries_model(entries@));
}

} // verus!
