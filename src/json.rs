//! JSON values as the library holds them, and their mathematical model.
use vstd::prelude::*;

verus! {

broadcast use vstd::std_specs::vec::axiom_vec_index_decreases;

/// The mathematical model of a JSON document.
///
/// Numbers that are integers are held exactly; any other number is held as
/// its text. Object fields keep their order and may repeat a key.
pub enum Json {
    Null,
    Bool(bool),
    Int(int),
    Float(Seq<char>),
    Str(Seq<char>),
    Array(Seq<Json>),
    Object(Seq<(Seq<char>, Json)>),
}

/// A JSON document.
///
/// Integers that fit in `i64` are held as `Int`; larger non-negative ones as
/// `UInt`; any other number as the text of its shortest decimal form.
#[derive(Debug)]
pub enum JsonValue {
    Null,
    Bool(bool),
    Int(i64),
    UInt(u64),
    Float(String),
    Str(String),
    Array(Vec<JsonValue>),
    Object(Vec<(String, JsonValue)>),
}

/// The text of the key of the `i`-th field.
pub open spec fn key_at(fields: Seq<(String, JsonValue)>, i: int) -> Seq<char> {
    fields[i].0@
}

impl View for JsonValue {
    type V = Json;

    open spec fn view(&self) -> Json
        decreases self,
    {
        match self {
            JsonValue::Null => Json::Null,
            JsonValue::Bool(b) => Json::Bool(*b),
            JsonValue::Int(i) => Json::Int(*i as int),
            JsonValue::UInt(u) => Json::Int(*u as int),
            JsonValue::Float(t) => Json::Float(t@),
            JsonValue::Str(s) => Json::Str(s@),
            JsonValue::Array(items) => Json::Array(
                Seq::new(
                    items.len() as nat,
                    |i: int|
                        if 0 <= i < items.len() {
                            items[i].view()
                        } else {
                            Json::Null
                        },
                ),
            ),
            JsonValue::Object(fields) => Json::Object(
                Seq::new(
                    fields@.len(),
                    |i: int|
                        if 0 <= i < fields.len() {
                            (key_at(fields@, i), fields[i].1.view())
                        } else {
                            (Seq::<char>::empty(), Json::Null)
                        },
                ),
            ),
        }
    }
}

/// The models of a sequence of values, one for one.
pub open spec fn views_of(items: Seq<JsonValue>) -> Seq<Json> {
    Seq::new(items.len(), |i: int| items[i]@)
}

/// The models of a sequence of fields, one for one.
pub open spec fn field_views_of(fields: Seq<(String, JsonValue)>) -> Seq<(Seq<char>, Json)> {
    Seq::new(fields.len(), |i: int| (fields[i].0@, fields[i].1@))
}

/// The model of an array is the models of its elements.
pub proof fn lemma_array_view(items: Vec<JsonValue>)
    ensures
        JsonValue::Array(items)@ == Json::Array(views_of(items@)),
{
    assert(views_of(items@) =~= match JsonValue::Array(items)@ {
        Json::Array(s) => s,
        _ => Seq::empty(),
    });
}

/// The model of an object is its keys' texts with their values' models.
pub proof fn lemma_object_view(fields: Vec<(String, JsonValue)>)
    ensures
        JsonValue::Object(fields)@ == Json::Object(field_views_of(fields@)),
{
    let m = match JsonValue::Object(fields)@ {
        Json::Object(s) => s,
        _ => Seq::empty(),
    };
    reveal_with_fuel(<JsonValue as View>::view, 2);
    assert(field_views_of(fields@) =~= m);
}

impl JsonValue {
    /// A value equal to this one, built anew.
    pub fn copy(&self) -> (r: JsonValue)
        ensures
            r@ == self@,
        decreases self,
    {
        match self {
            JsonValue::Null => JsonValue::Null,
            JsonValue::Bool(b) => JsonValue::Bool(*b),
            JsonValue::Int(i) => JsonValue::Int(*i),
            JsonValue::UInt(u) => JsonValue::UInt(*u),
            JsonValue::Float(t) => JsonValue::Float(t.clone()),
            JsonValue::Str(t) => JsonValue::Str(t.clone()),
            JsonValue::Array(items) => {
                let mut out: Vec<JsonValue> = Vec::new();
                let mut i: usize = 0;
                proof {
                    assert forall|j: int| 0 <= j < items.len() implies decreases_to!(*self => items[j]) by {
                        assert(decreases_to!(*self => *items));
                        vstd::std_specs::vec::axiom_vec_index_decreases(*items, j);
                    }
                }
                while i < items.len()
                    invariant
                        forall|j: int| 0 <= j < items.len() ==> decreases_to!(*self => items[j]),
                        i <= items.len(),
                        out.len() == i,
                        forall|j: int| 0 <= j < i ==> (#[trigger] out[j])@ == items[j]@,
                    decreases items.len() - i,
                {
                    out.push(items[i].copy());
                    i = i + 1;
                }
                proof {
                    lemma_array_view(out);
                    lemma_array_view(*items);
                    assert(views_of(out@) =~= views_of(items@));
                }
                JsonValue::Array(out)
            },
            JsonValue::Object(fields) => {
                let mut out: Vec<(String, JsonValue)> = Vec::new();
                let mut i: usize = 0;
                proof {
                    assert forall|j: int| 0 <= j < fields.len() implies decreases_to!(*self => fields[j].1) by {
                        assert(decreases_to!(*self => *fields));
                        vstd::std_specs::vec::axiom_vec_index_decreases(*fields, j);
                        assert(decreases_to!(fields[j] => fields[j].1));
                    }
                }
                while i < fields.len()
                    invariant
                        forall|j: int| 0 <= j < fields.len() ==> decreases_to!(*self => fields[j].1),
                        i <= fields.len(),
                        out.len() == i,
                        forall|j: int|
                            0 <= j < i ==> (#[trigger] out[j]).0@ == fields[j].0@ && out[j].1@
                                == fields[j].1@,
                    decreases fields.len() - i,
                {
                    out.push((fields[i].0.clone(), fields[i].1.copy()));
                    i = i + 1;
                }
                proof {
                    lemma_object_view(out);
                    lemma_object_view(*fields);
                    assert(field_views_of(out@) =~= field_views_of(fields@));
                }
                JsonValue::Object(out)
            },
        }
    }
}

} // verus!
