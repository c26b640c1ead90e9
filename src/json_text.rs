//! Reading JSON text into [`JsonValue`], by way of `serde_json`.
use vstd::prelude::*;
use crate::json::{field_views_of, lemma_array_view, lemma_object_view, views_of, Json, JsonValue};

verus! {

#[verifier::external_type_specification]
#[verifier::external_body]
pub struct ExSerdeValue(serde_json::Value);

#[verifier::external_type_specification]
#[verifier::external_body]
pub struct ExSerdeError(serde_json::Error);

/// What a parsed `serde_json::Value` holds, as a document model. Numbers are
/// integers of `i64` or `u64`, or floats held as the text that serde_json
/// displays for them; object fields come in the map's order, which with the
/// `preserve_order` feature is the order of the text.
pub uninterp spec fn serde_model(v: serde_json::Value) -> Json;

/// The document that `s` spells as JSON text, if serde_json accepts it.
pub uninterp spec fn json_of_text(s: Seq<char>) -> Option<Json>;

/// Relies on serde_json::from_str into a `Value`: it succeeds exactly on the
/// text that it accepts, and what it yields depends on the text alone.
#[verifier::external_body]
fn serde_from_str(s: &str) -> (r: Result<serde_json::Value, serde_json::Error>)
    ensures
        r is Ok <==> json_of_text(s@) is Some,
        r is Ok ==> json_of_text(s@) == Some(serde_model(r->Ok_0)),
{
    serde_json::from_str::<serde_json::Value>(s)
}

/// Relies on serde_json::Value::is_null: true for `null` alone.
pub assume_specification[ serde_json::Value::is_null ](v: &serde_json::Value) -> (r: bool)
    ensures
        r == (serde_model(*v) is Null),
;

/// Relies on serde_json::Value::as_bool: the boolean of a boolean value.
pub assume_specification[ serde_json::Value::as_bool ](v: &serde_json::Value) -> (r: Option<bool>)
    ensures
        r == (match serde_model(*v) {
            Json::Bool(b) => Some(b),
            _ => None,
        }),
;

/// Relies on serde_json::Value::is_number: true for numbers alone, which
/// serde_json holds as `i64`, `u64` or `f64`.
pub assume_specification[ serde_json::Value::is_number ](v: &serde_json::Value) -> (r: bool)
    ensures
        r == (serde_model(*v) is Int || serde_model(*v) is Float),
        r == (serde_model(*v) is Float || (serde_model(*v) is Int && i64::MIN <= serde_model(
            *v,
        )->Int_0 <= u64::MAX)),
;

/// Relies on serde_json::Value::as_i64: an integer that fits in `i64`.
pub assume_specification[ serde_json::Value::as_i64 ](v: &serde_json::Value) -> (r: Option<i64>)
    ensures
        r is Some <==> (serde_model(*v) is Int && i64::MIN <= serde_model(*v)->Int_0
            <= i64::MAX),
        r is Some ==> serde_model(*v) == Json::Int(r->0 as int),
;

/// Relies on serde_json::Value::as_u64: an integer that fits in `u64`.
pub assume_specification[ serde_json::Value::as_u64 ](v: &serde_json::Value) -> (r: Option<u64>)
    ensures
        r is Some <==> (serde_model(*v) is Int && 0 <= serde_model(*v)->Int_0 <= u64::MAX),
        r is Some ==> serde_model(*v) == Json::Int(r->0 as int),
;

/// Relies on serde_json::Value::as_str: the text of a string value.
pub assume_specification[ serde_json::Value::as_str ](v: &serde_json::Value) -> (r: Option<&str>)
    ensures
        r is Some <==> serde_model(*v) is Str,
        r is Some ==> serde_model(*v) == Json::Str(r->0@),
;

/// Relies on serde_json::Value::as_array: the elements of an array value.
pub assume_specification[ serde_json::Value::as_array ](v: &serde_json::Value) -> (r: Option<
    &Vec<serde_json::Value>,
>)
    ensures
        r is Some <==> serde_model(*v) is Array,
        r is Some ==> r->0.len() == serde_model(*v)->Array_0.len() && forall|i: int|
            0 <= i < r->0.len() ==> serde_model(#[trigger] r->0[i]) == serde_model(
                *v,
            )->Array_0[i],
;

/// Relies on serde_json::Value::as_object and serde_json::Map::iter: the
/// fields of an object value, in the map's order.
#[verifier::external_body]
fn object_fields(v: &serde_json::Value) -> (r: Option<Vec<(String, serde_json::Value)>>)
    ensures
        r is Some <==> serde_model(*v) is Object,
        r is Some ==> r->0.len() == serde_model(*v)->Object_0.len() && forall|i: int|
            0 <= i < r->0.len() ==> (#[trigger] r->0[i]).0@ == serde_model(*v)->Object_0[i].0
                && serde_model(r->0[i].1) == serde_model(*v)->Object_0[i].1,
{
    v.as_object().map(|m| m.iter().map(|(k, x)| (k.clone(), x.clone())).collect())
}

/// Relies on serde_json's `Display` for a `Value`: for a float, the text that
/// the model holds.
#[verifier::external_body]
fn float_text(v: &serde_json::Value) -> (r: String)
    ensures
        serde_model(*v) is Float ==> serde_model(*v) == Json::Float(r@),
{
    v.to_string()
}

/// The library's copy of a parsed value.
fn from_serde(v: &serde_json::Value) -> (r: JsonValue)
    ensures
        r@ == serde_model(*v),
    decreases serde_model(*v),
{
    if v.is_null() {
        return JsonValue::Null;
    }
    if let Some(b) = v.as_bool() {
        return JsonValue::Bool(b);
    }
    if v.is_number() {
        if let Some(n) = v.as_i64() {
            return JsonValue::Int(n);
        }
        if let Some(n) = v.as_u64() {
            return JsonValue::UInt(n);
        }
        return JsonValue::Float(float_text(v));
    }
    if let Some(s) = v.as_str() {
        return JsonValue::Str(s.to_owned());
    }
    if let Some(items) = v.as_array() {
        let ghost model = serde_model(*v)->Array_0;
        let mut out: Vec<JsonValue> = Vec::new();
        let mut i: usize = 0;
        while i < items.len()
            invariant
                serde_model(*v) == Json::Array(model),
                items.len() == model.len(),
                forall|j: int| 0 <= j < items.len() ==> serde_model(#[trigger] items[j]) == model[j],
                i <= items.len(),
                out.len() == i,
                forall|j: int| 0 <= j < i ==> (#[trigger] out[j])@ == model[j],
            decreases items.len() - i,
        {
            proof {
                assert(decreases_to!(serde_model(*v) => serde_model(*v)->Array_0));
                assert(decreases_to!(model => model[i as int]));
            }
            out.push(from_serde(&items[i]));
            i = i + 1;
        }
        proof {
            lemma_array_view(out);
            assert(views_of(out@) =~= model);
        }
        return JsonValue::Array(out);
    }
    match object_fields(v) {
        Some(fields) => {
            let ghost model = serde_model(*v)->Object_0;
            let mut out: Vec<(String, JsonValue)> = Vec::new();
            let mut i: usize = 0;
            while i < fields.len()
                invariant
                    serde_model(*v) == Json::Object(model),
                    fields.len() == model.len(),
                    forall|j: int|
                        0 <= j < fields.len() ==> (#[trigger] fields[j]).0@ == model[j].0
                            && serde_model(fields[j].1) == model[j].1,
                    i <= fields.len(),
                    out.len() == i,
                    forall|j: int|
                        0 <= j < i ==> (#[trigger] out[j]).0@ == model[j].0 && out[j].1@
                            == model[j].1,
                decreases fields.len() - i,
            {
                proof {
                    assert(decreases_to!(serde_model(*v) => serde_model(*v)->Object_0));
                    assert(decreases_to!(model => model[i as int]));
                    assert(decreases_to!(model[i as int] => model[i as int].1));
                }
                let key = fields[i].0.clone();
                out.push((key, from_serde(&fields[i].1)));
                i = i + 1;
            }
            proof {
                lemma_object_view(out);
                assert(field_views_of(out@) =~= model);
            }
            JsonValue::Object(out)
        },
        None => {
            assert(false);
            JsonValue::Null
        },
    }
}

/// The document that the JSON text `s` spells; an error when serde_json does
/// not accept `s`.
pub fn parse_json(s: &str) -> (r: Result<JsonValue, serde_json::Error>)
    ensures
        r is Ok <==> json_of_text(s@) is Some,
        r is Ok ==> json_of_text(s@) == Some(r->Ok_0@),
{
    match serde_from_str(s) {
        Ok(v) => Ok(from_serde(&v)),
        Err(e) => Err(e),
    }
}

} // verus!
