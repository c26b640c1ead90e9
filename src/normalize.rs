//! Normalisation of the NBT-tagged JSON dialect into ordinary JSON.
//!
//! Object keys lose their `:<tag>` suffix, fields whose keys collide after
//! that are merged into one array, and objects keyed by decimal indices become
//! arrays ordered by index.
use vstd::prelude::*;
use crate::json::{field_views_of, lemma_array_view, lemma_object_view, views_of, Json, JsonValue};
use crate::text::{index_value, index_of_key, is_index_key, lemma_strip_plain, strip_key, strip_tag};

verus! {

/// A field list as the model holds it.
pub type Fields = Seq<(Seq<char>, Json)>;

/// Position of the first field keyed `k`, or `-1` when there is none.
pub open spec fn key_pos(es: Fields, k: Seq<char>) -> int
    decreases es.len(),
{
    if es.len() == 0 {
        -1
    } else {
        let p = key_pos(es.drop_last(), k);
        if p >= 0 {
            p
        } else if es.last().0 == k {
            es.len() - 1
        } else {
            -1
        }
    }
}

/// The value that a second field with the key of `prev` turns it into.
pub open spec fn combine(prev: Json, next: Json) -> Json {
    match prev {
        Json::Array(items) => Json::Array(items.push(next)),
        _ => Json::Array(seq![prev, next]),
    }
}

/// `acc` after one more field `(k, v)`: a new key is appended, a known key
/// has its value combined with `v`.
pub open spec fn merge_entry(acc: Fields, k: Seq<char>, v: Json) -> Fields {
    let p = key_pos(acc, k);
    if p < 0 {
        acc.push((k, v))
    } else {
        acc.update(p, (k, combine(acc[p].1, v)))
    }
}

/// The fields of `es` with colliding keys merged, keys in first-seen order.
pub open spec fn merge_all(es: Fields) -> Fields
    decreases es.len(),
{
    if es.len() == 0 {
        Seq::empty()
    } else {
        merge_entry(merge_all(es.drop_last()), es.last().0, es.last().1)
    }
}

pub open spec fn all_index_keys(es: Fields) -> bool {
    forall|i: int| 0 <= i < es.len() ==> is_index_key(#[trigger] es[i].0)
}

/// Where a field with index `k` goes in `sorted`: after every field whose
/// index is at most `k`.
pub open spec fn insert_pos(sorted: Fields, k: int) -> int
    decreases sorted.len(),
{
    if sorted.len() == 0 {
        0
    } else if index_value(sorted.last().0) > k {
        insert_pos(sorted.drop_last(), k)
    } else {
        sorted.len() as int
    }
}

/// The fields of `es` stably sorted by the index that their keys spell.
pub open spec fn sort_by_index(es: Fields) -> Fields
    decreases es.len(),
{
    if es.len() == 0 {
        es
    } else {
        let s = sort_by_index(es.drop_last());
        s.insert(insert_pos(s, index_value(es.last().0)), es.last())
    }
}

/// A merged field list as a value: an array ordered by index when every key
/// is an index, an object otherwise.
pub open spec fn promote(es: Fields) -> Json {
    if es.len() > 0 && all_index_keys(es) {
        Json::Array(sort_by_index(es).map_values(|e: (Seq<char>, Json)| e.1))
    } else {
        Json::Object(es)
    }
}

/// The fields of an object with tags stripped and values normalised, before
/// merging.
pub open spec fn stripped_fields(fields: Fields) -> Fields
    decreases fields,
{
    Seq::new(
        fields.len(),
        |i: int|
            if 0 <= i < fields.len() {
                (strip_key(fields[i].0), normalize(fields[i].1))
            } else {
                (Seq::<char>::empty(), Json::Null)
            },
    )
}

/// The normal form of a document, computed bottom-up.
pub open spec fn normalize(j: Json) -> Json
    decreases j,
{
    match j {
        Json::Array(items) => Json::Array(
            Seq::new(
                items.len(),
                |i: int|
                    if 0 <= i < items.len() {
                        normalize(items[i])
                    } else {
                        Json::Null
                    },
            ),
        ),
        Json::Object(fields) => promote(merge_all(stripped_fields(fields))),
        _ => j,
    }
}

pub(crate) proof fn lemma_key_pos(es: Fields, k: Seq<char>)
    ensures
        -1 <= key_pos(es, k) < es.len(),
        key_pos(es, k) >= 0 ==> es[key_pos(es, k)].0 == k,
        forall|j: int|
            0 <= j < es.len() && (key_pos(es, k) < 0 || j < key_pos(es, k)) ==> (#[trigger] es[j]).0
                != k,
    decreases es.len(),
{
    if es.len() > 0 {
        lemma_key_pos(es.drop_last(), k);
        assert forall|j: int|
            0 <= j < es.len() - 1 implies #[trigger] es[j] == es.drop_last()[j] by {}
    }
}

proof fn lemma_insert_pos_tail(s: Fields, k: int, j: int)
    requires
        0 <= j <= s.len(),
        forall|t: int| j <= t < s.len() ==> index_value((#[trigger] s[t]).0) > k,
    ensures
        insert_pos(s, k) == insert_pos(s.take(j), k),
    decreases s.len() - j,
{
    if j < s.len() {
        assert(s.take(j + 1).drop_last() =~= s.take(j));
        assert(s.take(j + 1).last() == s[j]);
        lemma_insert_pos_tail(s, k, j + 1);
    } else {
        assert(s.take(j) =~= s);
    }
}

/// Position of the first field of `acc` keyed `k`.
fn find_key(acc: &Vec<(String, JsonValue)>, k: &String) -> (r: Option<usize>)
    ensures
        r is None ==> key_pos(field_views_of(acc@), k@) == -1,
        r is Some ==> r->0 as int == key_pos(field_views_of(acc@), k@),
        r is Some ==> r->0 < acc.len(),
{
    let ghost fv = field_views_of(acc@);
    let mut j: usize = 0;
    while j < acc.len()
        invariant
            j <= acc.len(),
            fv == field_views_of(acc@),
            forall|t: int| 0 <= t < j ==> (#[trigger] acc[t]).0@ != k@,
        decreases acc.len() - j,
    {
        if acc[j].0 == *k {
            proof {
                lemma_key_pos(fv, k@);
                assert(fv[j as int].0 == k@);
                let p = key_pos(fv, k@);
                if p >= 0 && p < j {
                    assert(acc[p].0@ != k@);
                }
            }
            return Some(j);
        }
        j = j + 1;
    }
    proof {
        lemma_key_pos(fv, k@);
        let p = key_pos(fv, k@);
        if p >= 0 {
            assert(acc[p].0@ != k@);
        }
    }
    None
}

/// `prev` with `next` merged in, as for a second field with the same key.
fn combine_values(prev: JsonValue, next: JsonValue) -> (r: JsonValue)
    ensures
        r@ == combine(prev@, next@),
{
    match prev {
        JsonValue::Array(items) => {
            let ghost before = items@;
            proof {
                lemma_array_view(items);
            }
            let mut items = items;
            items.push(next);
            proof {
                lemma_array_view(items);
                assert(views_of(items@) =~= views_of(before).push(next@));
            }
            JsonValue::Array(items)
        },
        other => {
            let ghost o = other@;
            let ghost n = next@;
            let pair = vec![other, next];
            proof {
                lemma_array_view(pair);
                assert(views_of(pair@) =~= seq![o, n]);
            }
            JsonValue::Array(pair)
        },
    }
}

/// The fields of `es` with colliding keys merged.
fn merge_fields(es: Vec<(String, JsonValue)>) -> (r: Vec<(String, JsonValue)>)
    ensures
        field_views_of(r@) == merge_all(field_views_of(es@)),
{
    let ghost orig = field_views_of(es@);
    let n = es.len();
    let mut rest = es;
    let mut acc: Vec<(String, JsonValue)> = Vec::new();
    let mut i: usize = 0;
    assert(orig.take(0) =~= Seq::<(Seq<char>, Json)>::empty());
    assert(field_views_of(acc@) =~= Seq::<(Seq<char>, Json)>::empty());
    while rest.len() > 0
        invariant
            orig.len() == n,
            i + rest.len() == n,
            forall|t: int|
                0 <= t < rest.len() ==> ((#[trigger] rest[t]).0@, rest[t].1@) == orig[i + t],
            field_views_of(acc@) == merge_all(orig.take(i as int)),
        decreases rest.len(),
    {
        let ghost before = field_views_of(acc@);
        let ghost rest_before = rest@;
        let (k, v) = rest.remove(0);
        assert(rest_before[0] == (k, v));
        assert((k@, v@) == orig[i as int]);
        assert forall|t: int| 0 <= t < rest.len() implies ((#[trigger] rest[t]).0@, rest[t].1@)
            == orig[i + 1 + t] by {
            assert(rest[t] == rest_before[t + 1]);
        }
        assert(orig.take(i + 1).drop_last() =~= orig.take(i as int));
        assert(orig.take(i + 1).last() == orig[i as int]);
        match find_key(&acc, &k) {
            None => {
                let ghost kv = k@;
                let ghost vv = v@;
                acc.push((k, v));
                assert(field_views_of(acc@) =~= before.push((kv, vv)));
            },
            Some(p) => {
                let ghost kv = k@;
                let ghost vv = v@;
                let ghost acc_before = acc@;
                let (pk, pv) = acc.remove(p);
                assert(acc_before[p as int] == (pk, pv));
                let c = combine_values(pv, v);
                let ghost cv = c@;
                acc.insert(p, (k, c));
                assert(field_views_of(acc@) =~= before.update(p as int, (kv, cv)));
            },
        }
        i = i + 1;
    }
    assert(orig.take(n as int) =~= orig);
    acc
}

/// The fields of `es`, whose keys are all indices, stably sorted by index.
/// Also gives the index of each sorted field.
fn sort_fields(es: Vec<(String, JsonValue)>) -> (r: (Vec<(String, JsonValue)>, Vec<u64>))
    requires
        all_index_keys(field_views_of(es@)),
    ensures
        field_views_of(r.0@) == sort_by_index(field_views_of(es@)),
        r.1.len() == r.0.len(),
        forall|t: int| 0 <= t < r.1.len() ==> (#[trigger] r.1[t]) as int == index_value(r.0[t].0@),
{
    let ghost orig = field_views_of(es@);
    let n = es.len();
    let mut rest = es;
    let mut sorted: Vec<(String, JsonValue)> = Vec::new();
    let mut keys: Vec<u64> = Vec::new();
    let mut i: usize = 0;
    assert(orig.take(0) =~= Seq::<(Seq<char>, Json)>::empty());
    assert(field_views_of(sorted@) =~= Seq::<(Seq<char>, Json)>::empty());
    while rest.len() > 0
        invariant
            orig.len() == n,
            i + rest.len() == n,
            all_index_keys(orig),
            forall|t: int|
                0 <= t < rest.len() ==> ((#[trigger] rest[t]).0@, rest[t].1@) == orig[i + t],
            field_views_of(sorted@) == sort_by_index(orig.take(i as int)),
            keys.len() == sorted.len(),
            forall|t: int|
                0 <= t < keys.len() ==> (#[trigger] keys[t]) as int == index_value(
                    sorted[t].0@,
                ),
        decreases rest.len(),
    {
        let ghost before = field_views_of(sorted@);
        let ghost rest_before = rest@;
        let (k, v) = rest.remove(0);
        assert(rest_before[0] == (k, v));
        assert((k@, v@) == orig[i as int]);
        assert forall|t: int| 0 <= t < rest.len() implies ((#[trigger] rest[t]).0@, rest[t].1@)
            == orig[i + 1 + t] by {
            assert(rest[t] == rest_before[t + 1]);
        }
        assert(orig.take(i + 1).drop_last() =~= orig.take(i as int));
        assert(orig.take(i + 1).last() == orig[i as int]);
        assert(is_index_key(orig[i as int].0));
        let kv = match index_of_key(k.as_str()) {
            Some(x) => x,
            None => {
                assert(false);
                0
            },
        };
        let mut j: usize = sorted.len();
        while j > 0 && keys[j - 1] > kv
            invariant
                j <= sorted.len(),
                keys.len() == sorted.len(),
                before == field_views_of(sorted@),
                forall|t: int|
                    0 <= t < keys.len() ==> (#[trigger] keys[t]) as int == index_value(
                        sorted[t].0@,
                    ),
                forall|t: int| j <= t < sorted.len() ==> (#[trigger] keys[t]) > kv,
            decreases j,
        {
            j = j - 1;
        }
        proof {
            assert forall|t: int| j <= t < before.len() implies index_value(
                (#[trigger] before[t]).0,
            ) > kv as int by {
                assert(keys[t] > kv);
            }
            lemma_insert_pos_tail(before, kv as int, j as int);
            if j > 0 {
                assert(before.take(j as int).last() == before[j - 1]);
            } else {
                assert(before.take(0).len() == 0);
            }
        }
        let ghost kview = k@;
        let ghost vview = v@;
        sorted.insert(j, (k, v));
        keys.insert(j, kv);
        assert(field_views_of(sorted@) =~= before.insert(j as int, (kview, vview)));
        assert forall|t: int| 0 <= t < keys.len() implies (#[trigger] keys[t]) as int
            == index_value(sorted[t].0@) by {
            if t < j {
            } else if t == j {
            } else {
            }
        }
        i = i + 1;
    }
    assert(orig.take(n as int) =~= orig);
    (sorted, keys)
}

/// A merged field list as a value: an array ordered by index when every key
/// is an index, an object otherwise.
pub(crate) fn promote_fields(es: Vec<(String, JsonValue)>) -> (r: JsonValue)
    ensures
        r@ == promote(field_views_of(es@)),
{
    let ghost fv = field_views_of(es@);
    let mut all_index = es.len() > 0;
    let mut i: usize = 0;
    while i < es.len()
        invariant
            i <= es.len(),
            fv == field_views_of(es@),
            all_index <==> (es.len() > 0 && forall|t: int|
                0 <= t < i ==> is_index_key(#[trigger] fv[t].0)),
        decreases es.len() - i,
    {
        assert(fv[i as int].0 == es[i as int].0@);
        if index_of_key(es[i].0.as_str()).is_none() {
            all_index = false;
        }
        i = i + 1;
    }
    if !all_index {
        proof {
            lemma_object_view(es);
        }
        return JsonValue::Object(es);
    }
    let (sorted, _indices) = sort_fields(es);
    let ghost sv = field_views_of(sorted@);
    let n = sorted.len();
    let mut rest = sorted;
    let mut values: Vec<JsonValue> = Vec::new();
    let mut k: usize = 0;
    while rest.len() > 0
        invariant
            sv.len() == n,
            k + rest.len() == n,
            forall|t: int| 0 <= t < rest.len() ==> (#[trigger] rest[t]).1@ == sv[k + t].1,
            values.len() == k,
            forall|t: int| 0 <= t < k ==> (#[trigger] values[t])@ == sv[t].1,
        decreases rest.len(),
    {
        let ghost rest_before = rest@;
        let (_key, v) = rest.remove(0);
        assert(rest_before[0].1 == v);
        assert forall|t: int| 0 <= t < rest.len() implies (#[trigger] rest[t]).1@ == sv[k + 1
            + t].1 by {
            assert(rest[t] == rest_before[t + 1]);
        }
        values.push(v);
        k = k + 1;
    }
    proof {
        lemma_array_view(values);
        assert(views_of(values@) =~= sv.map_values(|e: (Seq<char>, Json)| e.1));
    }
    JsonValue::Array(values)
}

/// `s` with each run of fields of equal index cut down to its last field.
pub open spec fn last_per_index(s: Fields) -> Fields
    decreases s.len(),
{
    if s.len() == 0 {
        s
    } else {
        let r = last_per_index(s.drop_last());
        if r.len() > 0 && index_value(r.last().0) == index_value(s.last().0) {
            r.drop_last().push(s.last())
        } else {
            r.push(s.last())
        }
    }
}

/// One value per index of `m`, ordered by index, when `m` is non-empty and
/// every key of it is an index; of fields with the same index, the last one
/// gives the value.
pub fn map_to_array_if_numeric(m: &Vec<(String, JsonValue)>) -> (r: Option<Vec<JsonValue>>)
    ensures
        r is Some <==> (m.len() > 0 && all_index_keys(field_views_of(m@))),
        r is Some ==> views_of(r->0@) == last_per_index(sort_by_index(field_views_of(m@))).map_values(
            |e: (Seq<char>, Json)| e.1,
        ),
{
    let fields = copy_fields(m);
    assert(field_views_of(fields@).len() == field_views_of(m@).len());
    if !crate::parser::all_keys_are_indices(&fields) {
        return None;
    }
    let (sorted, indices) = sort_fields(fields);
    let ghost sv = field_views_of(sorted@);
    let n = sorted.len();
    let mut rest = sorted;
    let mut out: Vec<JsonValue> = Vec::new();
    let mut last: u64 = 0;
    let mut t: usize = 0;
    let ghost mut acc: Fields = Seq::empty();
    assert(sv.take(0) =~= Seq::<(Seq<char>, Json)>::empty());
    assert(views_of(out@) =~= acc.map_values(|e: (Seq<char>, Json)| e.1));
    while rest.len() > 0
        invariant
            sv.len() == n,
            indices.len() == n,
            forall|k: int| 0 <= k < n ==> (#[trigger] indices[k]) as int == index_value(sv[k].0),
            t + rest.len() == n,
            forall|k: int|
                0 <= k < rest.len() ==> ((#[trigger] rest[k]).0@, rest[k].1@) == sv[t + k],
            acc == last_per_index(sv.take(t as int)),
            views_of(out@) == acc.map_values(|e: (Seq<char>, Json)| e.1),
            out.len() == acc.len(),
            acc.len() > 0 ==> last as int == index_value(acc.last().0),
        decreases rest.len(),
    {
        let ghost rest_before = rest@;
        let (key, v) = rest.remove(0);
        assert(rest_before[0] == (key, v));
        assert((key@, v@) == sv[t as int]);
        assert forall|k: int| 0 <= k < rest.len() implies ((#[trigger] rest[k]).0@, rest[k].1@)
            == sv[t + 1 + k] by {
            assert(rest[k] == rest_before[k + 1]);
        }
        assert(sv.take(t + 1).drop_last() =~= sv.take(t as int));
        assert(sv.take(t + 1).last() == sv[t as int]);
        let kv = indices[t];
        let ghost vv = v@;
        let ghost before = views_of(out@);
        let ghost acc0 = acc;
        if out.len() > 0 && last == kv {
            out.pop();
            out.push(v);
            proof {
                acc = acc0.drop_last().push(sv[t as int]);
                assert(views_of(out@) =~= before.drop_last().push(vv));
                assert(acc.map_values(|e: (Seq<char>, Json)| e.1) =~= acc0.map_values(
                    |e: (Seq<char>, Json)| e.1,
                ).drop_last().push(vv));
            }
        } else {
            out.push(v);
            proof {
                acc = acc0.push(sv[t as int]);
                assert(views_of(out@) =~= before.push(vv));
                assert(acc.map_values(|e: (Seq<char>, Json)| e.1) =~= acc0.map_values(
                    |e: (Seq<char>, Json)| e.1,
                ).push(vv));
            }
        }
        last = kv;
        t = t + 1;
    }
    assert(sv.take(n as int) =~= sv);
    Some(out)
}

fn copy_fields(m: &Vec<(String, JsonValue)>) -> (r: Vec<(String, JsonValue)>)
    ensures
        field_views_of(r@) == field_views_of(m@),
{
    let mut out: Vec<(String, JsonValue)> = Vec::new();
    let mut i: usize = 0;
    while i < m.len()
        invariant
            i <= m.len(),
            out.len() == i,
            forall|j: int| 0 <= j < i ==> (#[trigger] out[j]).0@ == m[j].0@ && out[j].1@ == m[j].1@,
        decreases m.len() - i,
    {
        out.push((m[i].0.clone(), m[i].1.copy()));
        i = i + 1;
    }
    assert(field_views_of(out@) =~= field_views_of(m@));
    out
}

/// The normal form of `v`.
pub fn normalize_value(v: JsonValue) -> (r: JsonValue)
    ensures
        r@ == normalize(v@),
{
    normalize_ref(&v)
}

fn normalize_ref(v: &JsonValue) -> (r: JsonValue)
    ensures
        r@ == normalize(v@),
    decreases v,
{
    match v {
        JsonValue::Array(items) => {
            let mut out: Vec<JsonValue> = Vec::new();
            let mut i: usize = 0;
            proof {
                assert forall|j: int| 0 <= j < items.len() implies decreases_to!(*v => items[j]) by {
                    assert(decreases_to!(*v => *items));
                    vstd::std_specs::vec::axiom_vec_index_decreases(*items, j);
                }
            }
            while i < items.len()
                invariant
                    forall|j: int| 0 <= j < items.len() ==> decreases_to!(*v => items[j]),
                    i <= items.len(),
                    out.len() == i,
                    forall|j: int| 0 <= j < i ==> (#[trigger] out[j])@ == normalize(items[j]@),
                decreases items.len() - i,
            {
                out.push(normalize_ref(&items[i]));
                i = i + 1;
            }
            proof {
                lemma_array_view(out);
                lemma_array_view(*items);
                reveal_with_fuel(normalize, 2);
                assert(views_of(out@) =~= match normalize(v@) {
                    Json::Array(s) => s,
                    _ => Seq::empty(),
                });
            }
            JsonValue::Array(out)
        },
        JsonValue::Object(fields) => {
            let mut stripped: Vec<(String, JsonValue)> = Vec::new();
            let mut i: usize = 0;
            proof {
                assert forall|j: int| 0 <= j < fields.len() implies decreases_to!(*v => fields[j].1) by {
                    assert(decreases_to!(*v => *fields));
                    vstd::std_specs::vec::axiom_vec_index_decreases(*fields, j);
                    assert(decreases_to!(fields[j] => fields[j].1));
                }
            }
            while i < fields.len()
                invariant
                    forall|j: int| 0 <= j < fields.len() ==> decreases_to!(*v => fields[j].1),
                    i <= fields.len(),
                    stripped.len() == i,
                    forall|j: int|
                        0 <= j < i ==> (#[trigger] stripped[j]).0@ == strip_key(fields[j].0@)
                            && stripped[j].1@ == normalize(fields[j].1@),
                decreases fields.len() - i,
            {
                let key = strip_tag(fields[i].0.as_str());
                let value = normalize_ref(&fields[i].1);
                stripped.push((key, value));
                i = i + 1;
            }
            proof {
                lemma_object_view(*fields);
                reveal_with_fuel(stripped_fields, 2);
                assert(field_views_of(stripped@) =~= stripped_fields(field_views_of(fields@)));
            }
            let merged = merge_fields(stripped);
            promote_fields(merged)
        },
        JsonValue::Null => JsonValue::Null,
        JsonValue::Bool(b) => JsonValue::Bool(*b),
        JsonValue::Int(n) => JsonValue::Int(*n),
        JsonValue::UInt(n) => JsonValue::UInt(*n),
        JsonValue::Float(t) => JsonValue::Float(t.clone()),
        JsonValue::Str(t) => JsonValue::Str(t.clone()),
    }
}

/// Every key of `j`, at any depth, holds at most one `:` — so that the part
/// before its tag holds none.
pub open spec fn tags_well_formed(j: Json) -> bool
    decreases j,
{
    match j {
        Json::Array(items) => forall|i: int|
            0 <= i < items.len() ==> tags_well_formed(#[trigger] items[i]),
        Json::Object(fields) => forall|i: int|
            0 <= i < fields.len() ==> !strip_key(#[trigger] fields[i].0).contains(':')
                && tags_well_formed(fields[i].1),
        _ => true,
    }
}

pub open spec fn unique_keys(es: Fields) -> bool {
    forall|i: int, j: int| 0 <= i < j < es.len() ==> #[trigger] es[i].0 != #[trigger] es[j].0
}

/// `j` is already in normal form: no key holds a `:`, keys do not repeat,
/// and no non-empty object is keyed by indices alone.
pub open spec fn is_normal(j: Json) -> bool
    decreases j,
{
    match j {
        Json::Array(items) => forall|i: int| 0 <= i < items.len() ==> is_normal(#[trigger] items[i]),
        Json::Object(fields) => {
            &&& forall|i: int|
                0 <= i < fields.len() ==> !(#[trigger] fields[i]).0.contains(':') && is_normal(
                    fields[i].1,
                )
            &&& unique_keys(fields)
            &&& !(fields.len() > 0 && all_index_keys(fields))
        },
        _ => true,
    }
}

/// The fields of `es` have keys without `:` and values in normal form.
pub open spec fn fields_normal(es: Fields) -> bool {
    forall|i: int| 0 <= i < es.len() ==> !(#[trigger] es[i]).0.contains(':') && is_normal(es[i].1)
}

proof fn lemma_merge_normal(es: Fields)
    requires
        fields_normal(es),
    ensures
        fields_normal(merge_all(es)),
        unique_keys(merge_all(es)),
    decreases es.len(),
{
    if es.len() > 0 {
        let d = es.drop_last();
        assert forall|i: int| 0 <= i < d.len() implies !(#[trigger] d[i]).0.contains(':') && is_normal(d[i].1) by {
            assert(d[i] == es[i]);
        }
        lemma_merge_normal(d);
        let acc = merge_all(d);
        let (k, v) = es.last();
        assert(es[es.len() - 1] == es.last());
        lemma_key_pos(acc, k);
        let p = key_pos(acc, k);
        if p >= 0 {
            let c = combine(acc[p].1, v);
            assert(is_normal(acc[p].1));
            reveal_with_fuel(is_normal, 2);
            match acc[p].1 {
                Json::Array(items) => {
                    assert forall|i: int| 0 <= i < items.push(v).len() implies is_normal(#[trigger] items.push(v)[i]) by {
                        if i < items.len() {
                            assert(items.push(v)[i] == items[i]);
                        }
                    }
                },
                _ => {
                    let pair = seq![acc[p].1, v];
                    assert forall|i: int| 0 <= i < pair.len() implies is_normal(#[trigger] pair[i]) by {}
                },
            }
            assert(is_normal(c));
            let r = acc.update(p, (k, c));
            assert forall|i: int, j: int| 0 <= i < j < r.len() implies #[trigger] r[i].0 != #[trigger] r[j].0 by {
                assert(acc[i].0 != acc[j].0);
            }
        } else {
            let r = acc.push((k, v));
            assert forall|i: int, j: int| 0 <= i < j < r.len() implies #[trigger] r[i].0 != #[trigger] r[j].0 by {
                if j < acc.len() {
                    assert(acc[i].0 != acc[j].0);
                } else {
                    assert(acc[i].0 != k);
                }
            }
        }
    }
}

proof fn lemma_merge_identity(es: Fields)
    requires
        unique_keys(es),
    ensures
        merge_all(es) == es,
    decreases es.len(),
{
    if es.len() > 0 {
        let d = es.drop_last();
        assert forall|i: int, j: int| 0 <= i < j < d.len() implies #[trigger] d[i].0 != #[trigger] d[j].0 by {
            assert(d[i] == es[i] && d[j] == es[j]);
        }
        lemma_merge_identity(d);
        lemma_key_pos(d, es.last().0);
        if key_pos(d, es.last().0) >= 0 {
            let p = key_pos(d, es.last().0);
            assert(es[p].0 != es[es.len() - 1].0);
        }
        assert(d.push(es.last()) =~= es);
    }
}

proof fn lemma_insert_pos_range(s: Fields, k: int)
    ensures
        0 <= insert_pos(s, k) <= s.len(),
    decreases s.len(),
{
    if s.len() > 0 {
        lemma_insert_pos_range(s.drop_last(), k);
    }
}

proof fn lemma_sort_values_normal(es: Fields)
    requires
        forall|i: int| 0 <= i < es.len() ==> is_normal(#[trigger] es[i].1),
    ensures
        sort_by_index(es).len() == es.len(),
        forall|i: int| 0 <= i < sort_by_index(es).len() ==> is_normal(#[trigger] sort_by_index(es)[i].1),
    decreases es.len(),
{
    if es.len() > 0 {
        let d = es.drop_last();
        assert forall|i: int| 0 <= i < d.len() implies is_normal(#[trigger] d[i].1) by {
            assert(d[i] == es[i]);
        }
        lemma_sort_values_normal(d);
        let s = sort_by_index(d);
        let p = insert_pos(s, index_value(es.last().0));
        lemma_insert_pos_range(s, index_value(es.last().0));
        let r = s.insert(p, es.last());
        assert(is_normal(es[es.len() - 1].1));
        assert forall|i: int| 0 <= i < r.len() implies is_normal(#[trigger] r[i].1) by {
            if i < p {
                assert(r[i] == s[i]);
            } else if i > p {
                assert(r[i] == s[i - 1]);
            }
        }
    }
}

/// Normalisation yields a value in normal form, provided no key holds more
/// than one `:`.
pub proof fn lemma_normalize_is_normal(j: Json)
    requires
        tags_well_formed(j),
    ensures
        is_normal(normalize(j)),
    decreases j,
{
    reveal_with_fuel(normalize, 2);
    match j {
        Json::Array(items) => {
            let n = normalize(j);
            assert forall|i: int| 0 <= i < items.len() implies is_normal(#[trigger] n->Array_0[i]) by {
                lemma_normalize_is_normal(items[i]);
            }
        },
        Json::Object(fields) => {
            reveal_with_fuel(stripped_fields, 2);
            let sf = stripped_fields(fields);
            assert forall|i: int| 0 <= i < sf.len() implies !(#[trigger] sf[i]).0.contains(':') && is_normal(sf[i].1) by {
                assert(!strip_key(fields[i].0).contains(':'));
                lemma_normalize_is_normal(fields[i].1);
            }
            lemma_merge_normal(sf);
            let m = merge_all(sf);
            if m.len() > 0 && all_index_keys(m) {
                lemma_sort_values_normal(m);
                let vals = sort_by_index(m).map_values(|e: (Seq<char>, Json)| e.1);
                assert forall|i: int| 0 <= i < vals.len() implies is_normal(#[trigger] vals[i]) by {
                    assert(vals[i] == sort_by_index(m)[i].1);
                }
            }
        },
        _ => {},
    }
}

/// A value in normal form is left as it is.
pub proof fn lemma_normal_fixed(j: Json)
    requires
        is_normal(j),
    ensures
        normalize(j) == j,
    decreases j,
{
    reveal_with_fuel(normalize, 2);
    match j {
        Json::Array(items) => {
            let n = normalize(j)->Array_0;
            assert forall|i: int| 0 <= i < items.len() implies #[trigger] n[i] == items[i] by {
                lemma_normal_fixed(items[i]);
            }
            assert(n =~= items);
        },
        Json::Object(fields) => {
            reveal_with_fuel(stripped_fields, 2);
            let sf = stripped_fields(fields);
            assert forall|i: int| 0 <= i < fields.len() implies #[trigger] sf[i] == fields[i] by {
                lemma_strip_plain(fields[i].0);
                lemma_normal_fixed(fields[i].1);
            }
            assert(sf =~= fields);
            lemma_merge_identity(fields);
        },
        _ => {},
    }
}

/// Normalising twice gives what normalising once gives, for every document
/// whose keys hold at most one `:` each.
pub proof fn lemma_normalize_idempotent(j: Json)
    requires
        tags_well_formed(j),
    ensures
        normalize(normalize(j)) == normalize(j),
{
    lemma_normalize_is_normal(j);
    lemma_normal_fixed(normalize(j));
}

} // verus!
