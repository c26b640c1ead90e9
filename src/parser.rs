//! Loading one quest document into the typed model.
use vstd::prelude::*;
use crate::coerce::{
    bool_like, fields_of, get, get_loose_i32, lookup, lookup_either, loose_i32, parse_bool_like,
    str_of,
};
use crate::error::ParseError;
use crate::json::{field_views_of, views_of, Json, JsonValue};
use crate::model::{ids_of, ItemStack, Quest, QuestProperties, Reward, Task};
use crate::normalize::{promote, promote_fields, Fields};
use crate::quest_id::{id_of_parts, QuestId};
use crate::text::same_text;

verus! {

/// The field sets that each record models; other fields are kept as extras.
pub enum KnownKeys {
    Item,
    Task,
    Reward,
    Properties,
    Settings,
}

pub open spec fn is_known(set: KnownKeys, k: Seq<char>) -> bool {
    match set {
        KnownKeys::Item => k == "id"@ || k == "Damage"@ || k == "damage"@ || k == "Count"@ || k
            == "count"@ || k == "OreDict"@ || k == "oreDict"@,
        KnownKeys::Task => k == "taskID"@ || k == "taskId"@ || k == "task_id"@ || k == "task"@
            || k == "requiredItems"@ || k == "ignoreNBT"@ || k == "ignore_nbt"@ || k
            == "partialMatch"@ || k == "partial_match"@ || k == "autoConsume"@ || k
            == "auto_consume"@ || k == "consume"@ || k == "groupDetect"@ || k == "group_detect"@,
        KnownKeys::Reward => k == "rewardID"@ || k == "rewardId"@ || k == "reward_id"@ || k
            == "reward"@ || k == "items"@ || k == "rewards"@ || k == "choices"@ || k
            == "ignoreDisabled"@ || k == "ignore_disabled"@,
        KnownKeys::Properties => k == "name"@ || k == "desc"@ || k == "icon"@ || k == "isMain"@
            || k == "isSilent"@ || k == "autoClaim"@ || k == "globalShare"@ || k == "isGlobal"@
            || k == "lockedProgress"@ || k == "repeatTime"@ || k == "repeat_relative"@ || k
            == "simultaneous"@ || k == "partySingleReward"@ || k == "questLogic"@ || k
            == "taskLogic"@ || k == "visibility"@ || k == "snd_complete"@ || k == "snd_update"@,
        KnownKeys::Settings => k == "version"@,
    }
}

/// The fields of `m` that `set` does not model, in order.
pub open spec fn extra_fields(m: Fields, set: KnownKeys) -> Fields
    decreases m.len(),
{
    if m.len() == 0 {
        m
    } else {
        let r = extra_fields(m.drop_last(), set);
        if is_known(set, m.last().0) {
            r
        } else {
            r.push(m.last())
        }
    }
}

pub open spec fn opt_view(o: Option<String>) -> Option<Seq<char>> {
    match o {
        Some(s) => Some(s@),
        None => None,
    }
}

pub open spec fn opt_index(o: Option<usize>) -> Option<int> {
    match o {
        Some(i) => Some(i as int),
        None => None,
    }
}

/// The text under `k`, if it is a string.
pub open spec fn str_at(m: Fields, k: Seq<char>) -> Option<Seq<char>> {
    match lookup(m, k) {
        Some(j) => str_of(j),
        None => None,
    }
}

/// The integer under `k`, written as a number (cut to 32 bits) or as
/// decimal text.
pub open spec fn i32_at(m: Fields, k: Seq<char>) -> Option<i32> {
    match lookup(m, k) {
        Some(j) => loose_i32(j),
        None => None,
    }
}

/// The boolean-like value under `k`.
pub open spec fn bool_at(m: Fields, k: Seq<char>) -> Option<bool> {
    match lookup(m, k) {
        Some(j) => bool_like(j),
        None => None,
    }
}

/// The boolean-like value under the first present of `a` and `b`.
pub open spec fn flag_at(m: Fields, a: Seq<char>, b: Seq<char>) -> Option<bool> {
    match lookup_either(m, a, b) {
        Some(j) => bool_like(j),
        None => None,
    }
}

/// The first of two optional values that is present.
pub open spec fn first_some<T>(a: Option<T>, b: Option<T>) -> Option<T> {
    if a is Some {
        a
    } else {
        b
    }
}

/// The elements of a list written as an array or as an index-keyed object.
pub open spec fn list_elements(j: Option<Json>) -> Seq<Json> {
    match j {
        Some(Json::Array(items)) => items,
        Some(Json::Object(f)) => match promote(f) {
            Json::Array(items) => items,
            _ => Seq::empty(),
        },
        _ => Seq::empty(),
    }
}

/// `j` is an object with a string `id`: an item.
pub open spec fn is_item(j: Json) -> bool {
    fields_of(j) is Some && str_at(fields_of(j)->0, "id"@) is Some
}

pub open spec fn item_matches(it: ItemStack, m: Fields) -> bool {
    &&& str_at(m, "id"@) == Some(it.id@)
    &&& it.damage == first_some(i32_at(m, "Damage"@), i32_at(m, "damage"@))
    &&& it.count == first_some(i32_at(m, "Count"@), i32_at(m, "count"@))
    &&& opt_view(it.oredict) == first_some(str_at(m, "OreDict"@), str_at(m, "oreDict"@))
    &&& field_views_of(it.extra@) == extra_fields(m, KnownKeys::Item)
}

/// The fields of the elements of `elems` that are items, in order.
pub open spec fn item_sources(elems: Seq<Json>) -> Seq<Fields>
    decreases elems.len(),
{
    if elems.len() == 0 {
        Seq::empty()
    } else {
        let r = item_sources(elems.drop_last());
        if is_item(elems.last()) {
            r.push(fields_of(elems.last())->0)
        } else {
            r
        }
    }
}

pub open spec fn items_match(r: Seq<ItemStack>, srcs: Seq<Fields>) -> bool {
    r.len() == srcs.len() && forall|i: int| 0 <= i < r.len() ==> item_matches(#[trigger] r[i], srcs[i])
}

/// The id of a task: the first of its id spellings that holds a string.
pub open spec fn task_id_at(m: Fields) -> Option<Seq<char>> {
    first_some(
        str_at(m, "taskID"@),
        first_some(str_at(m, "taskId"@), first_some(str_at(m, "task_id"@), str_at(m, "task"@))),
    )
}

/// The id of a reward: the first of its id spellings that holds a string.
pub open spec fn reward_id_at(m: Fields) -> Option<Seq<char>> {
    first_some(
        str_at(m, "rewardID"@),
        first_some(
            str_at(m, "rewardId"@),
            first_some(str_at(m, "reward_id"@), str_at(m, "reward"@)),
        ),
    )
}

pub open spec fn is_task(j: Json) -> bool {
    fields_of(j) is Some && task_id_at(fields_of(j)->0) is Some && task_id_at(
        fields_of(j)->0,
    )->0.len() > 0
}

pub open spec fn is_reward(j: Json) -> bool {
    fields_of(j) is Some && reward_id_at(fields_of(j)->0) is Some && reward_id_at(
        fields_of(j)->0,
    )->0.len() > 0
}

pub open spec fn task_matches(t: Task, m: Fields, index: Option<int>) -> bool {
    &&& opt_index(t.index) == index
    &&& task_id_at(m) == Some(t.task_id@)
    &&& items_match(t.required_items@, item_sources(list_elements(lookup(m, "requiredItems"@))))
    &&& t.ignore_nbt == flag_at(m, "ignoreNBT"@, "ignore_nbt"@)
    &&& t.partial_match == flag_at(m, "partialMatch"@, "partial_match"@)
    &&& t.auto_consume == flag_at(m, "autoConsume"@, "auto_consume"@)
    &&& t.consume == bool_at(m, "consume"@)
    &&& t.group_detect == flag_at(m, "groupDetect"@, "group_detect"@)
    &&& field_views_of(t.options@) == extra_fields(m, KnownKeys::Task)
}

pub open spec fn reward_matches(r: Reward, m: Fields, index: Option<int>) -> bool {
    &&& opt_index(r.index) == index
    &&& reward_id_at(m) == Some(r.reward_id@)
    &&& items_match(r.items@, item_sources(list_elements(lookup_either(m, "items"@, "rewards"@))))
    &&& items_match(r.choices@, item_sources(list_elements(lookup(m, "choices"@))))
    &&& r.ignore_disabled == flag_at(m, "ignoreDisabled"@, "ignore_disabled"@)
    &&& field_views_of(r.extra@) == extra_fields(m, KnownKeys::Reward)
}

/// The kind of entries a list holds.
pub enum EntryKind {
    Task,
    Reward,
}

pub open spec fn accepts(kind: EntryKind, j: Json) -> bool {
    match kind {
        EntryKind::Task => is_task(j),
        EntryKind::Reward => is_reward(j),
    }
}

/// The elements of `elems` that `kind` accepts, with their positions.
pub open spec fn positioned(elems: Seq<Json>, kind: EntryKind) -> Seq<(Fields, Option<int>)>
    decreases elems.len(),
{
    if elems.len() == 0 {
        Seq::empty()
    } else {
        let r = positioned(elems.drop_last(), kind);
        if accepts(kind, elems.last()) {
            r.push((fields_of(elems.last())->0, Some(elems.len() - 1)))
        } else {
            r
        }
    }
}

/// The sources of the entries of a task or reward list: the accepted
/// elements of an array or index-keyed object with their positions, or a
/// lone object that is itself one entry.
pub open spec fn entry_sources(j: Option<Json>, kind: EntryKind) -> Seq<(Fields, Option<int>)> {
    match j {
        Some(Json::Object(f)) => if f.len() > 0 && crate::normalize::all_index_keys(f) {
            positioned(list_elements(j), kind)
        } else if accepts(kind, Json::Object(f)) {
            seq![(f, None::<int>)]
        } else {
            Seq::empty()
        },
        _ => positioned(list_elements(j), kind),
    }
}

pub open spec fn tasks_match(r: Seq<Task>, srcs: Seq<(Fields, Option<int>)>) -> bool {
    r.len() == srcs.len() && forall|i: int|
        0 <= i < r.len() ==> task_matches(#[trigger] r[i], srcs[i].0, srcs[i].1)
}

pub open spec fn rewards_match(r: Seq<Reward>, srcs: Seq<(Fields, Option<int>)>) -> bool {
    r.len() == srcs.len() && forall|i: int|
        0 <= i < r.len() ==> reward_matches(#[trigger] r[i], srcs[i].0, srcs[i].1)
}

pub open spec fn icon_matches(icon: Option<ItemStack>, j: Option<Json>) -> bool {
    match j {
        Some(v) => if is_item(v) {
            icon is Some && item_matches(icon->0, fields_of(v)->0)
        } else {
            icon is None
        },
        None => icon is None,
    }
}

pub open spec fn properties_match(p: QuestProperties, m: Fields) -> bool {
    &&& str_at(m, "name"@) == Some(p.name@)
    &&& opt_view(p.desc) == str_at(m, "desc"@)
    &&& icon_matches(p.icon, lookup(m, "icon"@))
    &&& p.is_main == bool_at(m, "isMain"@)
    &&& p.is_silent == bool_at(m, "isSilent"@)
    &&& p.auto_claim == bool_at(m, "autoClaim"@)
    &&& p.global_share == bool_at(m, "globalShare"@)
    &&& p.is_global == bool_at(m, "isGlobal"@)
    &&& p.locked_progress == i32_at(m, "lockedProgress"@)
    &&& p.repeat_time == i32_at(m, "repeatTime"@)
    &&& p.repeat_relative == bool_at(m, "repeat_relative"@)
    &&& p.simultaneous == bool_at(m, "simultaneous"@)
    &&& p.party_single_reward == bool_at(m, "partySingleReward"@)
    &&& opt_view(p.quest_logic) == str_at(m, "questLogic"@)
    &&& opt_view(p.task_logic) == str_at(m, "taskLogic"@)
    &&& opt_view(p.visibility) == str_at(m, "visibility"@)
    &&& opt_view(p.snd_complete) == str_at(m, "snd_complete"@)
    &&& opt_view(p.snd_update) == str_at(m, "snd_update"@)
    &&& field_views_of(p.extra@) == extra_fields(m, KnownKeys::Properties)
}

/// Whether `k` is one of the keys that `set` models.
pub fn is_known_key(set: &KnownKeys, k: &str) -> (r: bool)
    ensures
        r == is_known(*set, k@),
{
    match set {
        KnownKeys::Item => same_text(k, "id") || same_text(k, "Damage") || same_text(k, "damage")
            || same_text(k, "Count") || same_text(k, "count") || same_text(k, "OreDict")
            || same_text(k, "oreDict"),
        KnownKeys::Task => same_text(k, "taskID") || same_text(k, "taskId") || same_text(
            k,
            "task_id",
        ) || same_text(k, "task") || same_text(k, "requiredItems") || same_text(k, "ignoreNBT")
            || same_text(k, "ignore_nbt") || same_text(k, "partialMatch") || same_text(
            k,
            "partial_match",
        ) || same_text(k, "autoConsume") || same_text(k, "auto_consume") || same_text(
            k,
            "consume",
        ) || same_text(k, "groupDetect") || same_text(k, "group_detect"),
        KnownKeys::Reward => same_text(k, "rewardID") || same_text(k, "rewardId") || same_text(
            k,
            "reward_id",
        ) || same_text(k, "reward") || same_text(k, "items") || same_text(k, "rewards")
            || same_text(k, "choices") || same_text(k, "ignoreDisabled") || same_text(
            k,
            "ignore_disabled",
        ),
        KnownKeys::Properties => same_text(k, "name") || same_text(k, "desc") || same_text(
            k,
            "icon",
        ) || same_text(k, "isMain") || same_text(k, "isSilent") || same_text(k, "autoClaim")
            || same_text(k, "globalShare") || same_text(k, "isGlobal") || same_text(
            k,
            "lockedProgress",
        ) || same_text(k, "repeatTime") || same_text(k, "repeat_relative") || same_text(
            k,
            "simultaneous",
        ) || same_text(k, "partySingleReward") || same_text(k, "questLogic") || same_text(
            k,
            "taskLogic",
        ) || same_text(k, "visibility") || same_text(k, "snd_complete") || same_text(
            k,
            "snd_update",
        ),
        KnownKeys::Settings => same_text(k, "version"),
    }
}

/// Copies of the fields of `m` that `set` does not model.
pub fn collect_extra(m: &Vec<(String, JsonValue)>, set: KnownKeys) -> (r: Vec<(String, JsonValue)>)
    ensures
        field_views_of(r@) == extra_fields(field_views_of(m@), set),
{
    let ghost fv = field_views_of(m@);
    let mut out: Vec<(String, JsonValue)> = Vec::new();
    let mut i: usize = 0;
    assert(fv.take(0) =~= Seq::<(Seq<char>, Json)>::empty());
    assert(field_views_of(out@) =~= Seq::<(Seq<char>, Json)>::empty());
    while i < m.len()
        invariant
            i <= m.len(),
            fv == field_views_of(m@),
            field_views_of(out@) == extra_fields(fv.take(i as int), set),
        decreases m.len() - i,
    {
        let ghost before = field_views_of(out@);
        assert(fv.take(i + 1).drop_last() =~= fv.take(i as int));
        assert(fv.take(i + 1).last() == fv[i as int]);
        if !is_known_key(&set, m[i].0.as_str()) {
            let key = m[i].0.clone();
            let value = m[i].1.copy();
            out.push((key, value));
            assert(field_views_of(out@) =~= before.push(fv[i as int]));
        }
        i = i + 1;
    }
    assert(fv.take(m.len() as int) =~= fv);
    out
}

/// The text under `k`, copied, if it is a string.
fn get_str(m: &Vec<(String, JsonValue)>, k: &str) -> (r: Option<String>)
    ensures
        opt_view(r) == str_at(field_views_of(m@), k@),
{
    match get(m, k) {
        Some(v) => match v.as_str() {
            Some(s) => Some(s.to_owned()),
            None => None,
        },
        None => None,
    }
}

/// The integer under `k`, written as a number or as decimal text.
pub(crate) fn get_i32(m: &Vec<(String, JsonValue)>, k: &str) -> (r: Option<i32>)
    ensures
        r == i32_at(field_views_of(m@), k@),
{
    match get(m, k) {
        Some(v) => get_loose_i32(v),
        None => None,
    }
}

/// The boolean-like value under `k`.
fn get_bool(m: &Vec<(String, JsonValue)>, k: &str) -> (r: Option<bool>)
    ensures
        r == bool_at(field_views_of(m@), k@),
{
    match get(m, k) {
        Some(v) => parse_bool_like(v),
        None => None,
    }
}

/// The boolean-like value under the first present of `a` and `b`.
fn get_flag(m: &Vec<(String, JsonValue)>, a: &str, b: &str) -> (r: Option<bool>)
    ensures
        r == flag_at(field_views_of(m@), a@, b@),
{
    match get(m, a) {
        Some(v) => parse_bool_like(v),
        None => match get(m, b) {
            Some(v) => parse_bool_like(v),
            None => None,
        },
    }
}

/// The value under the first present of `a` and `b`.
fn get_either<'a>(m: &'a Vec<(String, JsonValue)>, a: &str, b: &str) -> (r: Option<&'a JsonValue>)
    ensures
        r is Some <==> lookup_either(field_views_of(m@), a@, b@) is Some,
        r is Some ==> lookup_either(field_views_of(m@), a@, b@) == Some(r->0@),
{
    match get(m, a) {
        Some(v) => Some(v),
        None => get(m, b),
    }
}

/// Copies of the elements of a list written as an array or as an
/// index-keyed object.
pub fn list_values(v: Option<&JsonValue>) -> (r: Vec<JsonValue>)
    ensures
        views_of(r@) == list_elements(match v {
            Some(x) => Some(x@),
            None => None,
        }),
{
    match v {
        Some(x) => match x.copy() {
            JsonValue::Array(items) => {
                proof {
                    crate::json::lemma_array_view(items);
                }
                items
            },
            JsonValue::Object(fields) => {
                proof {
                    crate::json::lemma_object_view(fields);
                }
                match promote_fields(fields) {
                    JsonValue::Array(items) => {
                        proof {
                            crate::json::lemma_array_view(items);
                        }
                        items
                    },
                    _ => Vec::new(),
                }
            },
            _ => Vec::new(),
        },
        None => Vec::new(),
    }
}

/// The item that `v` describes: an object with a string `id`.
pub fn parse_item(v: &JsonValue) -> (r: Option<ItemStack>)
    ensures
        r is Some <==> is_item(v@),
        r is Some ==> item_matches(r->0, fields_of(v@)->0),
{
    let m = match v.as_object() {
        Some(m) => m,
        None => return None,
    };
    let id = match get_str(m, "id") {
        Some(s) => s,
        None => return None,
    };
    let damage = match get_i32(m, "Damage") {
        Some(d) => Some(d),
        None => get_i32(m, "damage"),
    };
    let count = match get_i32(m, "Count") {
        Some(c) => Some(c),
        None => get_i32(m, "count"),
    };
    let oredict = match get_str(m, "OreDict") {
        Some(o) => Some(o),
        None => get_str(m, "oreDict"),
    };
    let extra = collect_extra(m, KnownKeys::Item);
    Some(ItemStack { id, damage, count, oredict, extra })
}

/// The items among the elements of a list.
pub fn parse_items_vec(v: Option<&JsonValue>) -> (r: Vec<ItemStack>)
    ensures
        items_match(r@, item_sources(list_elements(match v {
            Some(x) => Some(x@),
            None => None,
        }))),
{
    let elems = list_values(v);
    let ghost ev = views_of(elems@);
    let mut out: Vec<ItemStack> = Vec::new();
    let mut i: usize = 0;
    assert(ev.take(0) =~= Seq::<Json>::empty());
    while i < elems.len()
        invariant
            i <= elems.len(),
            ev == views_of(elems@),
            items_match(out@, item_sources(ev.take(i as int))),
        decreases elems.len() - i,
    {
        assert(ev.take(i + 1).drop_last() =~= ev.take(i as int));
        assert(ev.take(i + 1).last() == elems[i as int]@);
        match parse_item(&elems[i]) {
            Some(it) => {
                out.push(it);
            },
            None => {},
        }
        i = i + 1;
    }
    assert(ev.take(elems.len() as int) =~= ev);
    out
}

/// The integer under `k` as a number or decimal text, `0` when absent.
pub open spec fn loose_i32_at(m: Fields, k: Seq<char>) -> i32 {
    match lookup(m, k) {
        Some(j) => match loose_i32(j) {
            Some(x) => x,
            None => 0,
        },
        None => 0,
    }
}

/// The quest id that a reference object names.
pub open spec fn ref_id(m: Fields) -> u64 {
    id_of_parts(loose_i32_at(m, "questIDHigh"@), loose_i32_at(m, "questIDLow"@))
}

/// The ids named by the objects among `elems`, in order.
pub open spec fn refs_of(elems: Seq<Json>) -> Seq<u64>
    decreases elems.len(),
{
    if elems.len() == 0 {
        Seq::empty()
    } else {
        let r = refs_of(elems.drop_last());
        if fields_of(elems.last()) is Some {
            r.push(ref_id(fields_of(elems.last())->0))
        } else {
            r
        }
    }
}

/// `all` without the ids that `opt` holds, in order.
pub open spec fn without(all: Seq<u64>, opt: Seq<u64>) -> Seq<u64>
    decreases all.len(),
{
    if all.len() == 0 {
        Seq::empty()
    } else {
        let r = without(all.drop_last(), opt);
        if opt.contains(all.last()) {
            r
        } else {
            r.push(all.last())
        }
    }
}

/// What `str::to_uppercase` makes of a text.
pub uninterp spec fn upper_of(s: Seq<char>) -> Seq<char>;

/// Relies on str::to_uppercase: the result depends on the characters alone.
#[verifier::external_body]
fn uppercase(s: &str) -> (r: String)
    ensures
        r@ == upper_of(s@),
{
    s.to_uppercase()
}

/// A quest logic under which any one prerequisite suffices.
pub open spec fn is_or_logic(logic: Option<Seq<char>>) -> bool {
    match logic {
        Some(l) => {
            let u = upper_of(l);
            u == "OR"@ || u == "ONE_OF"@ || u == "ANY"@ || u == "XOR"@
        },
        None => false,
    }
}

/// The object that holds a quest's properties: `properties.betterquesting`,
/// else the first entry of `properties`, else the document itself.
pub open spec fn props_source(top: Fields) -> Json {
    match lookup(top, "properties"@) {
        Some(Json::Object(pf)) => if lookup(pf, "betterquesting"@) is Some {
            lookup(pf, "betterquesting"@)->0
        } else if pf.len() > 0 {
            pf[0].1
        } else {
            Json::Object(top)
        },
        _ => Json::Object(top),
    }
}

/// An object with a string `name`.
pub open spec fn has_name(j: Json) -> bool {
    fields_of(j) is Some && str_at(fields_of(j)->0, "name"@) is Some
}

/// The required prerequisites that a quest document yields.
pub open spec fn required_of(all: Seq<u64>, opt: Seq<u64>, logic: Option<Seq<char>>) -> Seq<u64> {
    if opt.len() > 0 {
        without(all, opt)
    } else if is_or_logic(logic) {
        Seq::empty()
    } else {
        all
    }
}

/// The optional prerequisites that a quest document yields.
pub open spec fn optional_of(all: Seq<u64>, opt: Seq<u64>, logic: Option<Seq<char>>) -> Seq<u64> {
    if opt.len() > 0 {
        opt
    } else if is_or_logic(logic) {
        all
    } else {
        Seq::empty()
    }
}

/// `q` is what the quest document with fields `top` describes.
pub open spec fn quest_matches(q: Quest, top: Fields) -> bool {
    let src = fields_of(props_source(top))->0;
    let all = refs_of(list_elements(lookup(top, "preRequisites"@)));
    let opt = refs_of(list_elements(lookup(top, "optionalPreRequisites"@)));
    let logic = str_at(src, "questLogic"@);
    &&& q.id@ == id_of_parts(loose_i32_at(top, "questIDHigh"@), loose_i32_at(top, "questIDLow"@))
    &&& q.properties is Some
    &&& properties_match(q.properties->0, src)
    &&& tasks_match(q.tasks@, entry_sources(lookup(top, "tasks"@), EntryKind::Task))
    &&& rewards_match(q.rewards@, entry_sources(lookup(top, "rewards"@), EntryKind::Reward))
    &&& ids_of(q.required_prerequisites@) == required_of(all, opt, logic)
    &&& ids_of(q.optional_prerequisites@) == optional_of(all, opt, logic)
    &&& q.prerequisites@ == q.required_prerequisites@
}

fn task_id_field(m: &Vec<(String, JsonValue)>) -> (r: Option<String>)
    ensures
        opt_view(r) == task_id_at(field_views_of(m@)),
{
    match get_str(m, "taskID") {
        Some(s) => Some(s),
        None => match get_str(m, "taskId") {
            Some(s) => Some(s),
            None => match get_str(m, "task_id") {
                Some(s) => Some(s),
                None => get_str(m, "task"),
            },
        },
    }
}

fn reward_id_field(m: &Vec<(String, JsonValue)>) -> (r: Option<String>)
    ensures
        opt_view(r) == reward_id_at(field_views_of(m@)),
{
    match get_str(m, "rewardID") {
        Some(s) => Some(s),
        None => match get_str(m, "rewardId") {
            Some(s) => Some(s),
            None => match get_str(m, "reward_id") {
                Some(s) => Some(s),
                None => get_str(m, "reward"),
            },
        },
    }
}

/// The task that `v` describes, at position `idx`: an object with a
/// non-empty task id.
pub fn parse_task_entry(idx: Option<usize>, v: &JsonValue) -> (r: Option<Task>)
    ensures
        r is Some <==> is_task(v@),
        r is Some ==> task_matches(r->0, fields_of(v@)->0, opt_index(idx)),
{
    let m = match v.as_object() {
        Some(m) => m,
        None => return None,
    };
    let task_id = match task_id_field(m) {
        Some(s) => s,
        None => return None,
    };
    if task_id.as_str().unicode_len() == 0 {
        return None;
    }
    let required_items = parse_items_vec(get(m, "requiredItems"));
    let ignore_nbt = get_flag(m, "ignoreNBT", "ignore_nbt");
    let partial_match = get_flag(m, "partialMatch", "partial_match");
    let auto_consume = get_flag(m, "autoConsume", "auto_consume");
    let consume = get_bool(m, "consume");
    let group_detect = get_flag(m, "groupDetect", "group_detect");
    let options = collect_extra(m, KnownKeys::Task);
    Some(
        Task {
            index: idx,
            task_id,
            required_items,
            ignore_nbt,
            partial_match,
            auto_consume,
            consume,
            group_detect,
            options,
        },
    )
}

/// The reward that `v` describes, at position `idx`: an object with a
/// non-empty reward id.
pub fn parse_reward_entry(idx: Option<usize>, v: &JsonValue) -> (r: Option<Reward>)
    ensures
        r is Some <==> is_reward(v@),
        r is Some ==> reward_matches(r->0, fields_of(v@)->0, opt_index(idx)),
{
    let m = match v.as_object() {
        Some(m) => m,
        None => return None,
    };
    let reward_id = match reward_id_field(m) {
        Some(s) => s,
        None => return None,
    };
    if reward_id.as_str().unicode_len() == 0 {
        return None;
    }
    let items = parse_items_vec(get_either(m, "items", "rewards"));
    let choices = parse_items_vec(get(m, "choices"));
    let ignore_disabled = get_flag(m, "ignoreDisabled", "ignore_disabled");
    let extra = collect_extra(m, KnownKeys::Reward);
    Some(Reward { index: idx, reward_id, items, choices, ignore_disabled, extra })
}

/// Whether `f` is non-empty and every key of it is an index.
pub(crate) fn all_keys_are_indices(f: &Vec<(String, JsonValue)>) -> (r: bool)
    ensures
        r == (f.len() > 0 && crate::normalize::all_index_keys(field_views_of(f@))),
{
    let ghost fv = field_views_of(f@);
    let mut all_index = f.len() > 0;
    let mut i: usize = 0;
    while i < f.len()
        invariant
            i <= f.len(),
            fv == field_views_of(f@),
            all_index <==> (f.len() > 0 && forall|t: int|
                0 <= t < i ==> crate::text::is_index_key(#[trigger] fv[t].0)),
        decreases f.len() - i,
    {
        assert(fv[i as int].0 == f[i as int].0@);
        if crate::text::index_of_key(f[i].0.as_str()).is_none() {
            all_index = false;
        }
        i = i + 1;
    }
    all_index
}

/// The tasks of a task list.
pub fn parse_tasks(v: Option<&JsonValue>) -> (r: Vec<Task>)
    ensures
        tasks_match(r@, entry_sources(match v {
            Some(x) => Some(x@),
            None => None,
        }, EntryKind::Task)),
{
    if let Some(x) = v {
        if let JsonValue::Object(f) = x {
            proof {
                crate::json::lemma_object_view(*f);
            }
            if !all_keys_are_indices(f) {
                let mut out: Vec<Task> = Vec::new();
                match parse_task_entry(None, x) {
                    Some(t) => {
                        out.push(t);
                    },
                    None => {},
                }
                return out;
            }
        }
    }
    let elems = list_values(v);
    let ghost ev = views_of(elems@);
    let mut out: Vec<Task> = Vec::new();
    let mut i: usize = 0;
    assert(ev.take(0) =~= Seq::<Json>::empty());
    while i < elems.len()
        invariant
            i <= elems.len(),
            ev == views_of(elems@),
            tasks_match(out@, positioned(ev.take(i as int), EntryKind::Task)),
        decreases elems.len() - i,
    {
        assert(ev.take(i + 1).drop_last() =~= ev.take(i as int));
        assert(ev.take(i + 1).last() == elems[i as int]@);
        match parse_task_entry(Some(i), &elems[i]) {
            Some(t) => {
                out.push(t);
            },
            None => {},
        }
        i = i + 1;
    }
    assert(ev.take(elems.len() as int) =~= ev);
    out
}

/// The rewards of a reward list.
pub fn parse_rewards(v: Option<&JsonValue>) -> (r: Vec<Reward>)
    ensures
        rewards_match(r@, entry_sources(match v {
            Some(x) => Some(x@),
            None => None,
        }, EntryKind::Reward)),
{
    if let Some(x) = v {
        if let JsonValue::Object(f) = x {
            proof {
                crate::json::lemma_object_view(*f);
            }
            if !all_keys_are_indices(f) {
                let mut out: Vec<Reward> = Vec::new();
                match parse_reward_entry(None, x) {
                    Some(t) => {
                        out.push(t);
                    },
                    None => {},
                }
                return out;
            }
        }
    }
    let elems = list_values(v);
    let ghost ev = views_of(elems@);
    let mut out: Vec<Reward> = Vec::new();
    let mut i: usize = 0;
    assert(ev.take(0) =~= Seq::<Json>::empty());
    while i < elems.len()
        invariant
            i <= elems.len(),
            ev == views_of(elems@),
            rewards_match(out@, positioned(ev.take(i as int), EntryKind::Reward)),
        decreases elems.len() - i,
    {
        assert(ev.take(i + 1).drop_last() =~= ev.take(i as int));
        assert(ev.take(i + 1).last() == elems[i as int]@);
        match parse_reward_entry(Some(i), &elems[i]) {
            Some(t) => {
                out.push(t);
            },
            None => {},
        }
        i = i + 1;
    }
    assert(ev.take(elems.len() as int) =~= ev);
    out
}

/// The properties that the object `v` describes; `None` when `v` is not an
/// object, an error when it has no string `name`.
pub fn parse_properties(v: &JsonValue) -> (r: Result<Option<QuestProperties>, ParseError>)
    ensures
        fields_of(v@) is None ==> r is Ok && r->Ok_0 is None,
        fields_of(v@) is Some ==> (r is Ok <==> has_name(v@)),
        fields_of(v@) is Some && r is Ok ==> r->Ok_0 is Some && properties_match(
            r->Ok_0->0,
            fields_of(v@)->0,
        ),
        r is Err ==> r->Err_0 is InvalidFormat,
{
    let m = match v.as_object() {
        Some(m) => m,
        None => return Ok(None),
    };
    let name = match get_str(m, "name") {
        Some(n) => n,
        None => return Err(ParseError::InvalidFormat("properties have no name".to_owned())),
    };
    let icon = match get(m, "icon") {
        Some(i) => parse_item(i),
        None => None,
    };
    let props = QuestProperties {
        name,
        desc: get_str(m, "desc"),
        icon,
        is_main: get_bool(m, "isMain"),
        is_silent: get_bool(m, "isSilent"),
        auto_claim: get_bool(m, "autoClaim"),
        global_share: get_bool(m, "globalShare"),
        is_global: get_bool(m, "isGlobal"),
        locked_progress: get_i32(m, "lockedProgress"),
        repeat_time: get_i32(m, "repeatTime"),
        repeat_relative: get_bool(m, "repeat_relative"),
        simultaneous: get_bool(m, "simultaneous"),
        party_single_reward: get_bool(m, "partySingleReward"),
        quest_logic: get_str(m, "questLogic"),
        task_logic: get_str(m, "taskLogic"),
        visibility: get_str(m, "visibility"),
        snd_complete: get_str(m, "snd_complete"),
        snd_update: get_str(m, "snd_update"),
        extra: collect_extra(m, KnownKeys::Properties),
    };
    Ok(Some(props))
}

/// The integer under `k` as a number or decimal text, `0` when absent.
fn get_loose_or_zero(m: &Vec<(String, JsonValue)>, k: &str) -> (r: i32)
    ensures
        r == loose_i32_at(field_views_of(m@), k@),
{
    match get(m, k) {
        Some(v) => match get_loose_i32(v) {
            Some(x) => x,
            None => 0,
        },
        None => 0,
    }
}

/// The quest id that the reference object with fields `m` names.
fn ref_from_fields(m: &Vec<(String, JsonValue)>) -> (r: QuestId)
    ensures
        r@ == ref_id(field_views_of(m@)),
{
    QuestId::from_parts(get_loose_or_zero(m, "questIDHigh"), get_loose_or_zero(m, "questIDLow"))
}

/// The quest ids that a list of reference objects names.
pub fn parse_refs(v: Option<&JsonValue>) -> (r: Vec<QuestId>)
    ensures
        ids_of(r@) == refs_of(list_elements(match v {
            Some(x) => Some(x@),
            None => None,
        })),
{
    let elems = list_values(v);
    let ghost ev = views_of(elems@);
    let mut out: Vec<QuestId> = Vec::new();
    let mut i: usize = 0;
    assert(ev.take(0) =~= Seq::<Json>::empty());
    assert(ids_of(out@) =~= Seq::<u64>::empty());
    while i < elems.len()
        invariant
            i <= elems.len(),
            ev == views_of(elems@),
            ids_of(out@) == refs_of(ev.take(i as int)),
        decreases elems.len() - i,
    {
        let ghost before = ids_of(out@);
        assert(ev.take(i + 1).drop_last() =~= ev.take(i as int));
        assert(ev.take(i + 1).last() == elems[i as int]@);
        match elems[i].as_object() {
            Some(m) => {
                let id = ref_from_fields(m);
                out.push(id);
                assert(ids_of(out@) =~= before.push(id@));
            },
            None => {},
        }
        i = i + 1;
    }
    assert(ev.take(elems.len() as int) =~= ev);
    out
}

/// Whether `ids` holds an id equal to `id`.
pub fn contains_id(ids: &Vec<QuestId>, id: QuestId) -> (r: bool)
    ensures
        r == ids_of(ids@).contains(id@),
{
    let mut i: usize = 0;
    while i < ids.len()
        invariant
            i <= ids.len(),
            forall|j: int| 0 <= j < i ==> (#[trigger] ids[j])@ != id@,
        decreases ids.len() - i,
    {
        if ids[i].as_u64() == id.as_u64() {
            assert(ids_of(ids@)[i as int] == id@);
            return true;
        }
        i = i + 1;
    }
    proof {
        if ids_of(ids@).contains(id@) {
            let j = choose|j: int| 0 <= j < ids_of(ids@).len() && ids_of(ids@)[j] == id@;
            assert(ids[j]@ == id@);
        }
    }
    false
}

/// The ids of `all` that `opt` does not hold, in order.
fn ids_without(all: &Vec<QuestId>, opt: &Vec<QuestId>) -> (r: Vec<QuestId>)
    ensures
        ids_of(r@) == without(ids_of(all@), ids_of(opt@)),
{
    let ghost av = ids_of(all@);
    let mut out: Vec<QuestId> = Vec::new();
    let mut i: usize = 0;
    assert(av.take(0) =~= Seq::<u64>::empty());
    assert(ids_of(out@) =~= Seq::<u64>::empty());
    while i < all.len()
        invariant
            i <= all.len(),
            av == ids_of(all@),
            ids_of(out@) == without(av.take(i as int), ids_of(opt@)),
        decreases all.len() - i,
    {
        let ghost before = ids_of(out@);
        assert(av.take(i + 1).drop_last() =~= av.take(i as int));
        assert(av.take(i + 1).last() == all[i as int]@);
        if !contains_id(opt, all[i]) {
            out.push(all[i]);
            assert(ids_of(out@) =~= before.push(all[i as int]@));
        }
        i = i + 1;
    }
    assert(av.take(all.len() as int) =~= av);
    out
}

/// Whether the quest logic `logic` lets any one prerequisite suffice.
fn logic_is_or(logic: &Option<String>) -> (r: bool)
    ensures
        r == is_or_logic(opt_view(*logic)),
{
    match logic {
        Some(l) => {
            let u = uppercase(l.as_str());
            same_text(u.as_str(), "OR") || same_text(u.as_str(), "ONE_OF") || same_text(
                u.as_str(),
                "ANY",
            ) || same_text(u.as_str(), "XOR")
        },
        None => false,
    }
}

/// The quest that a normalised quest document describes.
///
/// Fails with `InvalidFormat` when the document is not an object, or when
/// the object that holds its properties has no string `name`.
pub fn parse_quest_from_value(v: &JsonValue) -> (r: Result<Quest, ParseError>)
    ensures
        r is Ok <==> (fields_of(v@) is Some && has_name(props_source(fields_of(v@)->0))),
        r is Ok ==> quest_matches(r->Ok_0, fields_of(v@)->0),
        r is Err ==> r->Err_0 is InvalidFormat,
{
    let obj = match v.as_object() {
        Some(m) => m,
        None => return Err(ParseError::InvalidFormat("root not an object".to_owned())),
    };
    let id = ref_from_fields(obj);
    let ghost top = field_views_of(obj@);
    let source: &JsonValue = match get(obj, "properties") {
        Some(JsonValue::Object(pf)) => {
            proof {
                crate::json::lemma_object_view(*pf);
            }
            match get(pf, "betterquesting") {
                Some(bq) => bq,
                None => if pf.len() > 0 {
                    &pf[0].1
                } else {
                    v
                },
            }
        },
        _ => v,
    };
    assert(source@ == props_source(top));
    let properties = match parse_properties(source) {
        Ok(Some(p)) => p,
        Ok(None) => return Err(ParseError::InvalidFormat("quest has no properties".to_owned())),
        Err(e) => return Err(e),
    };
    let tasks = parse_tasks(get(obj, "tasks"));
    let rewards = parse_rewards(get(obj, "rewards"));
    let all = parse_refs(get(obj, "preRequisites"));
    let opt = parse_refs(get(obj, "optionalPreRequisites"));
    let required: Vec<QuestId>;
    let optional: Vec<QuestId>;
    if opt.len() > 0 {
        required = ids_without(&all, &opt);
        optional = opt;
    } else if logic_is_or(&properties.quest_logic) {
        required = Vec::new();
        optional = all;
        assert(ids_of(required@) =~= Seq::<u64>::empty());
    } else {
        required = all;
        optional = Vec::new();
        assert(ids_of(optional@) =~= Seq::<u64>::empty());
    }
    let prerequisites = copy_ids(&required);
    Ok(
        Quest {
            id,
            properties: Some(properties),
            tasks,
            rewards,
            prerequisites,
            required_prerequisites: required,
            optional_prerequisites: optional,
        },
    )
}

/// A copy of a list of ids.
pub fn copy_ids(ids: &Vec<QuestId>) -> (r: Vec<QuestId>)
    ensures
        r@ == ids@,
{
    let mut out: Vec<QuestId> = Vec::new();
    let mut i: usize = 0;
    while i < ids.len()
        invariant
            i <= ids.len(),
            out@ == ids@.take(i as int),
        decreases ids.len() - i,
    {
        out.push(ids[i]);
        assert(out@ =~= ids@.take(i + 1));
        i = i + 1;
    }
    assert(ids@.take(ids.len() as int) =~= ids@);
    out
}

proof fn lemma_without_excludes(all: Seq<u64>, opt: Seq<u64>)
    ensures
        forall|x: u64| #[trigger] without(all, opt).contains(x) ==> !opt.contains(x),
    decreases all.len(),
{
    if all.len() > 0 {
        lemma_without_excludes(all.drop_last(), opt);
        let r = without(all.drop_last(), opt);
        assert forall|x: u64| #[trigger] without(all, opt).contains(x) implies !opt.contains(x) by {
            if !opt.contains(all.last()) {
                let t = choose|t: int| 0 <= t < r.push(all.last()).len() && r.push(all.last())[t] == x;
                if t < r.len() {
                    assert(r[t] == x);
                    assert(r.contains(x));
                } else {
                    assert(x == all.last());
                }
            }
        }
    }
}

/// A loaded quest never lists one prerequisite as both required and
/// optional, and its plain list is its required list.
pub proof fn lemma_loaded_quest_split(q: Quest, top: Fields)
    requires
        quest_matches(q, top),
    ensures
        forall|i: int, j: int|
            0 <= i < q.required_prerequisites@.len() && 0 <= j < q.optional_prerequisites@.len()
                ==> #[trigger] q.required_prerequisites@[i]@ != #[trigger] q.optional_prerequisites@[j]@,
        q.prerequisites@ == q.required_prerequisites@,
{
    let src = fields_of(props_source(top))->0;
    let all = refs_of(list_elements(lookup(top, "preRequisites"@)));
    let opt = refs_of(list_elements(lookup(top, "optionalPreRequisites"@)));
    let logic = str_at(src, "questLogic"@);
    let req = ids_of(q.required_prerequisites@);
    let op = ids_of(q.optional_prerequisites@);
    assert forall|i: int, j: int|
        0 <= i < q.required_prerequisites@.len() && 0 <= j < q.optional_prerequisites@.len()
            implies #[trigger] q.required_prerequisites@[i]@ != #[trigger] q.optional_prerequisites@[j]@ by {
        assert(req[i] == q.required_prerequisites@[i]@);
        assert(op[j] == q.optional_prerequisites@[j]@);
        assert(req == required_of(all, opt, logic));
        assert(op == optional_of(all, opt, logic));
        if opt.len() > 0 {
            lemma_without_excludes(all, opt);
            assert(req.contains(req[i]));
            assert(opt.contains(op[j]));
        } else if is_or_logic(logic) {
            assert(req.len() == 0);
        } else {
            assert(op.len() == 0);
        }
    }
}

} // verus!
