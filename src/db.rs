//! Loading a whole DefaultQuests export through a data source.
use vstd::prelude::*;
use crate::coerce::{fields_of, get, i32_of, lookup, to_i32};
use crate::error::ParseError;
use crate::json::{field_views_of, Json, JsonValue};
use crate::json_text::{json_of_text, parse_json};
use crate::model::{
    ids_of, quest_ids, Quest, QuestDatabase, QuestLine, QuestLineEntry, QuestProperties,
    QuestSettings,
};
use crate::normalize::{normalize, normalize_value, Fields};
use crate::parser::{
    collect_extra, extra_fields, has_name, opt_view, parse_properties,
    parse_quest_from_value, properties_match, props_source, quest_matches, str_at, KnownKeys,
};
use crate::quest_id::{id_of_parts, QuestId};
use crate::text::same_text;

verus! {

/// Access to the files of an export: listing, kind tests and reading.
/// Paths are joined with `/`.
pub trait QuestDataSource {
    /// The names of the entries of the directory `path`.
    fn list_dir(&self, path: &str) -> Result<Vec<String>, ParseError>;

    /// Whether `path` is a directory.
    fn is_dir(&self, path: &str) -> bool;

    /// Whether `path` is a file.
    fn is_file(&self, path: &str) -> bool;

    /// The text of the file `path`.
    fn read_to_string(&self, path: &str) -> Result<String, ParseError>;
}

/// `a`, a slash, then `b`.
pub fn join_path(a: &str, b: &str) -> (r: String)
    ensures
        r@ == a@ + "/"@ + b@,
{
    let mut s = a.to_owned();
    s.append("/");
    s.append(b);
    s
}

/// `p` ends in `.json`.
pub open spec fn has_json_ext(p: Seq<char>) -> bool {
    p.len() >= 5 && p.subrange(p.len() - 5, p.len() as int) == ".json"@
}

/// Whether `p` ends in `.json`.
pub fn is_json_name(p: &str) -> (r: bool)
    ensures
        r == has_json_ext(p@),
{
    let n = p.unicode_len();
    if n < 5 {
        return false;
    }
    let tail = p.substring_char(n - 5, n);
    same_text(tail, ".json")
}

/// The quest that the JSON text `s` describes, after normalisation.
pub fn parse_quest_from_str(s: &str) -> (r: Result<Quest, ParseError>)
    ensures
        json_of_text(s@) is None ==> r is Err && r->Err_0 is Json,
        json_of_text(s@) is Some ==> {
            let n = normalize(json_of_text(s@)->0);
            &&& r is Ok <==> (fields_of(n) is Some && has_name(props_source(fields_of(n)->0)))
            &&& r is Ok ==> quest_matches(r->Ok_0, fields_of(n)->0)
            &&& r is Err ==> r->Err_0 is InvalidFormat
        },
{
    match parse_json(s) {
        Ok(v) => {
            let n = normalize_value(v);
            parse_quest_from_value(&n)
        },
        Err(e) => Err(ParseError::Json(e)),
    }
}

/// The object that holds settings: `properties.betterquesting` or the first
/// entry of `properties` when that is an object, else the document itself.
pub open spec fn settings_source(m: Fields) -> Fields {
    let inner = match lookup(m, "properties"@) {
        Some(Json::Object(pf)) => if lookup(pf, "betterquesting"@) is Some {
            lookup(pf, "betterquesting"@)->0
        } else if pf.len() > 0 {
            pf[0].1
        } else {
            Json::Null
        },
        _ => Json::Null,
    };
    if fields_of(inner) is Some {
        fields_of(inner)->0
    } else {
        m
    }
}

pub open spec fn settings_match(s: QuestSettings, j: Json) -> bool {
    match fields_of(j) {
        Some(m) => opt_view(s.version) == str_at(settings_source(m), "version"@) && field_views_of(
            s.extra@,
        ) == extra_fields(settings_source(m), KnownKeys::Settings),
        None => s.version is None && s.extra@.len() == 0,
    }
}

/// The settings that the document `v` holds: its `version` and every other
/// field of the object chosen by `settings_source`.
pub fn parse_settings_value(v: &JsonValue) -> (r: QuestSettings)
    ensures
        settings_match(r, v@),
{
    let m = match v.as_object() {
        Some(m) => m,
        None => return QuestSettings { version: None, extra: Vec::new() },
    };
    let mut inner: Option<&Vec<(String, JsonValue)>> = None;
    match get(m, "properties") {
        Some(JsonValue::Object(pf)) => {
            proof {
                crate::json::lemma_object_view(*pf);
            }
            let iv: Option<&JsonValue> = match get(pf, "betterquesting") {
                Some(bq) => Some(bq),
                None => if pf.len() > 0 {
                    Some(&pf[0].1)
                } else {
                    None
                },
            };
            match iv {
                Some(x) => {
                    inner = x.as_object();
                },
                None => {},
            }
        },
        _ => {},
    }
    let src = match inner {
        Some(f) => f,
        None => m,
    };
    assert(field_views_of(src@) == settings_source(field_views_of(m@)));
    let version = match get(src, "version") {
        Some(x) => match x.as_str() {
            Some(t) => Some(t.to_owned()),
            None => None,
        },
        None => None,
    };
    QuestSettings { version, extra: collect_extra(src, KnownKeys::Settings) }
}

/// The integer under `k`, written as a number (cut to 32 bits).
pub open spec fn num_i32_at(m: Fields, k: Seq<char>) -> Option<i32> {
    match lookup(m, k) {
        Some(j) => i32_of(j),
        None => None,
    }
}

/// The integer under `k`, written as a number (cut to 32 bits), `0` when
/// absent or not a number.
pub open spec fn id_half_at(m: Fields, k: Seq<char>) -> i32 {
    match num_i32_at(m, k) {
        Some(x) => x,
        None => 0,
    }
}

fn get_id_half(m: &Vec<(String, JsonValue)>, k: &str) -> (r: i32)
    ensures
        r == id_half_at(field_views_of(m@), k@),
{
    match get_coord(m, k) {
        Some(x) => x,
        None => 0,
    }
}

/// The integer under `k`, written as a number (cut to 32 bits).
fn get_coord(m: &Vec<(String, JsonValue)>, k: &str) -> (r: Option<i32>)
    ensures
        r == num_i32_at(field_views_of(m@), k@),
{
    match get(m, k) {
        Some(v) => to_i32(v),
        None => None,
    }
}

pub open spec fn entry_matches(e: QuestLineEntry, m: Fields) -> bool {
    &&& e.index is None
    &&& e.quest_id@ == id_of_parts(id_half_at(m, "questIDHigh"@), id_half_at(m, "questIDLow"@))
    &&& e.x == num_i32_at(m, "x"@)
    &&& e.y == num_i32_at(m, "y"@)
    &&& e.size_x == num_i32_at(m, "sizeX"@)
    &&& e.size_y == num_i32_at(m, "sizeY"@)
    &&& e.extra@.len() == 0
}

/// The questline entry that a document describes, once normalised: `None`
/// when it is not an object.
pub fn parse_questline_entry_value(v: JsonValue) -> (r: Option<QuestLineEntry>)
    ensures
        r is Some <==> fields_of(normalize(v@)) is Some,
        r is Some ==> entry_matches(r->0, fields_of(normalize(v@))->0),
{
    let n = normalize_value(v);
    let m = match n.as_object() {
        Some(m) => m,
        None => return None,
    };
    let high = get_id_half(m, "questIDHigh");
    let low = get_id_half(m, "questIDLow");
    Some(
        QuestLineEntry {
            index: None,
            quest_id: QuestId::from_parts(high, low),
            x: get_coord(m, "x"),
            y: get_coord(m, "y"),
            size_x: get_coord(m, "sizeX"),
            size_y: get_coord(m, "sizeY"),
            extra: Vec::new(),
        },
    )
}

/// The object that holds a questline's properties, if any:
/// `properties.betterquesting`, else the first entry of `properties`.
pub open spec fn line_props_source(m: Fields) -> Option<Json> {
    match lookup(m, "properties"@) {
        Some(Json::Object(pf)) => if lookup(pf, "betterquesting"@) is Some {
            lookup(pf, "betterquesting"@)
        } else if pf.len() > 0 {
            Some(pf[0].1)
        } else {
            None
        },
        _ => None,
    }
}

/// The id and properties of `l` are those that the header fields `m` give,
/// and it has no extra fields.
pub open spec fn header_matches(l: QuestLine, m: Fields) -> bool {
    &&& l.id@ == id_of_parts(id_half_at(m, "questLineIDHigh"@), id_half_at(m, "questLineIDLow"@))
    &&& match line_props_source(m) {
        Some(p) => if fields_of(p) is Some && has_name(p) {
            l.properties is Some && properties_match(l.properties->0, fields_of(p)->0)
        } else {
            l.properties is None
        },
        None => l.properties is None,
    }
    &&& l.extra@.len() == 0
}

pub open spec fn line_header_matches(l: QuestLine, m: Fields) -> bool {
    header_matches(l, m) && l.entries@.len() == 0
}

/// The questline header that a document describes, once normalised, with no
/// entries yet: `None` when it is not an object. Properties without a name
/// are left out.
pub fn parse_questline_header_value(v: JsonValue) -> (r: Option<QuestLine>)
    ensures
        r is Some <==> fields_of(normalize(v@)) is Some,
        r is Some ==> line_header_matches(r->0, fields_of(normalize(v@))->0),
{
    let n = normalize_value(v);
    let m = match n.as_object() {
        Some(m) => m,
        None => return None,
    };
    let high = get_id_half(m, "questLineIDHigh");
    let low = get_id_half(m, "questLineIDLow");
    let mut properties: Option<QuestProperties> = None;
    match get(m, "properties") {
        Some(JsonValue::Object(pf)) => {
            proof {
                crate::json::lemma_object_view(*pf);
            }
            let src: Option<&JsonValue> = match get(pf, "betterquesting") {
                Some(bq) => Some(bq),
                None => if pf.len() > 0 {
                    Some(&pf[0].1)
                } else {
                    None
                },
            };
            match src {
                Some(p) => {
                    match parse_properties(p) {
                        Ok(found) => {
                            properties = found;
                        },
                        Err(_) => {},
                    }
                },
                None => {},
            }
        },
        _ => {},
    }
    Some(
        QuestLine {
            id: QuestId::from_parts(high, low),
            properties,
            entries: Vec::new(),
            extra: Vec::new(),
        },
    )
}

/// Where an entry with id `k` goes in `sorted`: after every entry whose id
/// is at most `k`.
pub open spec fn entry_insert_pos(sorted: Seq<QuestLineEntry>, k: u64) -> int
    decreases sorted.len(),
{
    if sorted.len() == 0 {
        0
    } else if sorted.last().quest_id@ > k {
        entry_insert_pos(sorted.drop_last(), k)
    } else {
        sorted.len() as int
    }
}

/// `es` stably sorted by ascending quest id.
pub open spec fn sort_entries(es: Seq<QuestLineEntry>) -> Seq<QuestLineEntry>
    decreases es.len(),
{
    if es.len() == 0 {
        es
    } else {
        let s = sort_entries(es.drop_last());
        s.insert(entry_insert_pos(s, es.last().quest_id@), es.last())
    }
}

proof fn lemma_entry_insert_pos_tail(s: Seq<QuestLineEntry>, k: u64, j: int)
    requires
        0 <= j <= s.len(),
        forall|t: int| j <= t < s.len() ==> (#[trigger] s[t]).quest_id@ > k,
    ensures
        entry_insert_pos(s, k) == entry_insert_pos(s.take(j), k),
    decreases s.len() - j,
{
    if j < s.len() {
        assert(s.take(j + 1).drop_last() =~= s.take(j));
        assert(s.take(j + 1).last() == s[j]);
        lemma_entry_insert_pos_tail(s, k, j + 1);
    } else {
        assert(s.take(j) =~= s);
    }
}

/// The quest ids of `es` never decrease.
pub open spec fn entries_ascending(es: Seq<QuestLineEntry>) -> bool {
    forall|i: int, j: int| 0 <= i < j < es.len() ==> #[trigger] es[i].quest_id@ <= #[trigger] es[j].quest_id@
}

proof fn lemma_entry_insert_pos_bounds(s: Seq<QuestLineEntry>, k: u64)
    requires
        entries_ascending(s),
    ensures
        0 <= entry_insert_pos(s, k) <= s.len(),
        forall|t: int| 0 <= t < entry_insert_pos(s, k) ==> (#[trigger] s[t]).quest_id@ <= k,
        forall|t: int| entry_insert_pos(s, k) <= t < s.len() ==> (#[trigger] s[t]).quest_id@ > k,
    decreases s.len(),
{
    if s.len() > 0 {
        let d = s.drop_last();
        assert forall|i: int, j: int| 0 <= i < j < d.len() implies #[trigger] d[i].quest_id@ <= #[trigger] d[j].quest_id@ by {
            assert(d[i] == s[i] && d[j] == s[j]);
        }
        lemma_entry_insert_pos_bounds(d, k);
        if s.last().quest_id@ > k {
            assert forall|t: int| entry_insert_pos(s, k) <= t < s.len() implies (#[trigger] s[t]).quest_id@ > k by {
                if t < s.len() - 1 {
                    assert(s[t] == d[t]);
                }
            }
            assert forall|t: int| 0 <= t < entry_insert_pos(s, k) implies (#[trigger] s[t]).quest_id@ <= k by {
                assert(s[t] == d[t]);
            }
        } else {
            assert forall|t: int| 0 <= t < s.len() implies (#[trigger] s[t]).quest_id@ <= k by {
                if t < s.len() - 1 {
                    assert(s[t].quest_id@ <= s[s.len() - 1].quest_id@);
                }
            }
        }
    }
}

/// Sorting by quest id leaves the ids in ascending order.
pub proof fn lemma_sort_entries_ascending(es: Seq<QuestLineEntry>)
    ensures
        entries_ascending(sort_entries(es)),
        sort_entries(es).len() == es.len(),
    decreases es.len(),
{
    if es.len() > 0 {
        lemma_sort_entries_ascending(es.drop_last());
        let s = sort_entries(es.drop_last());
        let k = es.last().quest_id@;
        lemma_entry_insert_pos_bounds(s, k);
        let p = entry_insert_pos(s, k);
        let r = s.insert(p, es.last());
        assert forall|i: int, j: int| 0 <= i < j < r.len() implies #[trigger] r[i].quest_id@ <= #[trigger] r[j].quest_id@ by {
            if j < p {
                assert(r[i] == s[i] && r[j] == s[j]);
            } else if j == p {
                assert(r[i] == s[i]);
            } else if i < p {
                assert(r[i] == s[i] && r[j] == s[j - 1]);
            } else if i == p {
                assert(r[j] == s[j - 1]);
            } else {
                assert(r[i] == s[i - 1] && r[j] == s[j - 1]);
            }
        }
    }
}

/// `es` stably sorted by ascending quest id.
pub fn sort_entries_by_id(es: Vec<QuestLineEntry>) -> (r: Vec<QuestLineEntry>)
    ensures
        r@ == sort_entries(es@),
{
    let ghost orig = es@;
    let n = es.len();
    let mut rest = es;
    let mut sorted: Vec<QuestLineEntry> = Vec::new();
    let mut i: usize = 0;
    assert(orig.take(0) =~= Seq::<QuestLineEntry>::empty());
    while rest.len() > 0
        invariant
            orig.len() == n,
            i + rest.len() == n,
            rest@ == orig.subrange(i as int, n as int),
            sorted@ == sort_entries(orig.take(i as int)),
        decreases rest.len(),
    {
        let e = rest.remove(0);
        assert(rest@ =~= orig.subrange(i + 1, n as int));
        assert(orig.take(i + 1).drop_last() =~= orig.take(i as int));
        assert(orig.take(i + 1).last() == e);
        let k = e.quest_id.as_u64();
        let mut j: usize = sorted.len();
        while j > 0 && sorted[j - 1].quest_id.as_u64() > k
            invariant
                j <= sorted.len(),
                forall|t: int| j <= t < sorted.len() ==> (#[trigger] sorted[t]).quest_id@ > k,
            decreases j,
        {
            j = j - 1;
        }
        proof {
            lemma_entry_insert_pos_tail(sorted@, k, j as int);
            if j > 0 {
                assert(sorted@.take(j as int).last() == sorted[j - 1]);
            } else {
                assert(sorted@.take(0).len() == 0);
            }
        }
        sorted.insert(j, e);
        i = i + 1;
    }
    assert(orig.take(n as int) =~= orig);
    sorted
}

/// The position of the first id that already occurred before it, or `-1`.
pub open spec fn first_dup(s: Seq<u64>) -> int
    decreases s.len(),
{
    if s.len() == 0 {
        -1
    } else {
        let p = first_dup(s.drop_last());
        if p >= 0 {
            p
        } else if s.drop_last().contains(s.last()) {
            s.len() - 1
        } else {
            -1
        }
    }
}

proof fn lemma_first_dup_prefix(s: Seq<u64>, k: int)
    requires
        0 <= k <= s.len(),
        first_dup(s.take(k)) >= 0,
    ensures
        first_dup(s) == first_dup(s.take(k)),
    decreases s.len() - k,
{
    if k < s.len() {
        assert(s.take(k + 1).drop_last() =~= s.take(k));
        lemma_first_dup_prefix(s, k + 1);
    } else {
        assert(s.take(k) =~= s);
    }
}

proof fn lemma_first_dup_range(s: Seq<u64>)
    ensures
        -1 <= first_dup(s) < s.len(),
    decreases s.len(),
{
    if s.len() > 0 {
        lemma_first_dup_range(s.drop_last());
    }
}

/// The ids of the questlines of `lines`, one for one.
pub open spec fn line_ids(lines: Seq<QuestLine>) -> Seq<u64> {
    lines.map_values(|l: QuestLine| l.id@)
}

/// Whether a quest of `quests` has id `id`.
pub fn contains_quest_id(quests: &Vec<Quest>, id: QuestId) -> (r: bool)
    ensures
        r == quest_ids(quests@).contains(id@),
{
    let mut i: usize = 0;
    while i < quests.len()
        invariant
            i <= quests.len(),
            forall|j: int| 0 <= j < i ==> (#[trigger] quests[j]).id@ != id@,
        decreases quests.len() - i,
    {
        if quests[i].id.as_u64() == id.as_u64() {
            assert(quest_ids(quests@)[i as int] == id@);
            return true;
        }
        i = i + 1;
    }
    proof {
        if quest_ids(quests@).contains(id@) {
            let j = choose|j: int| 0 <= j < quest_ids(quests@).len() && quest_ids(quests@)[j] == id@;
            assert(quests[j].id@ == id@);
        }
    }
    false
}

/// The position of the first of `ids` that already occurred before it.
pub fn find_first_dup(ids: &Vec<QuestId>) -> (r: Option<usize>)
    ensures
        r is None <==> first_dup(ids_of(ids@)) < 0,
        r is Some ==> r->0 as int == first_dup(ids_of(ids@)),
{
    let ghost s = ids_of(ids@);
    let mut j: usize = 0;
    assert(s.take(0) =~= Seq::<u64>::empty());
    while j < ids.len()
        invariant
            j <= ids.len(),
            s == ids_of(ids@),
            first_dup(s.take(j as int)) < 0,
        decreases ids.len() - j,
    {
        assert(s.take(j + 1).drop_last() =~= s.take(j as int));
        assert(s.take(j + 1).last() == ids[j as int]@);
        let mut i: usize = 0;
        while i < j
            invariant
                i <= j < ids.len(),
                s == ids_of(ids@),
                first_dup(s.take(j as int)) < 0,
                forall|t: int| 0 <= t < i ==> (#[trigger] ids[t])@ != ids[j as int]@,
            decreases j - i,
        {
            if ids[i].as_u64() == ids[j].as_u64() {
                proof {
                    assert(s.take(j as int)[i as int] == s[j as int]);
                    assert(s.take(j + 1).drop_last() =~= s.take(j as int));
                    assert(s.take(j + 1).last() == s[j as int]);
                    assert(s.take(j + 1).drop_last().contains(s.take(j + 1).last()));
                    lemma_first_dup_prefix(s, j + 1);
                }
                return Some(j);
            }
            i = i + 1;
        }
        proof {
            if s.take(j as int).contains(s[j as int]) {
                let t = choose|t: int| 0 <= t < j && s.take(j as int)[t] == s[j as int];
                assert(ids[t]@ != ids[j as int]@);
            }
        }
        j = j + 1;
    }
    assert(s.take(ids.len() as int) =~= s);
    None
}

/// The first entry id of `es` that `qids` lacks.
pub open spec fn first_missing_entry(es: Seq<QuestLineEntry>, qids: Seq<u64>) -> Option<u64>
    decreases es.len(),
{
    if es.len() == 0 {
        None
    } else if !qids.contains(es[0].quest_id@) {
        Some(es[0].quest_id@)
    } else {
        first_missing_entry(es.drop_first(), qids)
    }
}

/// The first questline, in order, with an entry whose id `qids` lacks,
/// with that id.
pub open spec fn first_missing(lines: Seq<QuestLine>, qids: Seq<u64>) -> Option<(u64, u64)>
    decreases lines.len(),
{
    if lines.len() == 0 {
        None
    } else {
        match first_missing_entry(lines[0].entries@, qids) {
            Some(q) => Some((lines[0].id@, q)),
            None => first_missing(lines.drop_first(), qids),
        }
    }
}

/// The first questline entry that refers to no quest of `quests`.
fn find_missing(lines: &Vec<QuestLine>, quests: &Vec<Quest>) -> (r: Option<(u64, QuestId)>)
    ensures
        match r {
            Some((l, q)) => first_missing(lines@, quest_ids(quests@)) == Some((l, q@)),
            None => first_missing(lines@, quest_ids(quests@)) is None,
        },
{
    let ghost qids = quest_ids(quests@);
    let mut l: usize = 0;
    assert(lines@.skip(0) =~= lines@);
    while l < lines.len()
        invariant
            l <= lines.len(),
            qids == quest_ids(quests@),
            first_missing(lines@, qids) == first_missing(lines@.skip(l as int), qids),
        decreases lines.len() - l,
    {
        let es = &lines[l].entries;
        assert(lines@.skip(l as int).drop_first() =~= lines@.skip(l + 1));
        assert(lines@.skip(l as int)[0] == lines[l as int]);
        let mut e: usize = 0;
        assert(es@.skip(0) =~= es@);
        while e < es.len()
            invariant
                e <= es.len(),
                l < lines.len(),
                es@ == lines[l as int].entries@,
                lines@.skip(l as int)[0] == lines[l as int],
                first_missing(lines@, qids) == first_missing(lines@.skip(l as int), qids),
                qids == quest_ids(quests@),
                first_missing_entry(es@, qids) == first_missing_entry(es@.skip(e as int), qids),
            decreases es.len() - e,
        {
            assert(es@.skip(e as int).drop_first() =~= es@.skip(e + 1));
            assert(es@.skip(e as int)[0] == es[e as int]);
            if !contains_quest_id(quests, es[e].quest_id) {
                return Some((lines[l].id.as_u64(), es[e].quest_id));
            }
            e = e + 1;
        }
        assert(es@.skip(es.len() as int).len() == 0);
        l = l + 1;
    }
    assert(lines@.skip(lines.len() as int).len() == 0);
    None
}

/// The database made of loaded quests and questlines, each with the path
/// it came from, once every check passes: quest ids distinct, then
/// questline ids distinct, then every questline entry naming a loaded quest.
pub fn build_database(
    settings: Option<QuestSettings>,
    quests: Vec<Quest>,
    quest_paths: Vec<String>,
    questlines: Vec<QuestLine>,
    questline_paths: Vec<String>,
) -> (r: Result<QuestDatabase, ParseError>)
    requires
        quest_paths.len() == quests.len(),
        questline_paths.len() == questlines.len(),
    ensures
        first_dup(quest_ids(quests@)) >= 0 ==> match r {
            Err(ParseError::DuplicateQuestId(p)) => p@ == quest_paths@[first_dup(
                quest_ids(quests@),
            )]@,
            _ => false,
        },
        first_dup(quest_ids(quests@)) < 0 && first_dup(line_ids(questlines@)) >= 0 ==> match r {
            Err(ParseError::DuplicateQuestId(p)) => p@ == questline_paths@[first_dup(
                line_ids(questlines@),
            )]@,
            _ => false,
        },
        first_dup(quest_ids(quests@)) < 0 && first_dup(line_ids(questlines@)) < 0 && first_missing(
            questlines@,
            quest_ids(quests@),
        ) is Some ==> match r {
            Err(ParseError::MissingQuestReference { questline, quest_id }) => first_missing(
                questlines@,
                quest_ids(quests@),
            ) == Some((questline, quest_id@)),
            _ => false,
        },
        r is Ok <==> (first_dup(quest_ids(quests@)) < 0 && first_dup(line_ids(questlines@)) < 0
            && first_missing(questlines@, quest_ids(quests@)) is None),
        r is Ok ==> r->Ok_0.settings == settings && r->Ok_0.quests@ == quests@
            && r->Ok_0.questlines@ == questlines@ && ids_of(r->Ok_0.questline_order@) == line_ids(
            questlines@,
        ),
{
    let mut qids: Vec<QuestId> = Vec::new();
    let mut i: usize = 0;
    while i < quests.len()
        invariant
            i <= quests.len(),
            ids_of(qids@) == quest_ids(quests@).take(i as int),
        decreases quests.len() - i,
    {
        let ghost before = ids_of(qids@);
        qids.push(quests[i].id);
        assert(ids_of(qids@) =~= before.push(quests[i as int].id@));
        assert(quest_ids(quests@)[i as int] == quests[i as int].id@);
        assert(ids_of(qids@) =~= quest_ids(quests@).take(i + 1));
        i = i + 1;
    }
    assert(quest_ids(quests@).take(quests.len() as int) =~= quest_ids(quests@));
    match find_first_dup(&qids) {
        Some(k) => {
            proof {
                lemma_first_dup_range(quest_ids(quests@));
            }
            return Err(ParseError::DuplicateQuestId(quest_paths[k].clone()));
        },
        None => {},
    }
    let mut lids: Vec<QuestId> = Vec::new();
    let mut i: usize = 0;
    while i < questlines.len()
        invariant
            i <= questlines.len(),
            ids_of(lids@) == line_ids(questlines@).take(i as int),
        decreases questlines.len() - i,
    {
        let ghost before = ids_of(lids@);
        lids.push(questlines[i].id);
        assert(ids_of(lids@) =~= before.push(questlines[i as int].id@));
        assert(line_ids(questlines@)[i as int] == questlines[i as int].id@);
        assert(ids_of(lids@) =~= line_ids(questlines@).take(i + 1));
        i = i + 1;
    }
    assert(line_ids(questlines@).take(questlines.len() as int) =~= line_ids(questlines@));
    match find_first_dup(&lids) {
        Some(k) => {
            proof {
                lemma_first_dup_range(line_ids(questlines@));
            }
            return Err(ParseError::DuplicateQuestId(questline_paths[k].clone()));
        },
        None => {},
    }
    match find_missing(&questlines, &quests) {
        Some((l, q)) => {
            return Err(ParseError::MissingQuestReference { questline: l, quest_id: q });
        },
        None => {},
    }
    Ok(
        QuestDatabase {
            settings,
            quests,
            questlines,
            questline_order: lids,
        },
    )
}

/// What every loaded database satisfies: distinct quest ids, distinct
/// questline ids, every questline entry naming a loaded quest, and the
/// questline order listing the questlines.
pub open spec fn database_wf(db: QuestDatabase) -> bool {
    &&& first_dup(quest_ids(db.quests@)) < 0
    &&& first_dup(line_ids(db.questlines@)) < 0
    &&& first_missing(db.questlines@, quest_ids(db.quests@)) is None
    &&& ids_of(db.questline_order@) == line_ids(db.questlines@)
    &&& forall|l: int| 0 <= l < db.questlines@.len() ==> entries_ascending(#[trigger] db.questlines@[l].entries@)
}

/// The document that some JSON text spells.
pub open spec fn is_text_document(j: Json) -> bool {
    exists|t: Seq<char>| json_of_text(t) == Some(j)
}

/// The settings that some settings file holds.
#[verifier::opaque]
pub open spec fn is_loaded_settings(s: QuestSettings) -> bool {
    exists|j: Json| is_text_document(j) && settings_match(s, j)
}

/// The entry that some entry file holds, once normalised.
#[verifier::opaque]
pub open spec fn is_loaded_entry(e: QuestLineEntry) -> bool {
    exists|j: Json|
        is_text_document(j) && fields_of(normalize(j)) is Some && entry_matches(
            e,
            fields_of(normalize(j))->0,
        )
}

/// A questline whose header some header file holds and whose entries are
/// entry files' entries sorted by quest id.
#[verifier::opaque]
pub open spec fn is_loaded_line(l: QuestLine) -> bool {
    &&& exists|j: Json|
        is_text_document(j) && fields_of(normalize(j)) is Some && header_matches(
            l,
            fields_of(normalize(j))->0,
        )
    &&& exists|es: Seq<QuestLineEntry>|
        l.entries@ == sort_entries(es) && forall|i: int|
            0 <= i < es.len() ==> is_loaded_entry(#[trigger] es[i])
}

/// The document in the file `path`.
fn read_json<S: QuestDataSource>(source: &S, path: &str) -> (r: Result<JsonValue, ParseError>)
    ensures
        r is Ok ==> is_text_document(r->Ok_0@),
{
    let text = match source.read_to_string(path) {
        Ok(t) => t,
        Err(e) => return Err(e),
    };
    match parse_json(text.as_str()) {
        Ok(v) => Ok(v),
        Err(e) => Err(ParseError::Json(e)),
    }
}

/// The settings in the file `path`.
pub fn parse_settings_file_from_source<S: QuestDataSource>(source: &S, path: &str) -> (r: Result<
    QuestSettings,
    ParseError,
>)
    ensures
        r is Ok ==> exists|t: Seq<char>|
            json_of_text(t) is Some && settings_match(r->Ok_0, json_of_text(t)->0),
        r is Ok ==> is_loaded_settings(r->Ok_0),
{
    match read_json(source, path) {
        Ok(v) => {
            let s = parse_settings_value(&v);
            proof {
                reveal(is_loaded_settings);
                let t = choose|t: Seq<char>| json_of_text(t) == Some(v@);
                assert(json_of_text(t) is Some && settings_match(s, json_of_text(t)->0));
            }
            Ok(s)
        },
        Err(e) => Err(e),
    }
}

/// The questline entry in the file `path`: `None` when the file's document,
/// once normalised, is not an object.
pub fn parse_questline_entry_file_from_source<S: QuestDataSource>(source: &S, path: &str) -> (r:
    Result<Option<QuestLineEntry>, ParseError>)
    ensures
        r is Ok && r->Ok_0 is Some ==> exists|t: Seq<char>|
            json_of_text(t) is Some && fields_of(normalize(json_of_text(t)->0)) is Some
                && entry_matches(r->Ok_0->0, fields_of(normalize(json_of_text(t)->0))->0),
        r is Ok && r->Ok_0 is Some ==> is_loaded_entry(r->Ok_0->0),
        r is Ok && r->Ok_0 is None ==> exists|t: Seq<char>|
            json_of_text(t) is Some && fields_of(normalize(json_of_text(t)->0)) is None,
{
    match read_json(source, path) {
        Ok(v) => {
            let ghost j = v@;
            let e = parse_questline_entry_value(v);
            proof {
                reveal(is_loaded_entry);
                let t = choose|t: Seq<char>| json_of_text(t) == Some(j);
                assert(json_of_text(t)->0 == j);
            }
            Ok(e)
        },
        Err(e) => Err(e),
    }
}

/// Whether `name` names an entry file of a questline directory: it ends in
/// `.json` and is not the header `QuestLine.json`.
pub fn is_entry_file_name(name: &str) -> (r: bool)
    ensures
        r == (has_json_ext(name@) && name@ != "QuestLine.json"@),
{
    is_json_name(name) && !same_text(name, "QuestLine.json")
}

/// The questline made of a parsed header and parsed entries: none without a
/// header, else the header with the entries sorted by quest id.
pub fn assemble_questline(header: Option<QuestLine>, entries: Vec<QuestLineEntry>) -> (r: Option<
    QuestLine,
>)
    ensures
        r is Some <==> header is Some,
        r is Some ==> r->0.id == header->0.id && r->0.properties == header->0.properties
            && r->0.extra == header->0.extra && r->0.entries@ == sort_entries(entries@),
{
    match header {
        Some(mut line) => {
            line.entries = sort_entries_by_id(entries);
            Some(line)
        },
        None => None,
    }
}

/// The questline of the directory `path`: its header from `QuestLine.json`
/// with the entries of every other `.json` file attached in ascending order
/// of quest id; `None` when the header is missing.
pub fn parse_questline_dir_from_source<S: QuestDataSource>(source: &S, path: &str) -> (r: Result<
    Option<QuestLine>,
    ParseError,
>)
    ensures
        r is Ok && r->Ok_0 is Some ==> is_loaded_line(r->Ok_0->0),
        r is Ok && r->Ok_0 is Some ==> entries_ascending(r->Ok_0->0.entries@),
{
    let header_path = join_path(path, "QuestLine.json");
    let mut header: Option<QuestLine> = None;
    let ghost mut header_doc: Json = Json::Null;
    if source.is_file(header_path.as_str()) {
        match read_json(source, header_path.as_str()) {
            Ok(v) => {
                proof {
                    header_doc = v@;
                }
                header = parse_questline_header_value(v);
            },
            Err(e) => return Err(e),
        }
    }
    let mut entries: Vec<QuestLineEntry> = Vec::new();
    if source.is_dir(path) {
        let names = match source.list_dir(path) {
            Ok(n) => n,
            Err(e) => return Err(e),
        };
        let mut i: usize = 0;
        while i < names.len()
            invariant
                forall|k: int| 0 <= k < entries@.len() ==> is_loaded_entry(#[trigger] entries@[k]),
            decreases names.len() - i,
        {
            let p = join_path(path, names[i].as_str());
            if is_entry_file_name(names[i].as_str()) && source.is_file(p.as_str()) {
                match parse_questline_entry_file_from_source(source, p.as_str()) {
                    Ok(Some(e)) => {
                        let ghost before = entries@;
                        entries.push(e);
                        assert forall|k: int| 0 <= k < entries@.len() implies is_loaded_entry(
                            #[trigger] entries@[k],
                        ) by {
                            if k < before.len() {
                                assert(entries@[k] == before[k]);
                            }
                        }
                    },
                    Ok(None) => {},
                    Err(e) => return Err(e),
                }
            }
            i = i + 1;
        }
    }
    let ghost es = entries@;
    let r = assemble_questline(header, entries);
    proof {
        if r is Some {
            reveal(is_loaded_line);
            let l = r->0;
            lemma_sort_entries_ascending(es);
            assert(is_text_document(header_doc) && fields_of(normalize(header_doc)) is Some
                && header_matches(l, fields_of(normalize(header_doc))->0));
            assert(l.entries@ == sort_entries(es));
        }
    }
    Ok(r)
}

/// `p` is a path of an entry of the directory `dir`.
pub open spec fn is_child_path(dir: Seq<char>, p: Seq<char>) -> bool {
    exists|name: Seq<char>| p == dir + "/"@ + name
}

/// The questlines of the directory `dir`, one per subdirectory with a
/// header, in listing order, each with the path `dir/<name>` of its
/// directory. Nothing when `dir` is not a directory. Questlines that share an
/// id are all returned: `build_database` rejects them, naming the path of the
/// later one.
pub fn parse_questlines_dir_from_source<S: QuestDataSource>(source: &S, dir: &str) -> (r: Result<
    (Vec<QuestLine>, Vec<String>),
    ParseError,
>)
    ensures
        r is Ok ==> r->Ok_0.0.len() == r->Ok_0.1.len(),
        r is Ok ==> forall|l: int|
            0 <= l < r->Ok_0.1@.len() ==> is_child_path(dir@, (#[trigger] r->Ok_0.1@[l])@),
        r is Ok ==> forall|l: int|
            0 <= l < r->Ok_0.0@.len() ==> is_loaded_line(#[trigger] r->Ok_0.0@[l])
                && entries_ascending(r->Ok_0.0@[l].entries@),
{
    let mut lines: Vec<QuestLine> = Vec::new();
    let mut paths: Vec<String> = Vec::new();
    if !source.is_dir(dir) {
        assert(paths@.len() == 0);
        return Ok((lines, paths));
    }
    let names = match source.list_dir(dir) {
        Ok(n) => n,
        Err(e) => return Err(e),
    };
    let mut i: usize = 0;
    while i < names.len()
        invariant
            lines.len() == paths.len(),
            forall|l: int| 0 <= l < paths@.len() ==> is_child_path(dir@, (#[trigger] paths@[l])@),
            forall|l: int|
                0 <= l < lines@.len() ==> is_loaded_line(#[trigger] lines@[l]) && entries_ascending(
                    lines@[l].entries@,
                ),
        decreases names.len() - i,
    {
        let p = join_path(dir, names[i].as_str());
        if source.is_dir(p.as_str()) {
            match parse_questline_dir_from_source(source, p.as_str()) {
                Ok(Some(line)) => {
                    let ghost before = lines@;
                    let ghost paths_before = paths@;
                    let ghost name = names[i as int]@;
                    lines.push(line);
                    paths.push(p);
                    assert(is_child_path(dir@, paths@[paths@.len() - 1]@)) by {
                        assert(paths@[paths@.len() - 1]@ == dir@ + "/"@ + name);
                    }
                    assert forall|l: int| 0 <= l < paths@.len() implies is_child_path(
                        dir@,
                        (#[trigger] paths@[l])@,
                    ) by {
                        if l < paths_before.len() {
                            assert(paths@[l] == paths_before[l]);
                        }
                    }
                    assert forall|l: int| 0 <= l < lines@.len() implies is_loaded_line(
                        #[trigger] lines@[l],
                    ) && entries_ascending(lines@[l].entries@) by {
                        if l < before.len() {
                            assert(lines@[l] == before[l]);
                        }
                    }
                },
                Ok(None) => {},
                Err(e) => return Err(e),
            }
        }
        i = i + 1;
    }
    Ok((lines, paths))
}

/// `q` is what some quest document describes.
#[verifier::opaque]
pub open spec fn is_loaded_quest(q: Quest) -> bool {
    exists|top: Fields| quest_matches(q, top)
}

/// The database of the export rooted at `root`, read through `source`.
///
/// Fails with `InvalidFormat` when `root` is not a directory, with the
/// source's own error when a read fails, with `Json` on malformed text, and
/// as `build_database` says when ids collide or references dangle: every
/// file is read before those checks.
pub fn parse_default_quests_dir_from_source<S: QuestDataSource>(source: &S, root: &str) -> (r:
    Result<QuestDatabase, ParseError>)
    ensures
        r is Ok ==> database_wf(r->Ok_0),
        r is Ok ==> forall|i: int|
            0 <= i < r->Ok_0.quests@.len() ==> is_loaded_quest(#[trigger] r->Ok_0.quests@[i]),
        r is Ok ==> forall|l: int|
            0 <= l < r->Ok_0.questlines@.len() ==> is_loaded_line(#[trigger] r->Ok_0.questlines@[l]),
        r is Ok && r->Ok_0.settings is Some ==> is_loaded_settings(r->Ok_0.settings->0),
{
    if !source.is_dir(root) {
        let mut msg = "not a dir: ".to_owned();
        msg.append(root);
        return Err(ParseError::InvalidFormat(msg));
    }
    let mut settings: Option<QuestSettings> = None;
    let json_name = join_path(root, "QuestSettings.json");
    let bare_name = join_path(root, "QuestSettings");
    if source.is_file(json_name.as_str()) {
        match parse_settings_file_from_source(source, json_name.as_str()) {
            Ok(s) => {
                settings = Some(s);
            },
            Err(e) => return Err(e),
        }
    } else if source.is_file(bare_name.as_str()) {
        match parse_settings_file_from_source(source, bare_name.as_str()) {
            Ok(s) => {
                settings = Some(s);
            },
            Err(e) => return Err(e),
        }
    }
    let mut quests: Vec<Quest> = Vec::new();
    let mut quest_paths: Vec<String> = Vec::new();
    let quests_dir = join_path(root, "Quests");
    if source.is_dir(quests_dir.as_str()) {
        let names = match source.list_dir(quests_dir.as_str()) {
            Ok(n) => n,
            Err(e) => return Err(e),
        };
        let mut i: usize = 0;
        while i < names.len()
            invariant
                quests.len() == quest_paths.len(),
                forall|k: int| 0 <= k < quests@.len() ==> is_loaded_quest(#[trigger] quests@[k]),
            decreases names.len() - i,
        {
            let p = join_path(quests_dir.as_str(), names[i].as_str());
            if is_json_name(p.as_str()) && source.is_file(p.as_str()) {
                let text = match source.read_to_string(p.as_str()) {
                    Ok(t) => t,
                    Err(e) => return Err(e),
                };
                let quest = match parse_quest_from_str(text.as_str()) {
                    Ok(q) => q,
                    Err(e) => return Err(e),
                };
                proof {
                    let witness = fields_of(normalize(json_of_text(text@)->0))->0;
                    assert(quest_matches(quest, witness));
                    reveal(is_loaded_quest);
                }
                let ghost before = quests@;
                quests.push(quest);
                assert forall|k: int| 0 <= k < quests@.len() implies is_loaded_quest(
                    #[trigger] quests@[k],
                ) by {
                    if k < before.len() {
                        assert(quests@[k] == before[k]);
                    }
                }
                quest_paths.push(p);
            }
            i = i + 1;
        }
    }
    let lines_dir = join_path(root, "QuestLines");
    let (lines, line_paths) = match parse_questlines_dir_from_source(source, lines_dir.as_str()) {
        Ok(x) => x,
        Err(e) => return Err(e),
    };
    build_database(settings, quests, quest_paths, lines, line_paths)
}

} // verus!
