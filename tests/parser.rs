use better_questing_tools::parser::{parse_item, parse_rewards, parse_tasks};
use better_questing_tools::{
    normalize_value, parse_json, parse_properties, parse_quest_from_str, parse_quest_from_value,
    JsonValue, ParseError, QuestId,
};

fn json(text: &str) -> JsonValue {
    parse_json(text).expect("well-formed JSON")
}

#[test]
fn parse_tasks_array_and_numeric() {
    let tasks_val = json(
        r#"[
            {
                "taskID": "bq_standard:retrieval",
                "requiredItems": [
                    {"id": "minecraft:iron_ingot", "Damage": 0, "Count": 1}
                ],
                "ignoreNBT": 0,
                "partialMatch": 1
            }
        ]"#,
    );
    let tasks = parse_tasks(Some(&tasks_val));
    assert_eq!(tasks.len(), 1);
    let t = &tasks[0];
    assert_eq!(t.task_id, "bq_standard:retrieval");
    assert_eq!(t.required_items.len(), 1);
    assert_eq!(t.required_items[0].id, "minecraft:iron_ingot");
    assert_eq!(t.ignore_nbt, Some(false));
    assert_eq!(t.partial_match, Some(true));

    let tasks_obj = json(
        r#"{
            "0": {
                "taskID": "bq_standard:retrieval",
                "requiredItems": {"0": {"id": "mod:item", "Count": 2}}
            }
        }"#,
    );
    let tasks2 = parse_tasks(Some(&tasks_obj));
    assert_eq!(tasks2.len(), 1);
    assert_eq!(tasks2[0].required_items.len(), 1);
    assert_eq!(tasks2[0].required_items[0].id, "mod:item");
}

#[test]
fn parse_rewards_array_and_numeric() {
    let rewards_val = json(
        r#"[
            {
                "rewardID": "bq_standard:item",
                "items": [
                    {"id": "minecraft:nether_star", "Count": 4}
                ],
                "ignoreDisabled": 0
            }
        ]"#,
    );
    let rewards = parse_rewards(Some(&rewards_val));
    assert_eq!(rewards.len(), 1);
    assert_eq!(rewards[0].reward_id, "bq_standard:item");
    assert_eq!(rewards[0].items.len(), 1);
    assert_eq!(rewards[0].items[0].id, "minecraft:nether_star");

    let rewards_obj = json(
        r#"{
            "0": {
                "rewardID": "bq_standard:item",
                "items": {"0": {"id": "mod:star", "Count": 1}}
            }
        }"#,
    );
    let rewards2 = parse_rewards(Some(&rewards_obj));
    assert_eq!(rewards2.len(), 1);
    assert_eq!(rewards2[0].items.len(), 1);
    assert_eq!(rewards2[0].items[0].id, "mod:star");
}

#[test]
fn parse_item_with_tag_and_extras() {
    let item = json(
        r#"{
            "id": "Thaumcraft:WandCasting",
            "Count": 1,
            "Damage": 128,
            "tag": {
                "aer": 15000,
                "cap": "thaumium",
                "AttributeModifiers": {"0": {"Amount": 6.0, "AttributeName": "generic.attackDamage"}}
            }
        }"#,
    );
    let parsed = parse_item(&item).expect("parsed item");
    assert_eq!(parsed.id, "Thaumcraft:WandCasting");
    assert_eq!(parsed.count, Some(1));
    assert_eq!(parsed.damage, Some(128));
    assert!(parsed.extra.iter().any(|(k, _)| k == "tag"));
}

#[test]
fn item_field_spellings_and_defaults() {
    let item = json(r#"{"id": "a:b", "damage": 3, "count": "7", "oreDict": "ingotIron", "x": 1}"#);
    let parsed = parse_item(&item).expect("item");
    assert_eq!(parsed.damage, Some(3));
    assert_eq!(parsed.count, Some(7));
    assert_eq!(parsed.oredict.as_deref(), Some("ingotIron"));
    assert_eq!(parsed.extra.len(), 1);
    assert!(parse_item(&json(r#"{"Count": 1}"#)).is_none());
    assert!(parse_item(&json("3")).is_none());
}

#[test]
fn task_list_skips_entries_without_id_and_keeps_positions() {
    let v = json(r#"[{"x": 1}, {"taskId": "t:b", "consume": "1", "extraOpt": 5}, {"task": ""}]"#);
    let tasks = parse_tasks(Some(&v));
    assert_eq!(tasks.len(), 1);
    assert_eq!(tasks[0].index, Some(1));
    assert_eq!(tasks[0].consume, Some(true));
    assert_eq!(tasks[0].options.len(), 1);
    assert_eq!(tasks[0].options[0].0, "extraOpt");
}

#[test]
fn single_task_object_has_no_index() {
    let v = json(r#"{"taskID": "t:a", "ignore_nbt": true}"#);
    let tasks = parse_tasks(Some(&v));
    assert_eq!(tasks.len(), 1);
    assert_eq!(tasks[0].index, None);
    assert_eq!(tasks[0].ignore_nbt, Some(true));
    assert!(parse_tasks(None).is_empty());
}

#[test]
fn properties_extraction_from_wrapped_block() {
    let doc = json(r#"{"questIDHigh:3": 0, "questIDLow:3": 5, "properties:10": {"betterquesting:10": {"name:8": "N"}}}"#);
    let q = parse_quest_from_value(&normalize_value(doc)).expect("quest");
    assert_eq!(q.properties.as_ref().expect("properties").name, "N");
    assert_eq!(q.id, QuestId::from_parts(0, 5));
}

#[test]
fn boolean_coercion_of_flags() {
    let from_int = parse_properties(&json(r#"{"name": "x", "isMain": 1}"#)).expect("ok").expect("some");
    assert_eq!(from_int.is_main, Some(true));
    let from_text = parse_properties(&json(r#"{"name": "x", "isMain": "0"}"#)).expect("ok").expect("some");
    assert_eq!(from_text.is_main, Some(false));
    let unknown = parse_properties(&json(r#"{"name": "x", "isMain": "yes", "isSilent": false}"#))
        .expect("ok")
        .expect("some");
    assert_eq!(unknown.is_main, None);
    assert_eq!(unknown.is_silent, Some(false));
}

#[test]
fn properties_need_a_name() {
    match parse_properties(&json(r#"{"desc": "no name"}"#)) {
        Err(ParseError::InvalidFormat(_)) => {}
        other => panic!("unexpected: {:?}", other),
    }
    assert!(parse_properties(&json("[1]")).expect("ok").is_none());
}

#[test]
fn quest_without_name_is_invalid() {
    match parse_quest_from_str(r#"{"questIDLow": 1, "properties": {"betterquesting": {}}}"#) {
        Err(ParseError::InvalidFormat(_)) => {}
        other => panic!("unexpected: {:?}", other),
    }
    match parse_quest_from_str("[1, 2]") {
        Err(ParseError::InvalidFormat(_)) => {}
        other => panic!("unexpected: {:?}", other),
    }
    match parse_quest_from_str("{not json") {
        Err(ParseError::Json(_)) => {}
        other => panic!("unexpected: {:?}", other),
    }
}

#[test]
fn quest_ids_accept_numeric_strings() {
    let q = parse_quest_from_str(r#"{"questIDHigh": "-1", "questIDLow": "+7", "name": "top"}"#)
        .expect("quest");
    assert_eq!(q.id, QuestId::from_parts(-1, 7));
    assert_eq!(q.properties.expect("properties").name, "top");
}

#[test]
fn prerequisites_split_by_optional_list() {
    let q = parse_quest_from_str(
        r#"{"name": "q",
            "preRequisites": [{"questIDLow": 1}, {"questIDLow": 2}, {"questIDLow": 3}],
            "optionalPreRequisites": {"0:10": {"questIDLow:3": 2}}}"#,
    )
    .expect("quest");
    let req: Vec<u64> = q.required_prerequisites.iter().map(|x| x.as_u64()).collect();
    let opt: Vec<u64> = q.optional_prerequisites.iter().map(|x| x.as_u64()).collect();
    assert_eq!(req, vec![1, 3]);
    assert_eq!(opt, vec![2]);
    assert_eq!(q.prerequisites, q.required_prerequisites);
}

#[test]
fn or_logic_makes_all_prerequisites_optional() {
    let q = parse_quest_from_str(
        r#"{"properties": {"betterquesting": {"name": "q", "questLogic": "one_of"}},
            "preRequisites": [{"questIDLow": 1}, {"questIDLow": 2}]}"#,
    )
    .expect("quest");
    assert!(q.required_prerequisites.is_empty());
    assert_eq!(q.optional_prerequisites.len(), 2);
    let plain = parse_quest_from_str(
        r#"{"properties": {"betterquesting": {"name": "q", "questLogic": "AND"}},
            "preRequisites": [{"questIDLow": 1}]}"#,
    )
    .expect("quest");
    assert_eq!(plain.required_prerequisites.len(), 1);
    assert!(plain.optional_prerequisites.is_empty());
}

#[test]
fn numeric_text_accepted_in_integer_properties() {
    let p = parse_properties(&json(
        r#"{"name": "N", "isMain": true, "isSilent": 0, "autoClaim": "1", "lockedProgress": "5", "repeatTime": 20}"#,
    ))
    .expect("ok")
    .expect("some");
    assert_eq!(p.is_main, Some(true));
    assert_eq!(p.is_silent, Some(false));
    assert_eq!(p.auto_claim, Some(true));
    assert_eq!(p.locked_progress, Some(5));
    assert_eq!(p.repeat_time, Some(20));
    let item = parse_item(&json(r#"{"id": "a:b", "Damage": "-3"}"#)).expect("item");
    assert_eq!(item.damage, Some(-3));
}
