use better_questing_tools::{map_to_array_if_numeric, normalize_value, parse_json, JsonValue};

fn json(text: &str) -> JsonValue {
    parse_json(text).expect("well-formed JSON")
}

fn object_has_key(v: &JsonValue, key: &str) -> bool {
    match v {
        JsonValue::Object(fields) => fields.iter().any(|(k, _)| k == key),
        _ => false,
    }
}

fn render(v: &JsonValue) -> String {
    match v {
        JsonValue::Null => "null".to_string(),
        JsonValue::Bool(b) => b.to_string(),
        JsonValue::Int(n) => n.to_string(),
        JsonValue::UInt(n) => n.to_string(),
        JsonValue::Float(t) => t.clone(),
        JsonValue::Str(s) => format!("{:?}", s),
        JsonValue::Array(items) => {
            let parts: Vec<String> = items.iter().map(render).collect();
            format!("[{}]", parts.join(","))
        }
        JsonValue::Object(fields) => {
            let parts: Vec<String> =
                fields.iter().map(|(k, x)| format!("{:?}:{}", k, render(x))).collect();
            format!("{{{}}}", parts.join(","))
        }
    }
}

#[test]
fn strip_suffix_and_array_conversion() {
    let v = json(r#"{ "0:10": { "id:8": "foo" }, "1:10": { "id:8": "bar" } }"#);
    let norm = normalize_value(v);
    let arr = match &norm {
        JsonValue::Array(items) => items,
        other => panic!("expected an array, got {}", render(other)),
    };
    assert_eq!(arr.len(), 2);
    assert!(object_has_key(&arr[0], "id"));
    assert!(object_has_key(&arr[1], "id"));
    assert_eq!(render(&norm), r#"[{"id":"foo"},{"id":"bar"}]"#);
}

#[test]
fn collision_merge_into_array() {
    let norm = normalize_value(json(r#"{"a:8":1, "a:10":2}"#));
    assert_eq!(render(&norm), r#"{"a":[1,2]}"#);
}

#[test]
fn collision_appends_to_existing_array() {
    let norm = normalize_value(json(r#"{"a:8":[1], "a:9":2, "b":3}"#));
    assert_eq!(render(&norm), r#"{"a":[1,2],"b":3}"#);
}

#[test]
fn strips_only_last_tag() {
    let norm = normalize_value(json(r#"{"foo:bar:8": 1, "plain": true}"#));
    assert_eq!(render(&norm), r#"{"foo:bar":1,"plain":true}"#);
}

#[test]
fn numeric_map_ordered_by_index_with_gaps() {
    let norm = normalize_value(json(r#"{"10": "c", "2:3": "b", "0": "a"}"#));
    assert_eq!(render(&norm), r#"["a","b","c"]"#);
}

#[test]
fn mixed_keys_stay_an_object() {
    let norm = normalize_value(json(r#"{"0": 1, "x": 2}"#));
    assert_eq!(render(&norm), r#"{"0":1,"x":2}"#);
}

#[test]
fn empty_object_and_scalars_unchanged() {
    assert_eq!(render(&normalize_value(json("{}"))), "{}");
    assert_eq!(render(&normalize_value(json("5"))), "5");
    assert_eq!(render(&normalize_value(json(r#""s:1""#))), r#""s:1""#);
    assert_eq!(render(&normalize_value(json("[{\"k:1\": null}]"))), r#"[{"k":null}]"#);
}

#[test]
fn normalizing_twice_changes_nothing() {
    let text = r#"{"q:10": {"0:10": {"id:8": 1}, "1:10": {"id:8": 2}}, "a:8": 1, "a:10": {"b:3": [1, {"c:1": 2}]}, "7": 0.5}"#;
    let once = normalize_value(json(text));
    let once_text = render(&once);
    let twice = normalize_value(once);
    assert_eq!(render(&twice), once_text);
}

#[test]
fn map_to_array_requires_index_keys() {
    let v = json(r#"{"1": "b", "0": "a"}"#);
    let fields = match &v {
        JsonValue::Object(f) => f,
        _ => panic!("object expected"),
    };
    let arr = map_to_array_if_numeric(fields).expect("array");
    assert_eq!(render(&JsonValue::Array(arr)), r#"["a","b"]"#);
    let w = json(r#"{"1": "b", "x": "a"}"#);
    match &w {
        JsonValue::Object(f) => assert!(map_to_array_if_numeric(f).is_none()),
        _ => panic!("object expected"),
    }
    assert!(map_to_array_if_numeric(&Vec::new()).is_none());
}

#[test]
fn json_text_numbers_and_errors() {
    assert_eq!(render(&json("[1, -2, 18446744073709551615, 6.0, true, null]")), "[1,-2,18446744073709551615,6.0,true,null]");
    assert!(parse_json("{\"a\": ").is_err());
    assert!(parse_json("").is_err());
}

#[test]
fn plus_signed_index_keys_are_indices() {
    assert_eq!(render(&normalize_value(json(r#"{"+0": 5}"#))), "[5]");
    let v = json(r#"{"+1": 5}"#);
    match &v {
        JsonValue::Object(f) => {
            let arr = map_to_array_if_numeric(f).expect("array");
            assert_eq!(render(&JsonValue::Array(arr)), "[5]");
        }
        _ => panic!("object expected"),
    }
    assert_eq!(render(&normalize_value(json(r#"{"+": 5}"#))), r#"{"+":5}"#);
    assert_eq!(render(&normalize_value(json(r#"{"-1": 5}"#))), r#"{"-1":5}"#);
}

#[test]
fn repeated_indices_keep_the_last_value() {
    let v = json(r#"{"1": "a", "0": "z", "01": "b"}"#);
    match &v {
        JsonValue::Object(f) => {
            let arr = map_to_array_if_numeric(f).expect("array");
            assert_eq!(render(&JsonValue::Array(arr)), r#"["z","b"]"#);
        }
        _ => panic!("object expected"),
    }
    assert_eq!(render(&normalize_value(v)), r#"["z","a","b"]"#);
}
