use better_questing_tools::db::{assemble_questline, is_entry_file_name, parse_questline_entry_value};
use better_questing_tools::{
    build_database, parse_default_quests_dir_from_source, parse_json, parse_settings_value,
    ParseError, QuestDataSource, QuestId,
};

/// An in-memory tree of directories and files.
struct MemSource {
    dirs: Vec<String>,
    files: Vec<(String, String)>,
}

impl MemSource {
    fn new() -> Self {
        MemSource { dirs: Vec::new(), files: Vec::new() }
    }

    fn dir(mut self, path: &str) -> Self {
        self.dirs.push(path.to_string());
        self
    }

    fn file(mut self, path: &str, text: &str) -> Self {
        self.files.push((path.to_string(), text.to_string()));
        self
    }
}

impl QuestDataSource for MemSource {
    fn list_dir(&self, path: &str) -> Result<Vec<String>, ParseError> {
        let prefix = format!("{}/", path);
        let mut names: Vec<String> = Vec::new();
        for d in &self.dirs {
            if let Some(rest) = d.strip_prefix(&prefix) {
                if !rest.contains('/') {
                    names.push(rest.to_string());
                }
            }
        }
        for (f, _) in &self.files {
            if let Some(rest) = f.strip_prefix(&prefix) {
                if !rest.contains('/') {
                    names.push(rest.to_string());
                }
            }
        }
        Ok(names)
    }

    fn is_dir(&self, path: &str) -> bool {
        self.dirs.iter().any(|d| d == path)
    }

    fn is_file(&self, path: &str) -> bool {
        self.files.iter().any(|(f, _)| f == path)
    }

    fn read_to_string(&self, path: &str) -> Result<String, ParseError> {
        match self.files.iter().find(|(f, _)| f == path) {
            Some((_, t)) => Ok(t.clone()),
            None => Err(ParseError::Io(format!("no such file: {}", path))),
        }
    }
}

const QUEST_ONE: &str = r#"{
    "questIDHigh:4": 0,
    "questIDLow:4": 1,
    "properties:10": {"betterquesting:10": {"name:8": "Test Quest"}}
}"#;

#[test]
fn parse_default_quests_dir_success() {
    let src = MemSource::new()
        .dir("DefaultQuests")
        .dir("DefaultQuests/Quests")
        .dir("DefaultQuests/QuestLines")
        .dir("DefaultQuests/QuestLines/Line1")
        .file("DefaultQuests/Quests/quest1.json", QUEST_ONE)
        .file(
            "DefaultQuests/QuestLines/Line1/QuestLine.json",
            r#"{
               "properties:10": {"betterquesting:10": {"name:8": "Line1"}},
               "questLineIDHigh:4": 0,
               "questLineIDLow:4": 100
            }"#,
        )
        .file(
            "DefaultQuests/QuestLines/Line1/entry1.json",
            r#"{
                "questIDHigh:4": 0,
                "questIDLow:4": 1,
                "x:3": 10,
                "y:3": 20
            }"#,
        );
    let db = parse_default_quests_dir_from_source(&src, "DefaultQuests").expect("parse db");
    assert!(db.contains_quest(QuestId::from_parts(0, 1)));
    assert!(db.questlines.iter().any(|ql| ql.entries.len() == 1));
    let line = &db.questlines[0];
    assert_eq!(line.id, QuestId::from_parts(0, 100));
    assert_eq!(line.properties.as_ref().expect("line properties").name, "Line1");
    assert_eq!(line.entries[0].x, Some(10));
    assert_eq!(line.entries[0].y, Some(20));
    assert_eq!(db.questline_order, vec![QuestId::from_parts(0, 100)]);
}

#[test]
fn parse_default_quests_dir_missing_reference() {
    let src = MemSource::new()
        .dir("DefaultQuests")
        .dir("DefaultQuests/QuestLines")
        .dir("DefaultQuests/QuestLines/LineA")
        .file(
            "DefaultQuests/QuestLines/LineA/QuestLine.json",
            r#"{
               "properties:10": {"betterquesting:10": {"name:8": "LineA"}},
               "questLineIDHigh:4": 0,
               "questLineIDLow:4": 200
            }"#,
        )
        .file(
            "DefaultQuests/QuestLines/LineA/entry_missing.json",
            r#"{
                "questIDHigh:4": 0,
                "questIDLow:4": 999,
                "x:3": 5,
                "y:3": 6
            }"#,
        );
    let res = parse_default_quests_dir_from_source(&src, "DefaultQuests");
    match res {
        Err(ParseError::MissingQuestReference { questline, quest_id }) => {
            assert_eq!(questline, QuestId::from_parts(0, 200).as_u64());
            assert_eq!(quest_id, QuestId::from_parts(0, 999));
        }
        other => panic!("unexpected result: {:?}", other.err()),
    }
}

#[test]
fn duplicate_quest_ids_are_rejected() {
    let src = MemSource::new()
        .dir("root")
        .dir("root/Quests")
        .file("root/Quests/a.json", QUEST_ONE)
        .file("root/Quests/b.json", QUEST_ONE);
    match parse_default_quests_dir_from_source(&src, "root") {
        Err(ParseError::DuplicateQuestId(path)) => assert_eq!(path, "root/Quests/b.json"),
        other => panic!("unexpected result: {:?}", other.err()),
    }
}

#[test]
fn duplicate_questline_ids_are_rejected() {
    let header = r#"{"questLineIDLow": 3, "properties": {"betterquesting": {"name": "L"}}}"#;
    let src = MemSource::new()
        .dir("root")
        .dir("root/QuestLines")
        .dir("root/QuestLines/A")
        .dir("root/QuestLines/B")
        .file("root/QuestLines/A/QuestLine.json", header)
        .file("root/QuestLines/B/QuestLine.json", header);
    match parse_default_quests_dir_from_source(&src, "root") {
        Err(ParseError::DuplicateQuestId(path)) => assert_eq!(path, "root/QuestLines/B"),
        other => panic!("unexpected result: {:?}", other.err()),
    }
}

#[test]
fn root_must_be_a_directory() {
    let src = MemSource::new();
    match parse_default_quests_dir_from_source(&src, "nowhere") {
        Err(ParseError::InvalidFormat(_)) => {}
        other => panic!("unexpected result: {:?}", other.err()),
    }
}

#[test]
fn malformed_quest_text_fails_the_load() {
    let src = MemSource::new()
        .dir("root")
        .dir("root/Quests")
        .file("root/Quests/a.json", "{ broken")
        .file("root/Quests/notes.txt", "ignored");
    match parse_default_quests_dir_from_source(&src, "root") {
        Err(ParseError::Json(_)) => {}
        other => panic!("unexpected result: {:?}", other.err()),
    }
}

#[test]
fn entries_sorted_and_header_less_dir_ignored() {
    let q = |low: i32| {
        format!(r#"{{"questIDLow": {}, "properties": {{"betterquesting": {{"name": "q"}}}}}}"#, low)
    };
    let src = MemSource::new()
        .dir("root")
        .dir("root/Quests")
        .dir("root/QuestLines")
        .dir("root/QuestLines/L")
        .dir("root/QuestLines/Empty")
        .file("root/Quests/1.json", &q(1))
        .file("root/Quests/2.json", &q(2))
        .file("root/Quests/3.json", &q(3))
        .file("root/QuestLines/L/QuestLine.json", r#"{"questLineIDLow": 9}"#)
        .file("root/QuestLines/L/c.json", r#"{"questIDLow": 3}"#)
        .file("root/QuestLines/L/a.json", r#"{"questIDLow": 1}"#)
        .file("root/QuestLines/L/b.json", r#"{"questIDLow": 2}"#)
        .file("root/QuestLines/Empty/x.json", r#"{"questIDLow": 77}"#)
        .file(
            "root/QuestSettings.json",
            r#"{"properties": {"betterquesting": {"version": "1.2", "editMode": 0}}}"#,
        );
    let db = parse_default_quests_dir_from_source(&src, "root").expect("db");
    assert_eq!(db.quests.len(), 3);
    assert_eq!(db.questlines.len(), 1);
    let ids: Vec<u64> = db.questlines[0].entries.iter().map(|e| e.quest_id.as_u64()).collect();
    assert_eq!(ids, vec![1, 2, 3]);
    assert!(db.questlines[0].properties.is_none());
    let settings = db.settings.expect("settings");
    assert_eq!(settings.version.as_deref(), Some("1.2"));
    assert_eq!(settings.extra.len(), 1);
    assert_eq!(settings.extra[0].0, "editMode");
}

#[test]
fn settings_fallbacks() {
    let s = parse_settings_value(
        &parse_json(r#"{"properties": {"other": {"version": "v", "k": 1}}}"#).unwrap(),
    );
    assert_eq!(s.version.as_deref(), Some("v"));
    assert_eq!(s.extra.len(), 1);
    let top = parse_settings_value(
        &parse_json(r#"{"betterquesting": {"version": "v"}, "version": "w"}"#).unwrap(),
    );
    assert_eq!(top.version.as_deref(), Some("w"));
    assert_eq!(top.extra.len(), 1);
    assert_eq!(top.extra[0].0, "betterquesting");
    let t = parse_settings_value(&parse_json(r#"{"version": 3, "k": 1}"#).unwrap());
    assert_eq!(t.version, None);
    assert_eq!(t.extra.len(), 1);
    let u = parse_settings_value(&parse_json("7").unwrap());
    assert!(u.version.is_none() && u.extra.is_empty());
}

#[test]
fn build_database_reports_first_duplicate_path() {
    let a = better_questing_tools::parse_quest_from_str(r#"{"questIDLow": 1, "name": "a"}"#).unwrap();
    let b = better_questing_tools::parse_quest_from_str(r#"{"questIDLow": 2, "name": "b"}"#).unwrap();
    let c = better_questing_tools::parse_quest_from_str(r#"{"questIDLow": 1, "name": "c"}"#).unwrap();
    let res = build_database(
        None,
        vec![a, b, c],
        vec!["pa".to_string(), "pb".to_string(), "pc".to_string()],
        Vec::new(),
        Vec::new(),
    );
    match res {
        Err(ParseError::DuplicateQuestId(p)) => assert_eq!(p, "pc"),
        other => panic!("unexpected result: {:?}", other.err()),
    }
}

/// A source whose every directory listing fails.
struct DeniedSource;

impl QuestDataSource for DeniedSource {
    fn list_dir(&self, path: &str) -> Result<Vec<String>, ParseError> {
        Err(ParseError::Io(format!("permission denied: {}", path)))
    }

    fn is_dir(&self, _path: &str) -> bool {
        true
    }

    fn is_file(&self, _path: &str) -> bool {
        false
    }

    fn read_to_string(&self, path: &str) -> Result<String, ParseError> {
        Err(ParseError::Io(format!("permission denied: {}", path)))
    }
}

#[test]
fn source_failures_are_reported() {
    match parse_default_quests_dir_from_source(&DeniedSource, "root") {
        Err(ParseError::Io(msg)) => assert!(msg.contains("root/Quests")),
        other => panic!("unexpected result: {:?}", other.err()),
    }
}

#[test]
fn entry_file_names() {
    assert!(is_entry_file_name("a.json"));
    assert!(is_entry_file_name(".json"));
    assert!(!is_entry_file_name("QuestLine.json"));
    assert!(!is_entry_file_name("a.txt"));
    assert!(!is_entry_file_name("json"));
}

#[test]
fn questline_assembly_sorts_entries() {
    let entry = |low: &str| {
        parse_questline_entry_value(parse_json(&format!(r#"{{"questIDLow": {}, "x": 4}}"#, low)).unwrap())
            .expect("entry")
    };
    let entries = vec![entry("3"), entry("1"), entry("2")];
    assert!(assemble_questline(None, Vec::new()).is_none());
    let header = better_questing_tools::db::parse_questline_header_value(
        parse_json(r#"{"questLineIDLow": 9}"#).unwrap(),
    )
    .expect("header");
    let line = assemble_questline(Some(header), entries).expect("line");
    assert_eq!(line.id, QuestId::from_parts(0, 9));
    let ids: Vec<u64> = line.entries.iter().map(|e| e.quest_id.as_u64()).collect();
    assert_eq!(ids, vec![1, 2, 3]);
    assert_eq!(line.entries[0].x, Some(4));
}

#[test]
fn entry_fields_take_numbers_only() {
    let e = parse_questline_entry_value(
        parse_json(r#"{"questIDHigh:3": "1", "questIDLow:3": 7, "x:3": "5", "y:3": -2, "sizeX": 3}"#)
            .unwrap(),
    )
    .expect("entry");
    assert_eq!(e.quest_id, QuestId::from_parts(0, 7));
    assert_eq!(e.x, None);
    assert_eq!(e.y, Some(-2));
    assert_eq!(e.size_x, Some(3));
    assert_eq!(e.size_y, None);
    assert!(parse_questline_entry_value(parse_json("[1]").unwrap()).is_none());
    let h = better_questing_tools::db::parse_questline_header_value(
        parse_json(r#"{"questLineIDHigh": "2", "questLineIDLow": 4}"#).unwrap(),
    )
    .expect("header");
    assert_eq!(h.id, QuestId::from_parts(0, 4));
}
