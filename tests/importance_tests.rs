use better_questing_tools::{
    dependency_edges, find_prerequisite_cycle, quest_dependencies, Quest, QuestDatabase, QuestId,
    QuestProperties,
};

fn qid(h: i32, l: i32) -> QuestId {
    QuestId::from_parts(h, l)
}

fn quest(id: QuestId, prereqs: Vec<QuestId>) -> Quest {
    Quest {
        id,
        properties: None,
        tasks: vec![],
        rewards: vec![],
        prerequisites: prereqs.clone(),
        required_prerequisites: prereqs,
        optional_prerequisites: vec![],
    }
}

fn props(logic: &str) -> QuestProperties {
    QuestProperties {
        name: "q".to_string(),
        desc: None,
        icon: None,
        is_main: None,
        is_silent: None,
        auto_claim: None,
        global_share: None,
        is_global: None,
        locked_progress: None,
        repeat_time: None,
        repeat_relative: None,
        simultaneous: None,
        party_single_reward: None,
        quest_logic: Some(logic.to_string()),
        task_logic: None,
        visibility: None,
        snd_complete: None,
        snd_update: None,
        extra: vec![],
    }
}

fn make_db(quests: Vec<Quest>) -> QuestDatabase {
    QuestDatabase { settings: None, quests, questlines: vec![], questline_order: vec![] }
}

#[test]
fn detect_cycle() {
    // A -> B -> C -> A
    let a = qid(0, 1);
    let b = qid(0, 2);
    let c = qid(0, 3);
    let db = make_db(vec![quest(a, vec![c]), quest(b, vec![a]), quest(c, vec![b])]);
    match find_prerequisite_cycle(&db) {
        Some(cycle) => {
            assert!(cycle.iter().any(|q| q.as_u64() == a.as_u64()
                || q.as_u64() == b.as_u64()
                || q.as_u64() == c.as_u64()));
            assert_eq!(cycle, vec![a, c, b]);
        }
        None => panic!("expected cycle error"),
    }
}

#[test]
fn chain_has_no_cycle() {
    let a = qid(0, 1);
    let b = qid(0, 2);
    let c = qid(0, 3);
    let db = make_db(vec![quest(a, vec![]), quest(b, vec![a]), quest(c, vec![b, qid(5, 5)])]);
    assert!(find_prerequisite_cycle(&db).is_none());
    let edges = dependency_edges(&db);
    let pairs: Vec<(u64, u64, usize)> = edges
        .iter()
        .map(|e| (e.prerequisite.as_u64(), e.dependent.as_u64(), e.group_size))
        .collect();
    assert_eq!(pairs, vec![(1, 2, 1), (2, 3, 1), (qid(5, 5).as_u64(), 3, 1)]);
}

#[test]
fn self_prerequisite_is_a_cycle() {
    let a = qid(1, 1);
    let db = make_db(vec![quest(a, vec![a])]);
    assert_eq!(find_prerequisite_cycle(&db), Some(vec![a]));
}

#[test]
fn xor_quest_adds_no_edges() {
    let a = qid(0, 1);
    let b = qid(0, 2);
    let mut x = quest(b, vec![a]);
    x.properties = Some(props("xOr"));
    let mut back = quest(a, vec![b]);
    back.properties = Some(props("AND"));
    let db = make_db(vec![back, x]);
    let edges = dependency_edges(&db);
    assert_eq!(edges.len(), 1);
    assert_eq!(edges[0].dependent, a);
    assert!(find_prerequisite_cycle(&db).is_none());
}

#[test]
fn optional_prerequisites_split_one_unit() {
    let a = qid(0, 1);
    let b = qid(0, 2);
    let c = qid(0, 3);
    let mut q = quest(c, vec![]);
    q.optional_prerequisites = vec![a, b, a];
    let (required, optional) = quest_dependencies(&q);
    assert!(required.is_empty());
    assert_eq!(optional, vec![a, b]);
    let db = make_db(vec![quest(a, vec![]), quest(b, vec![]), q]);
    let edges = dependency_edges(&db);
    assert_eq!(edges.len(), 2);
    assert!(edges.iter().all(|e| e.group_size == 2 && e.dependent == c));
}

#[test]
fn required_list_falls_back_and_dedups() {
    let a = qid(0, 1);
    let b = qid(0, 2);
    let mut q = quest(qid(0, 9), vec![]);
    q.prerequisites = vec![a, a, b];
    q.optional_prerequisites = vec![b, qid(0, 4)];
    let (required, optional) = quest_dependencies(&q);
    assert_eq!(required, vec![a, b]);
    assert_eq!(optional, vec![qid(0, 4)]);
}
