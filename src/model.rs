//! The typed quest model that loading produces.
use vstd::prelude::*;
use crate::json::JsonValue;
use crate::quest_id::QuestId;

verus! {

/// An item reference in a task, a reward or an icon.
#[derive(Debug)]
pub struct ItemStack {
    /// Namespaced item id, such as `minecraft:stone`.
    pub id: String,
    pub damage: Option<i32>,
    pub count: Option<i32>,
    pub oredict: Option<String>,
    /// The fields not modelled above, in source order.
    pub extra: Vec<(String, JsonValue)>,
}

/// One task of a quest.
#[derive(Debug)]
pub struct Task {
    /// Position within the quest's task list.
    pub index: Option<usize>,
    /// Kind of task, never empty.
    pub task_id: String,
    pub required_items: Vec<ItemStack>,
    pub ignore_nbt: Option<bool>,
    pub partial_match: Option<bool>,
    pub auto_consume: Option<bool>,
    pub consume: Option<bool>,
    pub group_detect: Option<bool>,
    /// The fields not modelled above, in source order.
    pub options: Vec<(String, JsonValue)>,
}

/// One reward of a quest.
#[derive(Debug)]
pub struct Reward {
    /// Position within the quest's reward list.
    pub index: Option<usize>,
    /// Kind of reward, never empty.
    pub reward_id: String,
    pub items: Vec<ItemStack>,
    pub choices: Vec<ItemStack>,
    pub ignore_disabled: Option<bool>,
    /// The fields not modelled above, in source order.
    pub extra: Vec<(String, JsonValue)>,
}

/// The displayed properties of a quest or questline.
#[derive(Debug)]
pub struct QuestProperties {
    pub name: String,
    pub desc: Option<String>,
    pub icon: Option<ItemStack>,
    pub is_main: Option<bool>,
    pub is_silent: Option<bool>,
    pub auto_claim: Option<bool>,
    pub global_share: Option<bool>,
    pub is_global: Option<bool>,
    pub locked_progress: Option<i32>,
    pub repeat_time: Option<i32>,
    pub repeat_relative: Option<bool>,
    pub simultaneous: Option<bool>,
    pub party_single_reward: Option<bool>,
    pub quest_logic: Option<String>,
    pub task_logic: Option<String>,
    pub visibility: Option<String>,
    pub snd_complete: Option<String>,
    pub snd_update: Option<String>,
    /// The fields not modelled above, in source order.
    pub extra: Vec<(String, JsonValue)>,
}

/// A quest.
#[derive(Debug)]
pub struct Quest {
    pub id: QuestId,
    pub properties: Option<QuestProperties>,
    pub tasks: Vec<Task>,
    pub rewards: Vec<Reward>,
    /// The same list as `required_prerequisites` once loaded.
    pub prerequisites: Vec<QuestId>,
    /// Prerequisites that must all be completed.
    pub required_prerequisites: Vec<QuestId>,
    /// Prerequisites of which one suffices.
    pub optional_prerequisites: Vec<QuestId>,
}

/// The placement of one quest on a questline.
#[derive(Debug)]
pub struct QuestLineEntry {
    pub index: Option<usize>,
    pub quest_id: QuestId,
    pub x: Option<i32>,
    pub y: Option<i32>,
    pub size_x: Option<i32>,
    pub size_y: Option<i32>,
    pub extra: Vec<(String, JsonValue)>,
}

/// A questline: a titled layout of quests.
#[derive(Debug)]
pub struct QuestLine {
    pub id: QuestId,
    pub properties: Option<QuestProperties>,
    /// Entries in ascending order of quest id.
    pub entries: Vec<QuestLineEntry>,
    pub extra: Vec<(String, JsonValue)>,
}

/// Global settings of an export.
#[derive(Debug)]
pub struct QuestSettings {
    pub version: Option<String>,
    /// Every other setting, in source order.
    pub extra: Vec<(String, JsonValue)>,
}

/// A whole loaded export.
#[derive(Debug)]
pub struct QuestDatabase {
    pub settings: Option<QuestSettings>,
    /// The quests, with pairwise distinct ids.
    pub quests: Vec<Quest>,
    /// The questlines, with pairwise distinct ids.
    pub questlines: Vec<QuestLine>,
    /// The questline ids, in presentation order.
    pub questline_order: Vec<QuestId>,
}

/// The ids of `qs`, one for one.
pub open spec fn ids_of(qs: Seq<QuestId>) -> Seq<u64> {
    qs.map_values(|q: QuestId| q@)
}

/// The ids of the quests of `quests`, one for one.
pub open spec fn quest_ids(quests: Seq<Quest>) -> Seq<u64> {
    quests.map_values(|q: Quest| q.id@)
}

impl QuestDatabase {
    /// Whether a quest with id `id` was loaded.
    pub fn contains_quest(&self, id: QuestId) -> (r: bool)
        ensures
            r == quest_ids(self.quests@).contains(id@),
    {
        crate::db::contains_quest_id(&self.quests, id)
    }

    /// The quest with id `id`, if one was loaded.
    pub fn get_quest(&self, id: QuestId) -> (r: Option<&Quest>)
        ensures
            r is Some <==> quest_ids(self.quests@).contains(id@),
            r is Some ==> r->0.id@ == id@,
    {
        let mut i: usize = 0;
        while i < self.quests.len()
            invariant
                i <= self.quests.len(),
                forall|j: int| 0 <= j < i ==> (#[trigger] self.quests[j]).id@ != id@,
            decreases self.quests.len() - i,
        {
            if self.quests[i].id.as_u64() == id.as_u64() {
                assert(quest_ids(self.quests@)[i as int] == id@);
                return Some(&self.quests[i]);
            }
            i = i + 1;
        }
        proof {
            if quest_ids(self.quests@).contains(id@) {
                let j = choose|j: int|
                    0 <= j < quest_ids(self.quests@).len() && quest_ids(self.quests@)[j] == id@;
                assert(self.quests[j].id@ == id@);
            }
        }
        None
    }
}

} // verus!
