//! Reading of BetterQuesting "DefaultQuests" exports.
//!
//! The library turns the NBT-tagged JSON dialect of the mod into ordinary JSON,
//! loads quests, questlines and settings into a typed, cross-checked database,
//! and builds the weighted prerequisite graph from which importance scores are
//! derived.
pub mod coerce;
pub mod db;
pub mod error;
pub mod graph;
pub mod importance;
pub mod json;
pub mod json_text;
pub mod model;
pub mod normalize;
pub mod parser;
pub mod quest_id;
pub mod text;

pub use crate::db::{
    build_database, parse_default_quests_dir_from_source, parse_quest_from_str,
    parse_settings_value, QuestDataSource,
};
pub use crate::error::ParseError;
pub use crate::importance::{
    dependency_edges, find_prerequisite_cycle, quest_dependencies, DependencyEdge,
};
pub use crate::json_text::parse_json;
pub use crate::normalize::{map_to_array_if_numeric, normalize_value};
pub use crate::parser::{parse_properties, parse_quest_from_value};
pub use crate::json::JsonValue;
pub use crate::model::{
    ItemStack, Quest, QuestDatabase, QuestLine, QuestLineEntry, QuestProperties, QuestSettings,
    Reward, Task,
};
pub use crate::quest_id::QuestId;
