//! The kinds of failure that loading and analysis report.
use vstd::prelude::*;
use crate::quest_id::QuestId;

verus! {

/// Why a load or an analysis failed.
#[derive(Debug)]
pub enum ParseError {
    /// The text of a file is not well-formed JSON.
    Json(serde_json::Error),
    /// The data source could not list or read a path.
    Io(String),
    /// A structural expectation does not hold.
    InvalidFormat(String),
    /// Two quests, or two questlines, share an id; holds the offending path.
    DuplicateQuestId(String),
    /// A questline entry names a quest that was not loaded.
    MissingQuestReference { questline: u64, quest_id: QuestId },
    /// The prerequisite graph has a directed cycle; holds one of them.
    CycleDetected(Vec<QuestId>),
    /// A failure of no other kind.
    Other(String),
}

} // verus!
