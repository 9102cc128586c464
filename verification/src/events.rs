//! Events the engine reports to its subscribers.
use vstd::prelude::*;

verus! {

/// An engine event.
#[derive(Debug, Clone)]
pub enum EngineEvent {
    /// A message was added to a room's timeline.
    MessageNew { room_id: String, ref_id: String, author: String, content_id: String },
    /// A message was withdrawn from a room's timeline.
    MessageDeleted { room_id: String, ref_id: String, author: String },
    /// A member joined a room.
    RoomMemberJoined { room_id: String, entity_id: String },
    /// A member left a room.
    RoomMemberLeft { room_id: String, entity_id: String },
}

impl EngineEvent {
    /// The room the event happened in.
    pub open spec fn room(&self) -> Seq<char> {
        match self {
            EngineEvent::MessageNew { room_id, .. } => room_id@,
            EngineEvent::MessageDeleted { room_id, .. } => room_id@,
            EngineEvent::RoomMemberJoined { room_id, .. } => room_id@,
            EngineEvent::RoomMemberLeft { room_id, .. } => room_id@,
        }
    }
}

} // verus!
