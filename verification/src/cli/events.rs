//! Display and filtering of engine events in the `events` command.
use vstd::prelude::*;
use crate::events::EngineEvent;
use crate::text::str_eq;

verus! {

/// The room of an event.
pub fn event_room_id(event: &EngineEvent) -> (r: &str)
    ensures
        r@ == event.room(),
{
    match event {
        EngineEvent::MessageNew { room_id, .. } => room_id.as_str(),
        EngineEvent::MessageDeleted { room_id, .. } => room_id.as_str(),
        EngineEvent::RoomMemberJoined { room_id, .. } => room_id.as_str(),
        EngineEvent::RoomMemberLeft { room_id, .. } => room_id.as_str(),
    }
}

/// The one-line text of an event.
pub open spec fn event_line(event: EngineEvent) -> Seq<char> {
    match event {
        EngineEvent::MessageNew { room_id, ref_id, author, .. } =>
            "message.new    "@ + room_id@ + "  "@ + author@ + "  ref="@ + ref_id@,
        EngineEvent::MessageDeleted { room_id, ref_id, author } =>
            "message.delete "@ + room_id@ + "  "@ + author@ + "  ref="@ + ref_id@,
        EngineEvent::RoomMemberJoined { room_id, entity_id } => "room.joined    "@ + room_id@ + "  "@ + entity_id@,
        EngineEvent::RoomMemberLeft { room_id, entity_id } => "room.left      "@ + room_id@ + "  "@ + entity_id@,
    }
}

/// Formats an event as one human-readable line.
pub fn format_event(event: &EngineEvent) -> (s: String)
    ensures
        s@ == event_line(*event),
{
    match event {
        EngineEvent::MessageNew { room_id, ref_id, author, .. } => {
            let mut s = crate::text::concat2("message.new    ", room_id);
            s.append("  ");
            s.append(author);
            s.append("  ref=");
            s.append(ref_id);
            s
        },
        EngineEvent::MessageDeleted { room_id, ref_id, author } => {
            let mut s = crate::text::concat2("message.delete ", room_id);
            s.append("  ");
            s.append(author);
            s.append("  ref=");
            s.append(ref_id);
            s
        },
        EngineEvent::RoomMemberJoined { room_id, entity_id } => {
            let mut s = crate::text::concat2("room.joined    ", room_id);
            s.append("  ");
            s.append(entity_id);
            s
        },
        EngineEvent::RoomMemberLeft { room_id, entity_id } => {
            let mut s = crate::text::concat2("room.left      ", room_id);
            s.append("  ");
            s.append(entity_id);
            s
        },
    }
}

/// Whether the `events` command shows an event: always without a room
/// filter, else only events of that room.
pub fn passes_room_filter(event: &EngineEvent, room_filter: Option<&str>) -> (b: bool)
    ensures
        b == match room_filter {
            None => true,
            Some(room) => event.room() == room@,
        },
{
    match room_filter {
        None => true,
        Some(room) => str_eq(event_room_id(event), room),
    }
}

} // verus!
