//! The built-in datatypes: identity, room, timeline and message.
pub mod identity;
pub mod timeline;
pub mod room;
pub mod message;
