//! Decisions of the command-line client: URI parsing, event display,
//! output formats and exit codes.
pub mod open;
pub mod events;
pub mod output;
pub mod exit_codes;
pub mod messages;
pub mod status;
