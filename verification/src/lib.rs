//! Engine core of the ezagent protocol bus: datatype registry, dependency
//! resolution, hook pipeline ordering, URI routing, timeline sharding and
//! pagination, annotation rules, extension manifests and the CLI's parsing
//! helpers.
pub mod text;
pub mod error;
pub mod annotation;
pub mod registry;
pub mod json;
pub mod hooks;
pub mod uri_registry;
pub mod ext_api;
pub mod loader;
pub mod sync;
pub mod builtins;
pub mod channels;
pub mod events;
pub mod cli;
pub mod index;
pub mod store;
pub mod engine;
pub mod config;
pub mod backend;
pub mod persistence;
pub mod json_text;
