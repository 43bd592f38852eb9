//! The HTTP surface: its grammars, its routes and its answers.
pub mod app;
pub mod backend;
pub mod config;
pub mod counter_laws;
pub mod counters;
pub mod error;
pub mod handlers;
pub mod http;
pub mod ids;
pub mod manifest_json;
pub mod memory;
pub mod memory_laws;
pub mod pagination;
pub mod query;
pub mod query_laws;
pub mod range;
pub mod reference;
pub mod seam;
pub mod step_laws;
pub mod ui;
pub mod wire_laws;
