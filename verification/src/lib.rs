//! Verified core of a terminal tool for managing replies to pull-request
//! review threads: template expansion, draft persistence, and the
//! decision logic of a paginating, retrying remote-query engine.

pub mod assoc;
pub mod chars;
pub mod client;
pub mod commands;
pub mod context;
pub mod error;
pub mod json;
pub mod store;
pub mod types;
pub mod vars;
