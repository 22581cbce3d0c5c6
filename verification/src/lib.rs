//! Consolidation of directed travel segments.
//!
//! A request body is read into `(origin, destination)` segments, chains of
//! segments that share endpoints are collapsed into single segments, and the
//! result is written out as JSON.
//!
//! - [`segment`]: the segment itself.
//! - [`tokenizer`]: reading segments out of a body.
//! - [`wire`]: the body format from the writer's side, and the round trip.
//! - [`consolidator`]: collapsing chains.
//! - [`json`]: the text of a result.
//! - [`handler`]: answering a request, stage by stage.
//! - [`config`]: what the service is set up with.
//! - [`text`]: what is assumed of the standard library's UTF-8 decoder.

pub mod config;
pub mod consolidator;
pub mod handler;
pub mod json;
pub mod segment;
pub mod text;
pub mod tokenizer;
pub mod wire;
