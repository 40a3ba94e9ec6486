//! Search-and-replace front end over a line-oriented search tool: argument
//! rewriting, decoding and grouping of the tool's event stream, the replace
//! engine and the unified-diff renderer.

pub mod args;
pub mod diff;
pub mod event;
pub mod group;
pub mod inplace;
pub mod json;
pub mod plan;
pub mod render;
pub mod replace;
