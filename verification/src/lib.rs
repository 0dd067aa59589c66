//! Incremental JSON parsing for chunked drawing-event uploads, plus the
//! surrounding pure logic of the scene server: the lsmv movie writer, a
//! PNG encoder, the last-writer-wins pixel store, and scene id scrambling.
pub mod auth;
pub mod bytesource;
pub mod cors;
pub mod decimal;
pub mod error;
pub mod events;
pub mod image;
pub mod json;
pub mod lsmv;
pub mod png;
pub mod scene;
pub mod scenes;
pub mod stream;
pub mod utf8;

