//! Live co-editing of named documents: the rooms of connections that watch a
//! path, the fan-out of edits among them, and the rules by which documents are
//! saved and loaded.
pub mod registry;
pub mod documents;
pub mod error;
