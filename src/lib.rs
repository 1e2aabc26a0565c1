//! The core of a JSON document store: a document model, a path query
//! language over it, a planner for path-addressed writes, per-type document
//! operations, the logic of the document commands, and two serializers.
//!
//! - `value`: documents and their mathematical model.
//! - `path`: navigation paths from the root to a node, and legacy path forms.
//! - `query`, `syntax`: path queries, what they match, and their text form.
//! - `planner`: static paths and the targets of a write.
//! - `ops`: edits at a navigation path.
//! - `commands`, `verbs`: reads over one document and the commands' logic.
//! - `serialize`: JSON text with a layout, and protocol replies.
//! - `access`: read-only accessors for other extensions.

pub mod error;
pub mod text;
pub mod value;
pub mod path;
pub mod query;
pub mod syntax;
pub mod planner;
pub mod ops;
pub mod serialize;
pub mod commands;
pub mod verbs;
pub mod access;
