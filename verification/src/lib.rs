//! A sandboxed cache store: relative paths are resolved against a per-application
//! cache root and rejected when they would escape it, and the store's
//! create/read/write/list/delete operations are specified over an explicit
//! model of the files and directories they touch.

pub mod errors;
pub mod path;
pub mod store;
pub mod laws;
