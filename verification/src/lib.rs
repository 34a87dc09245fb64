//! A bookmark store for project directories: named aliases for canonical
//! paths, kept sorted and unique, persisted as one small JSON file, with the
//! lookup, listing, insertion and removal logic behind the command handlers.
pub mod json;
pub mod ops;
pub mod store;
pub mod text;
