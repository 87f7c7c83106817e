//! A minimal schema-less document store.  Entities are structured,
//! JSON-like records under sortable identifiers, persisted twice: a
//! relational table holds the canonical copy and answers reads and
//! queries, and a directory of human-readable files mirrors it.  The
//! dual-write orchestration, the partial-update merge engine, the
//! identifier codec and both serialized forms live here with their
//! contracts; the embedding program parses arguments, performs the
//! mirror's file operations, and nothing else.

pub mod strings;
pub mod value;
pub mod errors;
pub mod merge;
pub mod ident;
pub mod json;
pub mod yaml;
pub mod model;
pub mod tags;
pub mod sql_storage;
pub mod doc_db;
pub mod pim;
pub mod fake_data_generator;
pub mod admin;
pub mod cli;
