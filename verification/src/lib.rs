//! A columnar entity store with a verified optic-based access layer.
//!
//! Records ("archetypes") are stored column by column; a small algebra of
//! optics describes how to reach a value (through nested records, a storage
//! fetch by id, and optional filters), and interpreters lower a declarative
//! field list into id-synchronized access over the columns.

pub mod archetype;
pub mod arena;
pub mod get;
pub mod hashstorage;
pub mod optic;
pub mod query;
pub mod storage;
pub mod value;
