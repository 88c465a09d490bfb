//! A verified localisation-data synchronisation pipeline.
//!
//! The library keeps a queryable local store in step with an upstream
//! bilingual content snapshot: each fetched record is decomposed into one
//! projection per language ("de" and "en"), and the projections are written
//! into a per-language keyed collection with idempotent upsert semantics and
//! well-defined failure behaviour.

pub mod calendar;
pub mod decompose;
pub mod models;
pub mod record;
pub mod status;
pub mod store;
pub mod sync;
pub mod tokens;
pub mod value;
