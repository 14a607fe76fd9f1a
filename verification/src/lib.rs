//! An entity/component storage and query engine.
//!
//! Entities are plain integer identifiers. The data attached to them lives in
//! per-kind stores with dense value arrays, and systems ask for the entities
//! that carry a given combination of kinds. Every operation carries a contract
//! over a mathematical model of the state, and every contract is proved.

pub mod entity;
pub mod component_manager;
pub mod split;
pub mod registry;
pub mod entity_manager;
pub mod query_cache;
pub mod system;
pub mod world;
