//! An in-memory store of semantic atoms with synchronized secondary indices
//! (concept, agent, source and time), lineage checks and ranked queries.

pub mod atom;
pub mod index;
pub mod text;
pub mod query;
pub mod store;
pub mod laws;
