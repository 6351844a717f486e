//! Schemas and the prim definitions that they build.

pub mod building;
pub mod definition;
pub mod generated;
pub mod inheritance;
pub mod kinds;
pub mod naming;
pub mod registry;

