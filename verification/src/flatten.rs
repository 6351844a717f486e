//! Flattening: a composed stage written out as one layer, with a report of
//! how.

pub mod again;
pub mod anchored;
pub mod check;
pub mod copy;
pub mod prims;
pub mod properties;
pub mod prototypes;
pub mod reading;
pub mod report;
pub mod seen;
pub mod sound;
pub mod values;
pub mod verify;
pub mod whole;
pub mod words;
