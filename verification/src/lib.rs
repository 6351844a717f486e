//! A composition kernel for layered scene description.

use vstd::prelude::*;

pub mod array_edits;
pub mod arrays;
pub mod composition_error;
pub mod dependency_map;
pub mod dictionary;
pub mod doc;
pub mod fields;
pub mod flatten;
pub mod id_map;
pub mod interner;
pub mod interpolation;
pub mod layer;
pub mod leaves;
pub mod lists;
pub mod names;
pub mod opinion;
pub mod order;
pub mod path;
pub mod prim_index;
pub mod prim_index_graph;
pub mod property;
pub mod relocates;
pub mod resolution;
pub mod room;
pub mod schema;
pub mod series;
pub mod sorting;
pub mod spec_path;
pub mod stage;
pub mod stage_time;
pub mod text;
pub mod times;
pub mod value_series;
pub mod variable_expression;
pub mod variant_fallbacks;

verus! {

} // verus!
