//! Grid-space logic of the arena map server: map definitions and their
//! validation, compiled level grids, barrier and light-bridge layout, and
//! the switch state machine driven by pressure plates.

use vstd::prelude::*;

pub mod grid;
pub mod geometry_laws;
pub mod laws;
pub mod lighting;
pub mod floors;
pub mod barriers;
pub mod canon;
pub mod barrier_merge;
pub mod compile;
pub mod bridges;
pub mod edges;
pub mod error;
pub mod ids;
pub mod mask;
pub mod nesting;
pub mod messages;
pub mod plates;
pub mod ramps;
pub mod pressure_switches;
pub mod schema;
pub mod segments;
pub mod switches;
pub mod tables;
pub mod tree;
pub mod validation;

verus! {

} // verus!
