//! Procedural generation of dungeon-style levels on an integer tile grid:
//! rooms are placed, pushed apart, joined into a graph, linked by hallways
//! and finally carved into walls, doors and paths.
//!
//! The stages of a run stand in `generation`, `separation`, `graphing`,
//! `connecting` and `postprocess`; `pipeline` runs them in their order. What
//! is taken on trust about other crates stands in `tile_grid`, `graph_store`,
//! `rng`, `line`, `spacing` and `path_search`.

pub mod room;
pub mod util;
pub mod tile_grid;
pub mod rng;
pub mod spacing;
pub mod aesthetics;
pub mod presets;
pub mod generation;
pub mod separation;
pub mod graph_store;
pub mod path_search;
pub mod graphing;
pub mod line;
pub mod connecting;
pub mod postprocess;
pub mod pipeline;
