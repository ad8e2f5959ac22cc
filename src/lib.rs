//! Procedural generation of a chunked 2D tile world.
//!
//! Tiles are chosen by wave function collapse under a declarative adjacency
//! ruleset (a [`schematic::SchematicAsset`]); chunk borders are reconciled by a
//! second "stitching" pass once neighbouring chunks exist.

pub mod components;
pub mod coords;
pub mod entropy;
pub mod lifecycle;
pub mod schematic;
pub mod stitch_laws;
pub mod stitcher;
pub mod wfc;
pub mod wfc_laws;
