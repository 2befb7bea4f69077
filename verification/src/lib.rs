//! Procedural generation of two-dimensional tile maps by example.
//!
//! An atlas of square pixel patches is learned from a sample image, together
//! with how often each patch occurs and which patches may sit next to each
//! other. A map template is then filled by constraint propagation and
//! frequency-weighted collapse so that every pair of neighbouring cells obeys
//! the learned adjacency rules.

pub mod adjacency;
pub mod algorithm;
pub mod bitset;
pub mod cell;
pub mod chunks;
pub mod clock;
pub mod direction;
pub mod error;
pub mod grid;
pub mod image;
pub mod manifest;
pub mod map;
pub mod map_text;
pub mod neighbour;
pub mod render;
pub mod rng;
pub mod rule_set;
pub mod rules;
pub mod text;
pub mod tile;
pub mod tile_set;
pub mod tileset;
pub mod tileset_builder;
pub mod wave_function;

pub use cell::Cell;
pub use direction::Direction;
pub use error::{ArgsFault, AtlasFault, MapFault, WfcError};
pub use grid::Adjacency;
pub use image::{Image, Pixel, Transformation};
pub use manifest::Manifest;
pub use map::TileMap;
pub use rule_set::{Rule, RuleSet};
pub use rules::Rules;
pub use tile::Tile;
pub use tile_set::TileSet;
pub use tileset::Tileset;
pub use tileset_builder::TilesetBuilder;
pub use algorithm::{
    WaveFunctionBacktracking, WaveFunctionBasic, WaveFunctionFast, WaveFunctionOptimised,
};
pub use wave_function::WaveFunction;
