//! Verified core of a Minecraft world map renderer: block names and colours,
//! bit-packed chunk sections, column surface scanning, region file layout,
//! map assembly, height shading and the tile pyramid.

pub mod block_to_rgb;
pub mod canvas;
pub mod chunk;
pub mod map;
pub mod region;
pub mod section;
pub mod text;
pub mod tiles;

pub use block_to_rgb::{Block, block_to_rgb, parse_block_name};
