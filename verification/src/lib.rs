//! A layered, mipmapped pixel buffer in one contiguous allocation, with the
//! addressing of its layers, mip levels and pixels, box-filtered mipmap
//! generation, and the packing of a tile sheet into one layer per tile.

pub mod levels;
pub mod mipmap;
pub mod model;
mod pod;
pub mod texel;
pub mod texture;
pub mod tileset;

pub use texel::{Texel, TexelLayout};
pub use texture::{MipMaps, TextureData};
pub use tileset::SourceImage;
