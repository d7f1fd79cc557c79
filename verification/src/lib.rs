//! Emoji mosaics: a raster image becomes a grid of glyphs, each chosen from a
//! palette of reference tiles by the colour it stands for.
//!
//! The crate holds the whole pipeline except for input and output: colours and
//! their distance, pixel buffers, tile names, the palette with its
//! nearest-colour lookup, the mosaic itself, and the batching of finished rows
//! into text blocks. Every function carries a contract, and Verus proves each
//! but three: the resampling of an image, which the `image` crate does, and
//! two functions of the standard library. Their contracts are believed, and
//! say so.

pub mod chunker;
pub mod color;
pub mod error;
pub mod mosaic;
pub mod palette;
pub mod raster;
pub mod std_ext;
pub mod text;
pub mod tile_name;
