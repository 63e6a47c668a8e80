//! Weather overlays for a radar map: airport observations and the European
//! reflectivity mosaic.
//!
//! The observations are read in `metar`, picked in `select`, and remembered and asked
//! for in `service`. The mosaic's objects are listed in `listing`, read in `cog`,
//! painted in `texture` and `image`, and polled in `opera`. `source` chooses what shows
//! the centre of the map. Floating-point numbers are bit patterns, with exact
//! comparisons and roundings in `ieee`.

pub mod body;
pub mod calendar;
pub mod cog;
pub mod envelope;
pub mod ieee;
pub mod image;
pub mod listing;
pub mod metar;
pub mod opera;
pub mod protocol;
pub mod select;
pub mod service;
pub mod source;
pub mod table;
pub mod text;
pub mod texture;
