//! Image-to-ASCII rasterization with a horizontal atlas protocol.
//!
//! Images become bordered character panels; equal-height panels are
//! concatenated side by side into an atlas, and a panel's body can be
//! retrieved back from the atlas by its zero-based index.

mod atlas;
mod config;
mod errors;
mod img;
mod palette;
mod raster;
mod text;

pub use atlas::{compose_ascii_atlas, find, hcat, lemma_atlas_round_trip, lemma_atlas_shape};
pub use config::{parse_positive_int, Config};
pub use errors::AsciiError;
pub use img::{resize_img, Img};
pub use palette::{
    lemma_map_monotone, lemma_palette_boundaries, lemma_sum_agrees_with_milli,
    map_luminance_to_ascii,
};
pub use raster::{get_ascii_art, lemma_palette_closure, lemma_panel_shape, lemma_panel_text_shape};
