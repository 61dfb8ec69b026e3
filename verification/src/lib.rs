//! Reconstruction of the black-stone lattice of a Go board from a photograph.
//!
//! The input is a row-major RGB raster; the output maps integer lattice
//! coordinates, centered on a reference stone, to the pixel centers of the
//! black stones occupying those intersections.

mod blob;
mod board;
mod connect;
mod extract;
mod lattice;
mod mask;
mod num_ext;
mod point;
mod raster;
mod score;
mod spacing;
mod stones;

pub use blob::BlackStone;
pub use board::board_map;
pub use extract::extract_blobs;
pub use extract::find_black_objects;
pub use extract::flood_fill;
pub use lattice::BoardMap;
pub use lattice::assign_lattice;
pub use lattice::pick_reference;
pub use mask::MaskGrid;
pub use mask::pixel_value;
pub use num_ext::NumExt;
pub use point::Point;
pub use raster::PixelImage;
pub use raster::is_stone_pixel;
pub use score::Board;
pub use score::Stone;
pub use score::Territory;
pub use score::count_score;
pub use spacing::estimate_spacing;
pub use spacing::sample_distances;
pub use stones::find_black_stones;
pub use stones::median;
