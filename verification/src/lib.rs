//! Star identification for a camera that does not know where it looks: the
//! part of the work that is done on pixels, on places in a catalogue and on
//! the order of numbers.
//!
//! Given a catalogue of stars and a grayscale image of a starfield, the
//! pipeline finds the bright blobs of the image, works out for a candidate
//! viewing direction which catalogue stars would be in view and where they
//! would fall on the image plane, and scores the direction by how bright a
//! reference image is at those places.
//!
//! - [`catalog`] reads a catalogue from delimited text, column layout given.
//! - [`star`] holds a catalogue star and finds stars by identifier.
//! - [`frame`] is the grayscale raster that the image functions work on.
//! - [`blobs`] finds the bright blobs of a raster.
//! - [`levels`] finds the span of a raster's intensities and changes them
//!   by a table.
//! - [`view`] keeps the stars inside a cone around the boresight.
//! - [`neighbours`] chooses the nearest neighbours of a star, from which a
//!   fingerprint is made.
//! - [`score`] sums a reference raster at predicted pixels.
//! - [`sweep`] lays out the grid of directions and assembles the score table.
//! - [`render`] draws predicted pixels for inspection.
//! - [`scalar`] orders single-precision numbers by their bits.
//!
//! The library does no trigonometry. Angular separations, distances,
//! bearings and projected pixels are computed by the caller and handed in:
//! angles and distances as [`Scalar`] values, pixels as whole numbers.

pub mod blobs;
pub mod catalog;
pub mod frame;
pub mod levels;
pub mod neighbours;
pub mod render;
pub mod scalar;
pub mod score;
pub mod star;
pub mod sweep;
pub mod view;

pub use crate::blobs::{extract_blobs, get_star_centroids_from_image, get_stars_from_image, Blob};
pub use crate::catalog::{parse_star_file, ColumnLayout};
pub use crate::frame::GrayscaleBuffer;
pub use crate::neighbours::nearest_neighbours;
pub use crate::scalar::Scalar;
pub use crate::score::pin_prick_image;
pub use crate::star::Star;
pub use crate::sweep::{grid_directions, sweep, ScoreRecord, Sighting};
pub use crate::view::viewable_stars;
