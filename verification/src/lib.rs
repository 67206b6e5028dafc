//! Screen-capture and vision-analysis engine.
//!
//! The crate holds a frame-buffer store fed by a binary ingestion protocol,
//! color matching and region search over captured frames, a connected-component
//! scanner, an image-filter pipeline with Zhang-Suen thinning, and coordinate
//! remapping between a (possibly downscaled) capture and device coordinates.

pub mod colors;
pub mod types;
pub mod img;
pub mod capture;
pub mod analysis;
pub mod skeleton;
pub mod codec;
pub mod filters;
pub mod input;
pub mod actions;
pub mod api;

pub use colors::parse_hex;
pub use colors::parse_hex_color;
pub use colors::is_match;
pub use colors::is_color_match;
pub use colors::is_match_any;
