//! The script-facing API objects: color search, device input, configuration,
//! thread control, and the image endpoints.

pub mod colors;
pub mod config;
pub mod device;
pub mod image;
pub mod thread;
