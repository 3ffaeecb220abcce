pub mod cli;
pub mod date;
pub mod error;
pub mod exif;
pub mod jpeg;
pub mod json;
pub mod text;
pub mod tiff;
