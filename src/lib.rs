pub mod bitvec;
pub mod color;
pub mod palette;
pub mod ilbm;
pub mod body;
mod raster;
pub mod image;
pub mod read;
pub mod error;
pub mod text;
