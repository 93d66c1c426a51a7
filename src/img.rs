//! Images: 24-bit bitmap headers and pixel filters.

pub mod bmp;
