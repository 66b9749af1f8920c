//! Verified core of the face-swap image toolkit: colour quantisation by
//! histogram clustering, rank based hue transfer between two heads, face
//! rectangle bookkeeping and the image operations delegated to `image`.

pub mod clip;
pub mod detector;
pub mod geometry;
pub mod histogram;
pub mod image_proc;
pub mod imgtool;
pub mod ops;
