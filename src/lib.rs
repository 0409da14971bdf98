//! Reconstruction of the 3D positions of sequentially flashed lights from
//! four fixed camera viewpoints: brightest-point detection in each frame,
//! fusion of two opposed views per axis, and assembly of the two axes.

pub mod frame;
pub mod fusion;
pub mod mode;
pub mod record;
