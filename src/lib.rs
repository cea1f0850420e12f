//! Core of a Conway's Game of Life viewer: the RLE pattern decoder, pattern
//! placement, the generation step, the camera, the resize controller and the
//! frame-time statistics. Everything here is plain state and pure functions;
//! windows, GPU surfaces and files belong to the host.

pub mod camera;
pub mod grid;
pub mod life;
pub mod perfs;
pub mod placement;
pub mod rle;
pub mod session;
pub mod text;
pub mod validate;
