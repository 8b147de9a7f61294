//! A uniform spatial hash grid: a bounded two-dimensional world is divided
//! into a fixed grid of cells, and the grid keeps track, incrementally, of
//! which entities overlap which cells, so that "which entities occupy this
//! region?" is answered from the queried cells alone.

pub mod cells;
pub mod geometry;
pub mod spatial;
