//! Desktop task queue: the decisions behind a small always-on-top to-do widget.

pub mod coord;
pub mod fonts;
pub mod geometry;
pub mod json;
pub mod laws;
pub mod model;
pub mod paint;
pub mod queue;
pub mod rounding;
pub mod storage;
pub mod text;
pub mod win;

pub use coord::Coord;
