//! An in-memory RGBA raster canvas: brush compositing, flood fill, filters
//! and a bounded undo/redo history, with every operation verified.

pub mod pixels;
pub mod filters;
pub mod engine;
pub mod fill;
pub mod brush;
pub mod laws;

pub use brush::{BrushOptions, Touch};
pub use engine::{CanvasEngine, CanvasError, FilterType};
