//! The stroke store of a drawing document and the engine that drives it.
//!
//! Strokes live in component tables addressed by [`store::StrokeKey`] handles.
//! A bounding-box tree answers viewport queries, a layer and promotion order
//! gives the paint order, a snapshot stack gives undo and redo, and the render
//! bookkeeping decides which strokes need fresh images and which finished
//! images may still be applied.
//!
//! All coordinates are integers on the document grid.

pub mod engine;
pub mod export;
pub mod geometry;
pub mod store;
pub mod strokes;
pub mod widgetflags;
