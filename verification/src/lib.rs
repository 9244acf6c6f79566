//! Core engine of a raster pixel editor.
//!
//! The library owns a grid of optional colors per layer, computes the cells a
//! drawing tool affects (single pixel, eraser, rectangle border and fill,
//! straight line, flood fill), keeps a linear undo/redo history per layer,
//! and flattens the active layers of a stack into one exportable image.
//! Windowing, input polling and file dialogs are left to the caller.

pub mod color;
pub mod fill;
pub mod grid;
pub mod history;
pub mod layer;
pub mod layers;
pub mod line;
pub mod tools;
