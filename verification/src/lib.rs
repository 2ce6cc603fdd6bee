//! The engine core of a paint program, verified.
//!
//! The crate is independent of any user interface, window system or operating system. It holds the
//! document model, the sparse tiled canvas, selections and the regions they come from, the rules of
//! the brush engine that are not arithmetic on real numbers, and the panel workspace.
//!
//! Real-valued settings are carried as the bit patterns of IEEE 754 numbers (see [`scalar`]): the
//! crate compares, clamps and stores them exactly, and leaves adding and multiplying them to the
//! program around it. Laws on what that arithmetic comes to speak of the real numbers that the
//! patterns stand for, and of how far an answer may be rounded.

pub mod arrangement;
pub mod brush;
pub mod canvas;
pub mod color;
pub mod curve;
pub mod dab;
pub mod desk;
pub mod document;
pub mod drawing;
pub mod geometry;
pub mod gesture;
pub mod grid;
pub mod lasso;
pub mod layer;
pub mod layout;
pub mod lifted;
pub mod look;
pub mod modulation;
pub mod page;
pub mod panels;
pub mod popup;
pub mod preset;
pub mod raster;
pub mod region;
pub mod saved;
pub mod scalar;
pub mod selection;
pub mod smooth;
pub mod stabilizer;
pub mod stamp;
pub mod stroke;
pub mod text;
pub mod tidy;
pub mod tile;
pub mod tile_map;
pub mod words;
pub mod workspace;

pub use brush::{Brush, StrokeState};
pub use canvas::Canvas;
pub use curve::Curve;
pub use dab::Dab;
pub use document::Document;
pub use layer::{Blend, Content, Layer};
pub use lifted::Lifted;
pub use modulation::{Input, Response, Source};
pub use page::{Page, PageRect, PageResize, Side};
pub use selection::Selection;
pub use stabilizer::{Smoothed, Stabilizer};
pub use stamp::Stamp;
pub use stroke::StrokePainter;
pub use text::{TextBlock, TextRenderer};

use vstd::prelude::*;

verus! {

/// Crate version, surfaced so the program can display it.
pub const VERSION: &'static str = "0.1.0";

/// Sanity signal that the core crate is linked and reachable.
pub fn hello() -> (greeting: &'static str)
    ensures
        greeting@ == "openpaint-core online"@,
{
    "openpaint-core online"
}

} // verus!
