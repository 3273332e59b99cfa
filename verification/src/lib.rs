use vstd::prelude::*;

pub mod astronomy;
pub mod bdf;
pub mod calendar;
pub mod chart;
pub mod circle;
pub mod control;
pub mod emulator;
pub mod error_screen;
pub mod font;
pub mod graphics;
pub mod icons;
pub mod hardware;
pub mod inky;
pub mod line;
pub mod palette;
pub mod rect;
pub mod status;
pub mod text;
pub mod weather;

pub use inky::{Button, Color, Panel};
pub use rect::Rect;

verus! {
} // verus!
