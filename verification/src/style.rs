//! How a polygon is to be drawn.
use vstd::prelude::*;
use crate::geometry::Point;
use crate::scan::Scanline;

verus! {

/// The colours and the stroke width to draw with. A stroke width of zero
/// asks for the polygon to be filled, any other width for its outline.
#[derive(Debug)]
pub struct Style<C> {
    pub fill_color: Option<C>,
    pub stroke_color: Option<C>,
    pub stroke_width: u32,
}

impl<C> Style<C> {
    /// The style that fills with `color`.
    pub fn with_fill(color: C) -> (s: Style<C>)
        ensures
            s.fill_color == Some(color),
            s.stroke_color.is_none(),
            s.stroke_width == 0,
    {
        Style { fill_color: Some(color), stroke_color: None, stroke_width: 0 }
    }

    /// The style that strokes the outline with `color`, `width` pixels wide.
    pub fn with_stroke(color: C, width: u32) -> (s: Style<C>)
        ensures
            s.fill_color.is_none(),
            s.stroke_color == Some(color),
            s.stroke_width == width,
    {
        Style { fill_color: None, stroke_color: Some(color), stroke_width: width }
    }
}

/// Why a polygon could not be drawn.
#[derive(Clone, Copy, Debug, PartialEq, Eq, Structural)]
pub enum StyleError {
    /// The style asks for a fill and names no fill colour.
    MissingFillColor,
}

/// What is to be drawn for a polygon.
pub enum Drawing<C> {
    /// The rows of the filled polygon, from the top down. Every span of a
    /// row covers the pixels from its first column to its second, both
    /// included.
    Fill { color: C, rows: Vec<Scanline> },
    /// The pixels of a polygon drawn through a depth map that passed the
    /// depth test, in the order in which they are to be written: from the
    /// top row down, and from left to right within a row.
    Pixels { color: C, pixels: Vec<Point> },
    /// The closed line through the vertices, to be stroked with the style
    /// that was asked for.
    Outline { points: Vec<Point> },
}

} // verus!
