//! Where on the terminal a grid is printed: a preset or custom position on
//! each axis, combined into a printing position with nine preset spots.

use vstd::prelude::*;

verus! {

/// The horizontal positions a grid can be printed at.
#[derive(Debug, Clone, Copy, PartialEq, Eq, Structural)]
pub enum XPrintingPosition {
    Left,
    Middle,
    Right,
    Custom(usize),
}

impl Default for XPrintingPosition {
    fn default() -> (r: Self)
        ensures
            r == XPrintingPosition::Left,
    {
        XPrintingPosition::Left
    }
}

/// The vertical positions a grid can be printed at.
#[derive(Debug, Clone, Copy, PartialEq, Eq, Structural)]
pub enum YPrintingPosition {
    Top,
    Middle,
    Bottom,
    Custom(usize),
}

impl Default for YPrintingPosition {
    fn default() -> (r: Self)
        ensures
            r == YPrintingPosition::Bottom,
    {
        YPrintingPosition::Bottom
    }
}

/// A place to print a grid on the screen, one position per axis.
#[derive(Debug, Clone, Copy)]
pub struct PrintingPosition {
    pub x_printing_position: XPrintingPosition,
    pub y_printing_position: YPrintingPosition,
}

impl Default for PrintingPosition {
    fn default() -> (r: Self)
        ensures
            r.x_printing_position == XPrintingPosition::Left,
            r.y_printing_position == YPrintingPosition::Bottom,
    {
        PrintingPosition {
            x_printing_position: XPrintingPosition::Left,
            y_printing_position: YPrintingPosition::Bottom,
        }
    }
}

impl PrintingPosition {
    /// Creates a new printing position from the given positions on both axes.
    pub fn new(
        x_printing_position: XPrintingPosition,
        y_printing_position: YPrintingPosition,
    ) -> (r: Self)
        ensures
            r.x_printing_position == x_printing_position,
            r.y_printing_position == y_printing_position,
    {
        Self { x_printing_position, y_printing_position }
    }

    /// Creates a new printing position with the given horizontal position,
    /// defaulting on the vertical one.
    pub fn with_x_printing_position(x_printing_position: XPrintingPosition) -> (r: Self)
        ensures
            r.x_printing_position == x_printing_position,
            r.y_printing_position == YPrintingPosition::Bottom,
    {
        Self { x_printing_position, y_printing_position: YPrintingPosition::Bottom }
    }

    /// Creates a new printing position with the given vertical position,
    /// defaulting on the horizontal one.
    pub fn with_y_printing_position(y_printing_position: YPrintingPosition) -> (r: Self)
        ensures
            r.x_printing_position == XPrintingPosition::Left,
            r.y_printing_position == y_printing_position,
    {
        Self { x_printing_position: XPrintingPosition::Left, y_printing_position }
    }
}

impl From<(XPrintingPosition, YPrintingPosition)> for PrintingPosition {
    fn from(item: (XPrintingPosition, YPrintingPosition)) -> (r: Self) {
        Self { x_printing_position: item.0, y_printing_position: item.1 }
    }
}

impl vstd::std_specs::convert::FromSpecImpl<(XPrintingPosition, YPrintingPosition)>
    for PrintingPosition {
    open spec fn obeys_from_spec() -> bool {
        true
    }

    open spec fn from_spec(item: (XPrintingPosition, YPrintingPosition)) -> Self {
        PrintingPosition { x_printing_position: item.0, y_printing_position: item.1 }
    }
}

} // verus!
