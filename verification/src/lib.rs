//! Prints rectangular character grids to a terminal and, on each print
//! after the first, emits only the cursor moves and characters needed to
//! turn the previously printed grid into the new one — no full-screen
//! redraw, no flicker.
//!
//! The [`printer::Printer`] owns the session state: the previously printed
//! grid, its dimensions and origin, the terminal dimensions seen at the
//! previous print, and the configured
//! [`printing_position::PrintingPosition`]. Each call of
//! [`dynamic_printer::DynamicPrinter::dynamic_print`] validates the new
//! grid, places it, computes the changed runs against the previous grid
//! and returns the escape stream to write; the caller hands it to the
//! terminal. When the grid's shape, the terminal or the printing position
//! changed, the grid is redrawn in full instead.
//!
//! Every function is specified: the validator returns the dimensions
//! exactly when every row has one shared width, the difference engine's
//! runs repaint exactly the changed cells and reproduce the new grid, and
//! the placement arithmetic follows the documented anchor rules.

pub mod diff;
pub mod dynamic_printer;
pub mod errors;
pub mod escape;
pub mod grid;
pub mod printer;
pub mod printing_position;
pub mod screen;
