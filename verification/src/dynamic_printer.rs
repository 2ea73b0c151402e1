//! Dynamic printing: placing a grid on the terminal and emitting only what
//! changed since the previous print, as one escape stream.

use crate::diff::{
    compute_pixel_differences, lemma_serialize_runs_push, pixel_differences, push_serialized_run,
    runs_view, serialize_runs,
};
use crate::errors::PrintingError;
use crate::escape::{esc_move_to, esc_row_step, push_move_to, push_row_step};
use crate::grid::{
    chars_of, chars_to_string, flat_of, grid_dims_ok, lemma_dims_unique, lemma_flat_of_rect,
    lemma_grid_dims_to_rect, lines_of, rect_shape, remove_breaks, single_char_grid, split_rows,
    rows_view,
};
use crate::printer::Printer;
use crate::printing_position::{PrintingPosition, XPrintingPosition, YPrintingPosition};
use vstd::prelude::*;

verus! {

/// The placement of a grid centred on an axis: the floor of half the
/// terminal length, less the floor of half the grid length.
pub open spec fn center_placement(grid_length: int, terminal_length: int) -> int {
    terminal_length / 2 - grid_length / 2
}

/// The placement of a grid against the far border of an axis, floored at
/// the first cell when the grid does not fit.
pub open spec fn border_placement(grid_length: int, terminal_length: int) -> int {
    if terminal_length - grid_length >= 0 {
        terminal_length - grid_length + 1
    } else {
        1
    }
}

/// The placement of a grid at a caller-chosen cell: the choice is raised to
/// the first cell, and a grid that would run over the terminal's far edge
/// is shifted back by exactly the overflow, never past the first cell.
pub open spec fn custom_placement(grid_length: int, terminal_length: int, placement: int) -> int {
    let raised = if placement < 1 {
        1
    } else {
        placement
    };
    let shifted = if raised + grid_length > terminal_length {
        raised - (raised + grid_length - terminal_length)
    } else {
        raised
    };
    if shifted < 1 {
        1
    } else {
        shifted
    }
}

/// The column of a grid's top-left cell under the given horizontal
/// position.
pub open spec fn resolve_x(
    position: XPrintingPosition,
    grid_width: int,
    terminal_width: int,
) -> int {
    match position {
        XPrintingPosition::Left => 1,
        XPrintingPosition::Middle => center_placement(grid_width, terminal_width),
        XPrintingPosition::Right => border_placement(grid_width, terminal_width),
        XPrintingPosition::Custom(p) => custom_placement(grid_width, terminal_width, p as int),
    }
}

/// The row of a grid's top-left cell under the given vertical position.
pub open spec fn resolve_y(
    position: YPrintingPosition,
    grid_height: int,
    terminal_height: int,
) -> int {
    match position {
        YPrintingPosition::Top => 1,
        YPrintingPosition::Middle => center_placement(grid_height, terminal_height),
        YPrintingPosition::Bottom => border_placement(grid_height, terminal_height),
        YPrintingPosition::Custom(p) => custom_placement(grid_height, terminal_height, p as int),
    }
}

/// A resolved placement never leaves the terminal on its axis.
pub proof fn lemma_resolve_x_bounds(position: XPrintingPosition, g: int, t: int)
    requires
        1 <= g <= t,
    ensures
        0 <= resolve_x(position, g, t) <= t,
{
    lemma_placement_bounds(g, t);
}

/// A resolved placement never leaves the terminal on its axis.
pub proof fn lemma_resolve_y_bounds(position: YPrintingPosition, g: int, t: int)
    requires
        1 <= g <= t,
    ensures
        0 <= resolve_y(position, g, t) <= t,
{
    lemma_placement_bounds(g, t);
}

proof fn lemma_placement_bounds(g: int, t: int)
    requires
        1 <= g <= t,
    ensures
        0 <= center_placement(g, t) <= t,
        1 <= border_placement(g, t) <= t,
        forall|p: int| 1 <= #[trigger] custom_placement(g, t, p) <= t,
{
    assert(g / 2 <= t / 2) by (nonlinear_arith)
        requires
            0 <= g <= t,
    ;
    assert(t / 2 <= t) by (nonlinear_arith)
        requires
            t >= 0,
    ;
    assert(g / 2 >= 0) by (nonlinear_arith)
        requires
            g >= 0,
    ;
}

/// Computes the centred placement on one axis.
pub fn calculate_grid_center_placement(grid_length: usize, terminal_length: usize) -> (r: usize)
    requires
        grid_length <= terminal_length,
    ensures
        r as int == center_placement(grid_length as int, terminal_length as int),
{
    proof {
        assert(grid_length as int / 2 <= terminal_length as int / 2) by (nonlinear_arith)
            requires
                0 <= grid_length as int <= terminal_length as int,
        ;
    }
    terminal_length / 2 - grid_length / 2
}

/// Computes the far-border placement on one axis.
pub fn calculate_grid_positive_border_placement(grid_length: usize, terminal_length: usize) -> (r:
    usize)
    requires
        grid_length <= terminal_length,
        terminal_length < usize::MAX,
    ensures
        r as int == border_placement(grid_length as int, terminal_length as int),
{
    terminal_length - grid_length + 1
}

/// Computes the caller-chosen placement on one axis, clamped into the
/// terminal.
pub fn calculate_custom_grid_position(
    grid_length: usize,
    terminal_length: usize,
    grid_placement: usize,
) -> (r: usize)
    requires
        grid_length <= terminal_length,
    ensures
        r as int == custom_placement(
            grid_length as int,
            terminal_length as int,
            grid_placement as int,
        ),
{
    let raised: usize = if grid_placement < 1 {
        1
    } else {
        grid_placement
    };
    if raised > terminal_length - grid_length {
        if terminal_length == grid_length {
            1
        } else {
            terminal_length - grid_length
        }
    } else {
        raised
    }
}

/// The origin derived from a live cursor position when no printing
/// position is configured: the cursor marks the grid's bottom-right
/// corner, so the grid stands wholly above and left of it, clamped to the
/// terminal's top-left edge.
pub open spec fn cursor_derived_origin(
    grid_dims: (usize, usize),
    cursor: (usize, usize),
) -> (int, int) {
    (
        if cursor.0 - grid_dims.0 >= 1 {
            cursor.0 - grid_dims.0
        } else {
            1
        },
        if cursor.1 - grid_dims.1 >= 1 {
            cursor.1 - grid_dims.1
        } else {
            1
        },
    )
}

/// Computes the origin at which a grid of the given dimensions is drawn so
/// that the given live cursor cell is its bottom-right corner, clamped to
/// the terminal's top-left edge.
pub fn calculate_cursor_derived_origin(grid_dims: (usize, usize), cursor: (usize, usize)) -> (r: (
    usize,
    usize,
))
    ensures
        r.0 as int == cursor_derived_origin(grid_dims, cursor).0,
        r.1 as int == cursor_derived_origin(grid_dims, cursor).1,
{
    let x: usize = if cursor.0 > grid_dims.0 {
        cursor.0 - grid_dims.0
    } else {
        1
    };
    let y: usize = if cursor.1 > grid_dims.1 {
        cursor.1 - grid_dims.1
    } else {
        1
    };
    (x, y)
}

/// The escape stream of a list of rows printed from the top down: each row's
/// characters followed by a step one row down and back to column `x`.
pub open spec fn rows_with_steps(ls: Seq<Seq<char>>, x: int) -> Seq<char>
    decreases ls.len(),
{
    if ls.len() == 0 {
        Seq::empty()
    } else {
        ls[0] + esc_row_step(x) + rows_with_steps(ls.drop_first(), x)
    }
}

/// The escape stream that draws a whole grid with its top-left cell at
/// column `x` of row `y`.
pub open spec fn full_draw_spec(s: Seq<char>, x: int, y: int) -> Seq<char> {
    esc_move_to(x, y) + rows_with_steps(lines_of(s), x)
}

/// Appends the full-draw stream of the given grid text to `out`.
fn push_full_draw(out: &mut Vec<char>, grid_chars: &Vec<char>, position: (usize, usize))
    ensures
        final(out)@ == old(out)@ + full_draw_spec(
            grid_chars@,
            position.0 as int,
            position.1 as int,
        ),
{
    let ghost whole = full_draw_spec(grid_chars@, position.0 as int, position.1 as int);
    let rows = split_rows(grid_chars);
    let ghost ls = rows_view(rows@);
    push_move_to(out, position.0, position.1);
    proof {
        assert(ls.skip(0) =~= ls);
        assert(out@ + rows_with_steps(ls, position.0 as int) =~= old(out)@ + whole);
    }
    let mut k: usize = 0;
    while k < rows.len()
        invariant
            k <= rows@.len(),
            ls == rows_view(rows@),
            out@ + rows_with_steps(ls.skip(k as int), position.0 as int) == old(out)@ + whole,
        decreases rows@.len() - k,
    {
        proof {
            assert(ls.skip(k as int)[0] == ls[k as int]);
            assert(ls.skip(k as int).drop_first() =~= ls.skip(k + 1));
            assert(ls[k as int] == rows@[k as int]@);
        }
        let ghost base = out@;
        let row_len = rows[k].len();
        let mut j: usize = 0;
        while j < row_len
            invariant
                j <= row_len,
                k < rows@.len(),
                row_len == rows@[k as int]@.len(),
                out@ == base + rows@[k as int]@.take(j as int),
            decreases row_len - j,
        {
            let c = rows[k][j];
            out.push(c);
            proof {
                assert(base + rows@[k as int]@.take(j + 1) =~= (base + rows@[k as int]@.take(
                    j as int,
                )).push(rows@[k as int]@[j as int]));
            }
            j = j + 1;
        }
        proof {
            assert(rows@[k as int]@.take(row_len as int) =~= rows@[k as int]@);
        }
        push_row_step(out, position.0);
        proof {
            assert(out@ + rows_with_steps(ls.skip(k + 1), position.0 as int) =~= old(out)@
                + whole);
        }
        k = k + 1;
    }
    proof {
        assert(ls.skip(ls.len() as int) =~= Seq::<Seq<char>>::empty());
        assert(rows_with_steps(Seq::<Seq<char>>::empty(), position.0 as int)
            =~= Seq::<char>::empty());
        assert(out@ =~= old(out)@ + whole);
    }
}

/// Draws the given grid in full with its top-left cell at the given
/// position, row by row, without touching any session state.
pub fn print_grid_freestanding(grid: &str, printing_position: (usize, usize)) -> (r: Result<
    String,
    PrintingError,
>)
    requires
        grid@.len() < usize::MAX,
    ensures
        match r {
            Ok(out) => {
                &&& exists|w: int, h: int| grid_dims_ok(grid@, w, h)
                &&& out@ == full_draw_spec(
                    grid@,
                    printing_position.0 as int,
                    printing_position.1 as int,
                )
            },
            Err(e) => {
                &&& e == PrintingError::NonRectangularGrid
                &&& forall|w: int, h: int| !grid_dims_ok(grid@, w, h)
            },
        },
{
    match Printer::get_rectangular_dimensions(grid) {
        Ok(dims) => {
            proof {
                assert(grid_dims_ok(grid@, dims.0 as int, dims.1 as int));
            }
        },
        Err(e) => {
            return Err(e);
        },
    }
    let v = chars_of(grid);
    let mut out: Vec<char> = Vec::new();
    push_full_draw(&mut out, &v, printing_position);
    Ok(chars_to_string(&out))
}

/// The session state of a printer, as the contracts speak of it.
pub ghost struct PrinterModel {
    pub previous_grid: Seq<char>,
    pub origin_position: Option<(usize, usize)>,
    pub grid_width: Option<usize>,
    pub grid_height: Option<usize>,
    pub previous_terminal_dimensions: Option<(usize, usize)>,
    pub printing_position: PrintingPosition,
    pub printing_position_changed_since_last_print: bool,
}

/// A session is well formed when the grid it stores, if any, really is a
/// grid of the stored dimensions.
pub open spec fn model_wf(m: PrinterModel) -> bool {
    m.previous_grid.len() > 0 ==> {
        &&& m.grid_width is Some
        &&& m.grid_height is Some
        &&& rect_shape(m.previous_grid, m.grid_width->0 as int, m.grid_height->0 as int)
    }
}

/// What the machine must afford for a print against a terminal of the given
/// dimensions: the coordinate arithmetic of the emitted escape sequences
/// stays within `usize`.
pub open spec fn dynamic_print_pre(m: PrinterModel, s: Seq<char>, td: (usize, usize)) -> bool {
    &&& model_wf(m)
    &&& s.len() < usize::MAX
    &&& 2 * (td.0 as int) * (td.1 as int) + 2 * (td.0 as int) + 2 * (td.1 as int) + 2
        <= usize::MAX as int
}

/// The stream that clearing the previously drawn rectangle emits: a full
/// draw of spaces over it, or nothing at all when no dimensions or no
/// origin are stored yet.
pub open spec fn clear_part(m: PrinterModel) -> Seq<char> {
    if m.grid_width is Some && m.grid_height is Some && m.origin_position is Some {
        full_draw_spec(
            single_char_grid(' ', m.grid_width->0 as int, m.grid_height->0 as int),
            (m.origin_position->0).0 as int,
            (m.origin_position->0).1 as int,
        )
    } else {
        Seq::empty()
    }
}

/// What one successful print does, given that the new grid has dimensions
/// `w` by `h`: how the session moves on and exactly which escape stream
/// comes out — a difference against the previous grid when the placement
/// holds still, a clear plus a full redraw when it moved, a plain full draw
/// on the first print, and nothing at all for an empty grid.
pub open spec fn dynamic_print_success(
    m0: PrinterModel,
    m1: PrinterModel,
    s: Seq<char>,
    td: (usize, usize),
    out: Seq<char>,
    w: int,
    h: int,
) -> bool {
    let ox = resolve_x(m0.printing_position.x_printing_position, w, td.0 as int);
    let oy = resolve_y(m0.printing_position.y_printing_position, h, td.1 as int);
    let size_changed = m0.grid_width is Some && m0.grid_height is Some && (m0.grid_width->0 != w
        || m0.grid_height->0 != h);
    let term_changed = m0.previous_terminal_dimensions is Some
        && m0.previous_terminal_dimensions->0 != td;
    let redraw = m0.printing_position_changed_since_last_print || size_changed || term_changed;
    &&& w <= td.0 && h <= td.1
    &&& m1.printing_position == m0.printing_position
    &&& m1.previous_grid == s
    &&& m1.grid_width == Some(w as usize)
    &&& m1.grid_height == Some(h as usize)
    &&& m1.previous_terminal_dimensions == Some(td)
    &&& m1.printing_position_changed_since_last_print == false
    &&& if w == 0 || h == 0 {
        &&& out == Seq::<char>::empty()
        &&& m1.origin_position == m0.origin_position
    } else {
        &&& m1.origin_position == Some((ox as usize, oy as usize))
        &&& if m0.previous_grid.len() > 0 && !redraw {
            out == serialize_runs(
                pixel_differences(flat_of(m0.previous_grid), flat_of(s), w),
                ox,
                oy,
                w,
            )
        } else if redraw {
            out == clear_part(m0) + full_draw_spec(s, ox, oy)
        } else {
            out == full_draw_spec(s, ox, oy)
        }
    }
}

/// The whole contract of a print call: an ill-shaped grid or one larger
/// than the terminal is rejected with the session untouched, and any other
/// grid is printed as `dynamic_print_success` says.
pub open spec fn dynamic_print_post(
    m0: PrinterModel,
    m1: PrinterModel,
    s: Seq<char>,
    td: (usize, usize),
    r: Result<String, PrintingError>,
) -> bool {
    match r {
        Ok(out) => {
            &&& (exists|w: int, h: int| grid_dims_ok(s, w, h))
            &&& forall|w: int, h: int|
                grid_dims_ok(s, w, h) ==> dynamic_print_success(m0, m1, s, td, out@, w, h)
        },
        Err(e) => {
            &&& m1 == m0
            &&& ((e == PrintingError::NonRectangularGrid && forall|w: int, h: int|
                !grid_dims_ok(s, w, h)) || (e == PrintingError::GridLargerThanTerminal
                && exists|w: int, h: int|
                grid_dims_ok(s, w, h) && (w > td.0 || h > td.1)))
        },
    }
}

/// The whole contract of clearing the drawn grid: with dimensions and an
/// origin stored, the occupied rectangle is overdrawn with spaces and the
/// stored grid becomes that blank grid; otherwise the call reports what is
/// missing and the session stays untouched.
pub open spec fn clear_grid_post(
    m0: PrinterModel,
    m1: PrinterModel,
    r: Result<String, PrintingError>,
) -> bool {
    match r {
        Ok(out) => {
            &&& m0.grid_width is Some && m0.grid_height is Some && m0.origin_position is Some
            &&& out@ == full_draw_spec(
                single_char_grid(' ', m0.grid_width->0 as int, m0.grid_height->0 as int),
                (m0.origin_position->0).0 as int,
                (m0.origin_position->0).1 as int,
            )
            &&& m1 == (PrinterModel {
                previous_grid: single_char_grid(
                    ' ',
                    m0.grid_width->0 as int,
                    m0.grid_height->0 as int,
                ),
                ..m0
            })
        },
        Err(e) => {
            &&& m1 == m0
            &&& ((e == PrintingError::GridDimensionsNotDefined && !(m0.grid_width is Some
                && m0.grid_height is Some)) || (e == PrintingError::OriginNotDefined
                && m0.grid_width is Some && m0.grid_height is Some
                && m0.origin_position is None))
        },
    }
}

/// Printing a grid as the difference against the previously printed one.
pub trait DynamicPrinter: Sized {
    /// The session state the contracts speak of.
    spec fn model(&self) -> PrinterModel;

    /// Prints the given grid to a terminal of the given dimensions: returns
    /// the escape stream to write, holding only what changed since the
    /// previous print, or a full draw when the grid's shape, the terminal
    /// or the printing position changed.
    ///
    /// An empty grid is valid and draws nothing. A non-rectangular grid,
    /// or one larger than the terminal on either axis, is rejected with
    /// the session unchanged.
    fn dynamic_print(&mut self, new_grid: String, terminal_dimensions: (usize, usize)) -> (r:
        Result<String, PrintingError>)
        requires
            dynamic_print_pre(old(self).model(), new_grid@, terminal_dimensions),
        ensures
            dynamic_print_post(
                old(self).model(),
                final(self).model(),
                new_grid@,
                terminal_dimensions,
                r,
            ),
            model_wf(final(self).model()),
    ;

    /// Replaces every character of the drawn grid with whitespace: returns
    /// the escape stream that overdraws the grid's rectangle with spaces.
    fn clear_grid(&mut self) -> (r: Result<String, PrintingError>)
        ensures
            clear_grid_post(old(self).model(), final(self).model(), r),
            model_wf(old(self).model()) ==> model_wf(final(self).model()),
    ;
}

impl Printer {
    /// What the machine must afford for a difference computation against
    /// this session: the run coordinates stay within `usize`.
    pub open spec fn diff_bounds_ok(&self, s: Seq<char>) -> bool {
        let w = self.grid_width->0;
        let origin = self.origin_position->0;
        let n = flat_of(s).len();
        &&& flat_of(self.previous_grid@).len() == n
        &&& (self.origin_position is Some && self.grid_width is Some && self.grid_height is Some
            && n > 0 ==> {
            &&& w >= 1
            &&& origin.0 + w <= usize::MAX
            &&& origin.1 as int + n as int / w as int + 2 * n + 1 <= usize::MAX as int
        })
    }

    /// The escape stream that repaints exactly the cells of `grid` that
    /// differ from the stored previous grid, both taken as flattened cell
    /// rows of the stored width, at the stored origin.
    pub fn get_printable_difference(&self, grid: &str) -> (r: Result<String, PrintingError>)
        requires
            self.diff_bounds_ok(grid@),
        ensures
            match r {
                Ok(out) => {
                    &&& self.origin_position is Some
                    &&& self.grid_width is Some
                    &&& self.grid_height is Some
                    &&& out@ == serialize_runs(
                        pixel_differences(
                            flat_of(self.previous_grid@),
                            flat_of(grid@),
                            self.grid_width->0 as int,
                        ),
                        (self.origin_position->0).0 as int,
                        (self.origin_position->0).1 as int,
                        self.grid_width->0 as int,
                    )
                },
                Err(e) => {
                    &&& ((e == PrintingError::OriginNotDefined && self.origin_position is None) || (
                    e == PrintingError::GridDimensionsNotDefined && self.origin_position is Some
                        && !(self.grid_width is Some && self.grid_height is Some)))
                },
            },
    {
        let origin = match self.get_origin_position() {
            Ok(o) => o,
            Err(e) => {
                return Err(e);
            },
        };
        let dims = match self.get_grid_dimensions() {
            Ok(d) => d,
            Err(e) => {
                return Err(e);
            },
        };
        let grid_width = dims.0;
        let old_chars = chars_of(self.previous_grid.as_str());
        let old_flat = remove_breaks(&old_chars);
        let new_chars = chars_of(grid);
        let new_flat = remove_breaks(&new_chars);
        let ghost olds = flat_of(self.previous_grid@);
        let ghost news = flat_of(grid@);
        let n = new_flat.len();
        if n == 0 {
            proof {
                assert(pixel_differences(olds, news, grid_width as int)
                    == Seq::<crate::diff::RunSpec>::empty());
                assert(serialize_runs(
                    Seq::<crate::diff::RunSpec>::empty(),
                    origin.0 as int,
                    origin.1 as int,
                    grid_width as int,
                ) == Seq::<char>::empty());
            }
            return Ok(String::new());
        }
        let runs = compute_pixel_differences(&old_flat, &new_flat, grid_width);
        let ghost all = runs_view(runs@);
        let mut out: Vec<char> = Vec::new();
        let mut k: usize = 0;
        while k < runs.len()
            invariant
                all == runs_view(runs@),
                n == news.len(),
                n > 0,
                olds.len() == n,
                grid_width >= 1,
                origin.0 + grid_width <= usize::MAX,
                origin.1 as int + n as int / grid_width as int + 2 * n + 1 <= usize::MAX as int,
                k <= runs@.len(),
                forall|q: int|
                    0 <= q < runs@.len() ==> 0 <= (#[trigger] runs@[q]).index < n
                        && runs@[q].pixels@.len() <= 2 * n,
                out@ == serialize_runs(
                    all.take(k as int),
                    origin.0 as int,
                    origin.1 as int,
                    grid_width as int,
                ),
            decreases runs@.len() - k,
        {
            let run_index = runs[k].index;
            let payload = chars_of(runs[k].pixels.as_str());
            proof {
                assert(runs@[k as int].index < n);
                assert(run_index as int / grid_width as int <= (n - 1) as int
                    / grid_width as int) by (nonlinear_arith)
                    requires
                        0 <= run_index as int <= (n - 1) as int,
                        grid_width >= 1,
                ;
                assert((n - 1) as int / grid_width as int <= n as int / grid_width as int)
                    by (nonlinear_arith)
                    requires
                        n >= 1,
                        grid_width >= 1,
                ;
            }
            push_serialized_run(&mut out, run_index, &payload, origin, grid_width);
            proof {
                let r = all[k as int];
                lemma_serialize_runs_push(
                    all.take(k as int),
                    r,
                    origin.0 as int,
                    origin.1 as int,
                    grid_width as int,
                );
                assert(all.take(k + 1) =~= all.take(k as int).push(r));
                assert(out@ =~= serialize_runs(
                    all.take(k + 1),
                    origin.0 as int,
                    origin.1 as int,
                    grid_width as int,
                ));
            }
            k = k + 1;
        }
        proof {
            assert(all.take(all.len() as int) =~= all);
        }
        Ok(chars_to_string(&out))
    }

    /// The origin at which a grid of the given dimensions is drawn on a
    /// terminal of the given dimensions, under the stored printing
    /// position.
    pub fn get_new_origin(
        &self,
        new_grid_dimensions: (usize, usize),
        terminal_dimensions: (usize, usize),
    ) -> (r: (usize, usize))
        requires
            new_grid_dimensions.0 <= terminal_dimensions.0,
            new_grid_dimensions.1 <= terminal_dimensions.1,
            terminal_dimensions.0 < usize::MAX,
            terminal_dimensions.1 < usize::MAX,
        ensures
            r.0 as int == resolve_x(
                self.printing_position.x_printing_position,
                new_grid_dimensions.0 as int,
                terminal_dimensions.0 as int,
            ),
            r.1 as int == resolve_y(
                self.printing_position.y_printing_position,
                new_grid_dimensions.1 as int,
                terminal_dimensions.1 as int,
            ),
    {
        let x: usize = match self.printing_position.x_printing_position {
            XPrintingPosition::Left => 1,
            XPrintingPosition::Middle => calculate_grid_center_placement(
                new_grid_dimensions.0,
                terminal_dimensions.0,
            ),
            XPrintingPosition::Right => calculate_grid_positive_border_placement(
                new_grid_dimensions.0,
                terminal_dimensions.0,
            ),
            XPrintingPosition::Custom(cursor_x_position) => calculate_custom_grid_position(
                new_grid_dimensions.0,
                terminal_dimensions.0,
                cursor_x_position,
            ),
        };
        let y: usize = match self.printing_position.y_printing_position {
            YPrintingPosition::Top => 1,
            YPrintingPosition::Middle => calculate_grid_center_placement(
                new_grid_dimensions.1,
                terminal_dimensions.1,
            ),
            YPrintingPosition::Bottom => calculate_grid_positive_border_placement(
                new_grid_dimensions.1,
                terminal_dimensions.1,
            ),
            YPrintingPosition::Custom(cursor_y_position) => calculate_custom_grid_position(
                new_grid_dimensions.1,
                terminal_dimensions.1,
                cursor_y_position,
            ),
        };
        (x, y)
    }
}

impl DynamicPrinter for Printer {
    open spec fn model(&self) -> PrinterModel {
        PrinterModel {
            previous_grid: self.previous_grid@,
            origin_position: self.origin_position,
            grid_width: self.grid_width,
            grid_height: self.grid_height,
            previous_terminal_dimensions: self.previous_terminal_dimensions,
            printing_position: self.printing_position,
            printing_position_changed_since_last_print:
                self.printing_position_changed_since_last_print,
        }
    }

    fn dynamic_print(&mut self, new_grid: String, terminal_dimensions: (usize, usize)) -> (r:
        Result<String, PrintingError>) {
        let ghost m0 = old(self).model();
        let ghost s = new_grid@;
        let td = terminal_dimensions;
        let dims = match Printer::get_rectangular_dimensions(new_grid.as_str()) {
            Ok(d) => d,
            Err(e) => {
                return Err(e);
            },
        };
        let w = dims.0;
        let h = dims.1;
        proof {
            assert(grid_dims_ok(s, w as int, h as int));
        }
        if w > td.0 || h > td.1 {
            return Err(PrintingError::GridLargerThanTerminal);
        }
        if w == 0 || h == 0 {
            self.previous_grid = new_grid;
            self.update_dimensions((w, h));
            self.update_terminal_dimensions_from_previous_print(td);
            self.printing_position_changed_since_last_print = false;
            proof {
                if s.len() > 0 {
                    lemma_grid_dims_to_rect(s, w as int, h as int);
                }
                lemma_success_for_all_dims(m0, self.model(), s, td, Seq::<char>::empty(), w as int, h as int);
            }
            return Ok(String::new());
        }
        proof {
            lemma_grid_dims_to_rect(s, w as int, h as int);
            assert(s.len() > 0);
        }
        match self.get_grid_dimensions() {
            Ok(stored) => {
                if stored.0 != w || stored.1 != h {
                    self.printing_position_changed_since_last_print = true;
                }
            },
            Err(_) => {},
        }
        match self.get_terminal_dimensions_from_previous_print() {
            Ok(stored) => {
                if stored.0 != td.0 || stored.1 != td.1 {
                    self.printing_position_changed_since_last_print = true;
                }
            },
            Err(_) => {},
        }
        let ghost redraw = self.printing_position_changed_since_last_print;
        proof {
            lemma_resolve_x_bounds(
                m0.printing_position.x_printing_position,
                w as int,
                td.0 as int,
            );
            lemma_resolve_y_bounds(
                m0.printing_position.y_printing_position,
                h as int,
                td.1 as int,
            );
            assert(2 * (td.0 as int) * (td.1 as int) >= 2 * (td.0 as int)) by (nonlinear_arith)
                requires
                    td.0 >= 0,
                    td.1 >= 1,
            ;
        }
        let output: String;
        if !self.previous_grid.as_str().is_empty()
            && !self.printing_position_changed_since_last_print {
            let new_origin = self.get_new_origin((w, h), td);
            self.update_origin(new_origin);
            proof {
                // the stored grid has the same shape as the new one, so the
                // flattened forms have the same cell count
                assert(m0.grid_width->0 == w && m0.grid_height->0 == h);
                lemma_flat_of_rect(m0.previous_grid, w as int, h as int);
                lemma_flat_of_rect(s, w as int, h as int);
                assert((w as int) * (h as int) / (w as int) == h as int) by {
                    vstd::arithmetic::div_mod::lemma_fundamental_div_mod_converse(
                        (w as int) * (h as int),
                        w as int,
                        h as int,
                        0,
                    );
                }
                assert((w as int) * (h as int) <= (td.0 as int) * (td.1 as int))
                    by (nonlinear_arith)
                    requires
                        0 <= w as int <= td.0 as int,
                        0 <= h as int <= td.1 as int,
                ;
                // on a terminal of these dimensions every run coordinate
                // stays within usize
                let nn = flat_of(s).len() as int;
                assert(2 * (td.0 as int) * (td.1 as int) == 2 * ((td.0 as int) * (td.1 as int)))
                    by (nonlinear_arith);
                assert(nn == (w as int) * (h as int));
                assert(nn / (w as int) == h as int);
                assert((self.origin_position->0).1 as int <= td.1 as int);
                assert((self.origin_position->0).1 as int + nn / (w as int) + 2 * nn + 1
                    <= usize::MAX as int);
                assert(self.diff_bounds_ok(s));
            }
            let printable_difference = match self.get_printable_difference(new_grid.as_str()) {
                Ok(d) => d,
                Err(_) => {
                    proof {
                        assert(false);
                    }
                    return Err(PrintingError::OriginNotDefined);
                },
            };
            output = printable_difference;
        } else if self.printing_position_changed_since_last_print {
            let cleared = match self.clear_grid() {
                Ok(c) => c,
                Err(_) => String::new(),
            };
            let new_origin = self.get_new_origin((w, h), td);
            self.update_dimensions((w, h));
            self.update_origin(new_origin);
            let drawn = match print_grid_freestanding(new_grid.as_str(), new_origin) {
                Ok(d) => d,
                Err(_) => {
                    proof {
                        assert(false);
                    }
                    return Err(PrintingError::NonRectangularGrid);
                },
            };
            output = cleared.concat(drawn.as_str());
        } else {
            let new_origin = self.get_new_origin((w, h), td);
            self.update_origin(new_origin);
            let drawn = match print_grid_freestanding(new_grid.as_str(), new_origin) {
                Ok(d) => d,
                Err(_) => {
                    proof {
                        assert(false);
                    }
                    return Err(PrintingError::NonRectangularGrid);
                },
            };
            output = drawn;
        }
        self.previous_grid = new_grid;
        self.update_dimensions((w, h));
        self.update_terminal_dimensions_from_previous_print(td);
        self.printing_position_changed_since_last_print = false;
        proof {
            lemma_success_for_all_dims(m0, self.model(), s, td, output@, w as int, h as int);
        }
        Ok(output)
    }

    fn clear_grid(&mut self) -> (r: Result<String, PrintingError>) {
        let dims = match self.get_grid_dimensions() {
            Ok(d) => d,
            Err(e) => {
                return Err(e);
            },
        };
        let origin = match self.get_origin_position() {
            Ok(o) => o,
            Err(e) => {
                return Err(e);
            },
        };
        let blank = Printer::create_grid_from_single_character(' ', dims.0, dims.1);
        let v = chars_of(blank.as_str());
        let mut out: Vec<char> = Vec::new();
        push_full_draw(&mut out, &v, origin);
        self.previous_grid = blank;
        proof {
            if self.previous_grid@.len() > 0 {
                if dims.1 == 0 {
                    assert(single_char_grid(' ', dims.0 as int, dims.1 as int)
                        == Seq::<char>::empty());
                    assert(false);
                }
                crate::grid::lemma_single_char_grid(' ', dims.0 as int, dims.1 as int);
            }
        }
        Ok(chars_to_string(&out))
    }
}

/// Since a grid's dimensions are unique, what was shown for the dimensions
/// the validator found holds for any pair the text has.
proof fn lemma_success_for_all_dims(
    m0: PrinterModel,
    m1: PrinterModel,
    s: Seq<char>,
    td: (usize, usize),
    out: Seq<char>,
    w: int,
    h: int,
)
    requires
        grid_dims_ok(s, w, h),
        dynamic_print_success(m0, m1, s, td, out, w, h),
    ensures
        forall|w2: int, h2: int|
            grid_dims_ok(s, w2, h2) ==> dynamic_print_success(m0, m1, s, td, out, w2, h2),
{
    assert forall|w2: int, h2: int| grid_dims_ok(s, w2, h2) implies dynamic_print_success(
        m0,
        m1,
        s,
        td,
        out,
        w2,
        h2,
    ) by {
        lemma_dims_unique(s, w, h, w2, h2);
    }
}

/// Idempotence: a print of the very grid the session already shows, on an
/// unchanged terminal, owes no output at all — the difference stream of a
/// grid against itself is empty.
pub proof fn lemma_second_print_of_same_grid_is_empty(
    m0: PrinterModel,
    m1: PrinterModel,
    s: Seq<char>,
    td: (usize, usize),
    out: String,
    w: int,
    h: int,
)
    requires
        grid_dims_ok(s, w, h),
        1 <= w,
        1 <= h,
        m0.previous_grid == s,
        m0.grid_width == Some(w as usize),
        m0.grid_height == Some(h as usize),
        m0.previous_terminal_dimensions == Some(td),
        m0.printing_position_changed_since_last_print == false,
        dynamic_print_post(m0, m1, s, td, Ok(out)),
    ensures
        out@.len() == 0,
{
    lemma_grid_dims_to_rect(s, w, h);
    assert(s.len() > 0);
    assert(dynamic_print_success(m0, m1, s, td, out@, w, h));
    let ox = resolve_x(m0.printing_position.x_printing_position, w, td.0 as int);
    let oy = resolve_y(m0.printing_position.y_printing_position, h, td.1 as int);
    crate::diff::lemma_identical_grids_empty_difference(flat_of(s), w, ox, oy);
}

} // verus!
