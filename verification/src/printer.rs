//! The printer session: the previously printed grid and its placement,
//! grid validation, and the grid-building helpers.

use crate::errors::{LengthErrorData, PrintingError};
use crate::escape::{dec_rep, push_usize_decimal};
use crate::grid::{
    break_char, chars_of, chars_to_string, first_break, grid_dims_ok, join_lines,
    lemma_break_length_violation, lemma_break_pattern_violation, lemma_first_break_is,
    lemma_lines_of_join, lemma_max_line_len_bound, lemma_mod_block, lemma_rect_to_lines,
    lines_of, max_line_len, pad_line, padded_lines, repeat_char, rows_grid, rows_view,
    single_char_grid, split_rows,
};
use crate::printing_position::{PrintingPosition, XPrintingPosition, YPrintingPosition};
use vstd::prelude::*;

verus! {

/// A printing session: it keeps the previously printed grid, its dimensions
/// and origin, the terminal dimensions seen at the previous print, and the
/// configured printing position, so that the next print can be reduced to
/// the difference between the two grids.
#[derive(Debug)]
pub struct Printer {
    /// The text of the grid printed by the previous call, empty before the
    /// first print.
    pub previous_grid: String,
    /// The terminal cell of the previous grid's top-left corner, 1-indexed.
    pub origin_position: Option<(usize, usize)>,
    /// The height of the previously printed grid.
    pub grid_height: Option<usize>,
    /// The width of the previously printed grid.
    pub grid_width: Option<usize>,
    /// The terminal dimensions at the time of the previous print.
    pub previous_terminal_dimensions: Option<(usize, usize)>,
    /// Where grids are placed on the terminal.
    pub printing_position: PrintingPosition,
    /// Set when the placement inputs changed since the previous print, which
    /// forces the next print to redraw in full.
    pub printing_position_changed_since_last_print: bool,
}

impl Printer {
    /// A printer state holding nothing but the given printing position.
    pub open spec fn fresh_with(self, position: PrintingPosition) -> bool {
        &&& self.previous_grid@ == Seq::<char>::empty()
        &&& self.origin_position is None
        &&& self.grid_height is None
        &&& self.grid_width is None
        &&& self.previous_terminal_dimensions is None
        &&& self.printing_position == position
        &&& self.printing_position_changed_since_last_print == false
    }

    /// Creates a new printer with the default printing position, the bottom
    /// left of the terminal.
    pub fn new() -> (r: Self)
        ensures
            r.fresh_with(
                (PrintingPosition {
                    x_printing_position: XPrintingPosition::Left,
                    y_printing_position: YPrintingPosition::Bottom,
                }),
            ),
    {
        Self {
            previous_grid: String::new(),
            origin_position: None,
            grid_height: None,
            grid_width: None,
            previous_terminal_dimensions: None,
            printing_position: PrintingPosition {
                x_printing_position: XPrintingPosition::Left,
                y_printing_position: YPrintingPosition::Bottom,
            },
            printing_position_changed_since_last_print: false,
        }
    }

    /// Creates a new printer that places grids at the given printing
    /// position.
    pub fn new_with_printing_position(printing_position: PrintingPosition) -> (r: Self)
        ensures
            r.fresh_with(printing_position),
    {
        Self {
            previous_grid: String::new(),
            origin_position: None,
            grid_height: None,
            grid_width: None,
            previous_terminal_dimensions: None,
            printing_position,
            printing_position_changed_since_last_print: false,
        }
    }

    /// Replaces the stored printing position; the next print will redraw in
    /// full at the new place.
    pub fn replace_printing_position(&mut self, printing_position: PrintingPosition)
        ensures
            *final(self) == (Printer {
                printing_position,
                printing_position_changed_since_last_print: true,
                ..*old(self)
            }),
    {
        self.printing_position = printing_position;
        self.printing_position_changed_since_last_print = true;
    }

    /// Replaces the horizontal half of the stored printing position; the
    /// next print will redraw in full at the new place.
    pub fn replace_x_printing_position(
        &mut self,
        new_x_printing_position: XPrintingPosition,
    ) -> (r: Result<(), PrintingError>)
        ensures
            r is Ok,
            *final(self) == (Printer {
                printing_position: (PrintingPosition {
                    x_printing_position: new_x_printing_position,
                    ..old(self).printing_position
                }),
                printing_position_changed_since_last_print: true,
                ..*old(self)
            }),
    {
        self.printing_position.x_printing_position = new_x_printing_position;
        self.printing_position_changed_since_last_print = true;
        Ok(())
    }

    /// Replaces the vertical half of the stored printing position; the next
    /// print will redraw in full at the new place.
    pub fn replace_y_printing_position(
        &mut self,
        new_y_printing_position: YPrintingPosition,
    ) -> (r: Result<(), PrintingError>)
        ensures
            r is Ok,
            *final(self) == (Printer {
                printing_position: (PrintingPosition {
                    y_printing_position: new_y_printing_position,
                    ..old(self).printing_position
                }),
                printing_position_changed_since_last_print: true,
                ..*old(self)
            }),
    {
        self.printing_position.y_printing_position = new_y_printing_position;
        self.printing_position_changed_since_last_print = true;
        Ok(())
    }

    /// Returns a reference to the currently stored printing position.
    pub fn get_current_printing_position(&self) -> (r: &PrintingPosition)
        ensures
            r == self.printing_position,
    {
        &self.printing_position
    }

    /// Creates a grid of the given size whose every cell holds the given
    /// character.
    pub fn create_grid_from_single_character(character: char, width: usize, height: usize) -> (r:
        String)
        ensures
            r@ == single_char_grid(character, width as int, height as int),
    {
        let mut out: Vec<char> = Vec::new();
        let mut row: usize = 0;
        while row < height
            invariant
                row <= height,
                out@ == single_char_grid(character, width as int, row as int),
            decreases height - row,
        {
            if row > 0 {
                out.push('\n');
            }
            let ghost base = out@;
            let mut j: usize = 0;
            while j < width
                invariant
                    j <= width,
                    out@ == base + repeat_char(character, j as int),
                decreases width - j,
            {
                out.push(character);
                proof {
                    assert(base + repeat_char(character, j + 1) =~= (base + repeat_char(
                        character,
                        j as int,
                    )).push(character));
                }
                j = j + 1;
            }
            proof {
                if row == 0 {
                    assert(out@ =~= single_char_grid(character, width as int, 1));
                } else {
                    assert(out@ =~= single_char_grid(character, width as int, row as int).push(
                        break_char(),
                    ) + repeat_char(character, width as int));
                }
            }
            row = row + 1;
        }
        chars_to_string(&out)
    }

    /// Creates a grid of the given size from the given list of characters,
    /// one cell each, in row-major order.
    ///
    /// Exactly `width * height` characters must be supplied; a shorter or
    /// longer list is reported as an error carrying both counts.
    pub fn create_grid_from_full_character_list(
        characters: &Vec<char>,
        width: usize,
        height: usize,
    ) -> (r: Result<String, PrintingError>)
        requires
            width * height <= usize::MAX,
            !(width == 0 && characters@.len() == 0),
        ensures
            match r {
                Ok(g) => {
                    &&& characters@.len() == width * height
                    &&& g@ == rows_grid(characters@, width as int)
                },
                Err(e) => match e {
                    PrintingError::TooLittleCharacters(d) => {
                        &&& characters@.len() < width * height
                        &&& d == (LengthErrorData {
                            expected_character_count: characters.len(),
                            actual_character_count: (width * height) as usize,
                        })
                    },
                    PrintingError::TooManyCharacters(d) => {
                        &&& characters@.len() > width * height
                        &&& d == (LengthErrorData {
                            expected_character_count: characters.len(),
                            actual_character_count: (width * height) as usize,
                        })
                    },
                    _ => false,
                },
            },
    {
        let grid_size = width * height;
        if characters.len() < grid_size {
            Err(
                PrintingError::TooLittleCharacters(
                    LengthErrorData::new(characters.len(), grid_size),
                ),
            )
        } else if characters.len() > grid_size {
            Err(
                PrintingError::TooManyCharacters(LengthErrorData::new(characters.len(), grid_size)),
            )
        } else {
            Ok(create_grid_from_characters(characters, width))
        }
    }

    /// The escape stream that climbs back up over an already printed grid of
    /// the given height and reprints it from there.
    pub fn print_over_previous_grid(grid: String, height: usize) -> (r: String)
        requires
            height >= 1,
        ensures
            r@ == seq!['\x1b', '['] + dec_rep(height - 1) + seq![';', 'A', '\r'] + grid@,
    {
        let mut out: Vec<char> = Vec::new();
        out.push('\x1b');
        out.push('[');
        push_usize_decimal(&mut out, height - 1);
        out.push(';');
        out.push('A');
        out.push('\r');
        let ghost head = out@;
        let gv = chars_of(grid.as_str());
        let mut i: usize = 0;
        while i < gv.len()
            invariant
                i <= gv@.len(),
                out@ == head + gv@.take(i as int),
            decreases gv@.len() - i,
        {
            out.push(gv[i]);
            proof {
                assert(head + gv@.take(i + 1) =~= (head + gv@.take(i as int)).push(
                    gv@[i as int],
                ));
            }
            i = i + 1;
        }
        proof {
            assert(gv@.take(gv@.len() as int) =~= gv@);
            assert(out@ =~= seq!['\x1b', '['] + dec_rep(height - 1) + seq![';', 'A', '\r']
                + grid@);
        }
        chars_to_string(&out)
    }

    /// Returns the stored grid dimensions, or reports that none are stored.
    pub fn get_grid_dimensions(&self) -> (r: Result<(usize, usize), PrintingError>)
        ensures
            r == if self.grid_width is Some && self.grid_height is Some {
                Ok::<(usize, usize), PrintingError>(
                    (self.grid_width->0, self.grid_height->0),
                )
            } else {
                Err::<(usize, usize), PrintingError>(PrintingError::GridDimensionsNotDefined)
            },
    {
        match (self.grid_width, self.grid_height) {
            (Some(width), Some(height)) => Ok((width, height)),
            _ => Err(PrintingError::GridDimensionsNotDefined),
        }
    }

    /// Returns the stored origin position, or reports that none is stored.
    pub fn get_origin_position(&self) -> (r: Result<(usize, usize), PrintingError>)
        ensures
            r == if self.origin_position is Some {
                Ok::<(usize, usize), PrintingError>(self.origin_position->0)
            } else {
                Err::<(usize, usize), PrintingError>(PrintingError::OriginNotDefined)
            },
    {
        match self.origin_position {
            Some(origin) => Ok(origin),
            None => Err(PrintingError::OriginNotDefined),
        }
    }

    /// Returns the terminal dimensions stored by the previous print, or
    /// reports that none are stored.
    pub fn get_terminal_dimensions_from_previous_print(&self) -> (r: Result<
        (usize, usize),
        PrintingError,
    >)
        ensures
            r == if self.previous_terminal_dimensions is Some {
                Ok::<(usize, usize), PrintingError>(self.previous_terminal_dimensions->0)
            } else {
                Err::<(usize, usize), PrintingError>(PrintingError::TerminalDimensionsNotDefined)
            },
    {
        match self.previous_terminal_dimensions {
            Some(dims) => Ok(dims),
            None => Err(PrintingError::TerminalDimensionsNotDefined),
        }
    }

    /// Returns the dimensions of the passed in grid text: its width and its
    /// height, in cells.
    ///
    /// Empty text is the empty grid and has dimensions zero by zero; any
    /// other text must cut into rows of one shared width, and is otherwise
    /// reported as non-rectangular.
    pub fn get_rectangular_dimensions(rectangle_shape: &str) -> (r: Result<
        (usize, usize),
        PrintingError,
    >)
        requires
            rectangle_shape@.len() < usize::MAX,
        ensures
            match r {
                Ok(dims) => grid_dims_ok(rectangle_shape@, dims.0 as int, dims.1 as int),
                Err(e) => {
                    &&& e == PrintingError::NonRectangularGrid
                    &&& forall|w: int, h: int| !grid_dims_ok(rectangle_shape@, w, h)
                },
            },
            forall|w: int, h: int|
                grid_dims_ok(rectangle_shape@, w, h) ==> r == Ok::<
                    (usize, usize),
                    PrintingError,
                >((w as usize, h as usize)),
    {
        let ghost s = rectangle_shape@;
        let v = chars_of(rectangle_shape);
        let n = v.len();
        if n == 0 {
            proof {
                assert(grid_dims_ok(s, 0, 0));
            }
            return Ok((0, 0));
        }
        let mut w: usize = 0;
        while w < n && v[w] != '\n'
            invariant
                s == rectangle_shape@,
                w <= n,
                n == s.len(),
                v@ == s,
                forall|j: int| 0 <= j < w ==> s[j] != break_char(),
            decreases n - w,
        {
            w = w + 1;
        }
        proof {
            lemma_first_break_is(s, w as int);
        }
        let mut i: usize = 0;
        let mut cur: usize = 0;
        let mut rows: usize = 0;
        while i < n
            invariant
                s == rectangle_shape@,
                n == s.len(),
                n < usize::MAX,
                v@ == s,
                i <= n,
                cur <= w,
                w <= n,
                first_break(s) == w,
                i as int == rows * (w as int + 1) + cur,
                rows <= i,
                forall|j: int| 0 <= j < i ==> ((s[j] == break_char()) <==> j % (w as int + 1) == w as int),
            decreases n - i,
        {
            let c = v[i];
            if c == '\n' {
                if cur != w {
                    proof {
                        lemma_mod_block(rows as int, cur as int, w as int + 1);
                        lemma_break_pattern_violation(s, w as int, i as int);
                    }
                    return Err(PrintingError::NonRectangularGrid);
                }
                proof {
                    lemma_mod_block(rows as int, w as int, w as int + 1);
                    assert((rows + 1) * (w as int + 1) == rows * (w as int + 1) + (w as int + 1))
                        by (nonlinear_arith);
                }
                rows = rows + 1;
                cur = 0;
            } else {
                if cur == w {
                    proof {
                        lemma_mod_block(rows as int, cur as int, w as int + 1);
                        lemma_break_pattern_violation(s, w as int, i as int);
                    }
                    return Err(PrintingError::NonRectangularGrid);
                }
                proof {
                    lemma_mod_block(rows as int, cur as int, w as int + 1);
                }
                cur = cur + 1;
            }
            i = i + 1;
        }
        if cur != w {
            proof {
                lemma_mod_block(rows as int, cur as int, w as int + 1);
                lemma_break_length_violation(s, w as int);
            }
            return Err(PrintingError::NonRectangularGrid);
        }
        proof {
            assert((rows + 1) * (w as int + 1) - 1 == rows * (w as int + 1) + w as int)
                by (nonlinear_arith);
            assert(crate::grid::rect_shape(s, w as int, rows as int + 1));
            lemma_rect_to_lines(s, w as int, rows as int + 1);
            assert(grid_dims_ok(s, w as int, rows as int + 1));
            assert forall|w2: int, h2: int| grid_dims_ok(s, w2, h2) implies w2 == w as int && h2
                == rows as int + 1 by {
                crate::grid::lemma_dims_unique(s, w2, h2, w as int, rows as int + 1);
            }
        }
        Ok((w, rows + 1))
    }

    /// Returns true exactly when the passed in text has grid dimensions.
    pub fn is_rectangular(rectangle_shape: &str) -> (r: bool)
        requires
            rectangle_shape@.len() < usize::MAX,
        ensures
            r == exists|w: int, h: int| grid_dims_ok(rectangle_shape@, w, h),
    {
        let dims = Self::get_rectangular_dimensions(rectangle_shape);
        proof {
            if dims is Ok {
                let d = dims->Ok_0;
                assert(grid_dims_ok(rectangle_shape@, d.0 as int, d.1 as int));
            }
        }
        dims.is_ok()
    }

    /// Resets all data of the printer, back to the default printing
    /// position.
    pub fn reset(&mut self)
        ensures
            final(self).fresh_with(
                (PrintingPosition {
                    x_printing_position: XPrintingPosition::Left,
                    y_printing_position: YPrintingPosition::Bottom,
                }),
            ),
    {
        *self = Printer::new();
    }

    /// Resets all data of the printer except the printing position.
    pub fn reset_and_retain_printing_position(&mut self)
        ensures
            final(self).fresh_with(old(self).printing_position),
    {
        let position = self.printing_position;
        *self = Printer::new_with_printing_position(position);
    }

    /// Resets all data of the printer and stores the given printing
    /// position.
    pub fn reset_with_position(&mut self, printing_position: PrintingPosition)
        ensures
            final(self).fresh_with(printing_position),
    {
        *self = Printer::new_with_printing_position(printing_position);
    }

    /// Pads every row of the grid with spaces out to the length of the
    /// longest one, so that the text becomes rectangular.
    pub fn pad_rows_for_rectangle(grid: &mut String)
        ensures
            final(grid)@ == join_lines(padded_lines(old(grid)@)),
            exists|w: int, h: int| grid_dims_ok(final(grid)@, w, h),
    {
        let v = chars_of(grid.as_str());
        let rows = split_rows(&v);
        let ghost ls = rows_view(rows@);
        let mut m: usize = 0;
        let mut k: usize = 0;
        while k < rows.len()
            invariant
                k <= rows@.len(),
                ls == rows_view(rows@),
                m as int == max_line_len(ls.take(k as int)),
            decreases rows@.len() - k,
        {
            proof {
                assert(ls.take(k + 1).drop_last() =~= ls.take(k as int));
                assert(ls.take(k + 1).last() == rows@[k as int]@);
            }
            if rows[k].len() > m {
                m = rows[k].len();
            }
            k = k + 1;
        }
        proof {
            assert(ls.take(ls.len() as int) =~= ls);
            lemma_max_line_len_bound(ls);
        }
        let ghost padded = ls.map_values(|l: Seq<char>| pad_line(l, m as int));
        let mut out: Vec<char> = Vec::new();
        let mut k: usize = 0;
        while k < rows.len()
            invariant
                k <= rows@.len(),
                ls == rows_view(rows@),
                m as int == max_line_len(ls),
                forall|i: int| 0 <= i < ls.len() ==> (#[trigger] ls[i]).len() <= m,
                padded == ls.map_values(|l: Seq<char>| pad_line(l, m as int)),
                out@ == join_lines(padded.take(k as int)),
            decreases rows@.len() - k,
        {
            if k > 0 {
                out.push('\n');
            }
            let ghost base = out@;
            let row_len = rows[k].len();
            let mut j: usize = 0;
            while j < row_len
                invariant
                    j <= row_len,
                    row_len == rows@[k as int]@.len(),
                    k < rows@.len(),
                    out@ == base + rows@[k as int]@.take(j as int),
                decreases row_len - j,
            {
                let c = rows[k][j];
                out.push(c);
                proof {
                    assert(base + rows@[k as int]@.take(j + 1) =~= (base + rows@[k as int]@.take(
                        j as int,
                    )).push(rows@[k as int]@[j as int]));
                }
                j = j + 1;
            }
            proof {
                assert(rows@[k as int]@.take(row_len as int) =~= rows@[k as int]@);
                assert(ls[k as int] == rows@[k as int]@);
                assert(ls[k as int].len() <= m);
            }
            let mut sp: usize = row_len;
            while sp < m
                invariant
                    row_len <= sp <= m,
                    k < rows@.len(),
                    row_len == rows@[k as int]@.len(),
                    out@ == base + rows@[k as int]@ + repeat_char(' ', sp - row_len),
                decreases m - sp,
            {
                out.push(' ');
                proof {
                    assert(base + rows@[k as int]@ + repeat_char(' ', sp - row_len + 1) =~= (base
                        + rows@[k as int]@ + repeat_char(' ', sp - row_len)).push(' '));
                }
                sp = sp + 1;
            }
            proof {
                let ghost prow = padded[k as int];
                assert(prow == pad_line(ls[k as int], m as int));
                assert(ls[k as int] == rows@[k as int]@);
                if sp == row_len {
                    assert(repeat_char(' ', 0) =~= Seq::<char>::empty());
                    assert(prow =~= rows@[k as int]@);
                } else {
                    assert(prow =~= rows@[k as int]@ + repeat_char(' ', m - row_len));
                }
                assert(out@ =~= base + prow);
                crate::grid::lemma_join_lines_push(padded.take(k as int), prow);
                assert(padded.take(k + 1) =~= padded.take(k as int).push(prow));
                assert(out@ =~= join_lines(padded.take(k + 1)));
            }
            k = k + 1;
        }
        proof {
            assert(padded.take(padded.len() as int) =~= padded);
            assert(padded =~= padded_lines(old(grid)@));
        }
        let result = chars_to_string(&out);
        *grid = result;
        proof {
            assert forall|a: int, b: int|
                0 <= a < padded.len() && 0 <= b < padded[a].len() implies #[trigger] padded[a][b]
                != break_char() by {
                let l = ls[a];
                assert(padded[a] == pad_line(l, m as int));
                if b < l.len() {
                    assert(padded[a][b] == l[b]);
                } else {
                    assert(padded[a][b] == ' ');
                }
            }
            lemma_lines_of_join(padded);
            if grid@.len() == 0 {
                assert(grid_dims_ok(grid@, 0, 0));
            } else {
                assert forall|i: int| 0 <= i < lines_of(grid@).len() implies (#[trigger] lines_of(
                    grid@,
                )[i]).len() == m as int by {
                    assert(lines_of(grid@)[i] == padded[i]);
                }
                assert(grid_dims_ok(grid@, m as int, padded.len() as int));
            }
        }
    }

    /// Stores the given origin; when one was stored and the new one is
    /// different, the next print is forced to redraw in full.
    pub fn update_origin(&mut self, new_origin: (usize, usize))
        ensures
            *final(self) == (Printer {
                origin_position: Some(new_origin),
                printing_position_changed_since_last_print: (old(
                    self,
                ).printing_position_changed_since_last_print || (old(self).origin_position is Some
                    && old(self).origin_position->0 != new_origin)),
                ..*old(self)
            }),
    {
        if let Some(current_origin) = self.origin_position {
            if current_origin.0 != new_origin.0 || current_origin.1 != new_origin.1 {
                self.printing_position_changed_since_last_print = true;
            }
        }
        self.origin_position = Some(new_origin);
    }

    /// Stores the given grid dimensions; when some were stored and the new
    /// ones are different, the next print is forced to redraw in full.
    pub fn update_dimensions(&mut self, new_dimensions: (usize, usize))
        ensures
            *final(self) == (Printer {
                grid_width: Some(new_dimensions.0),
                grid_height: Some(new_dimensions.1),
                printing_position_changed_since_last_print: (old(
                    self,
                ).printing_position_changed_since_last_print || (old(self).grid_width is Some
                    && old(self).grid_height is Some && (old(self).grid_width->0
                    != new_dimensions.0 || old(self).grid_height->0 != new_dimensions.1))),
                ..*old(self)
            }),
    {
        match (self.grid_width, self.grid_height) {
            (Some(current_width), Some(current_height)) => {
                if current_width != new_dimensions.0 || current_height != new_dimensions.1 {
                    self.printing_position_changed_since_last_print = true;
                }
            },
            _ => {},
        }
        self.grid_width = Some(new_dimensions.0);
        self.grid_height = Some(new_dimensions.1);
    }

    /// Stores the given terminal dimensions; when some were stored and the
    /// new ones are different, the next print is forced to redraw in full.
    pub fn update_terminal_dimensions_from_previous_print(
        &mut self,
        new_terminal_dimensions: (usize, usize),
    )
        ensures
            *final(self) == (Printer {
                previous_terminal_dimensions: Some(new_terminal_dimensions),
                printing_position_changed_since_last_print: (old(
                    self,
                ).printing_position_changed_since_last_print || (old(
                    self,
                ).previous_terminal_dimensions is Some && old(self).previous_terminal_dimensions->0
                    != new_terminal_dimensions)),
                ..*old(self)
            }),
    {
        if let Some(current_dimensions) = self.previous_terminal_dimensions {
            if current_dimensions.0 != new_terminal_dimensions.0 || current_dimensions.1
                != new_terminal_dimensions.1 {
                self.printing_position_changed_since_last_print = true;
            }
        }
        self.previous_terminal_dimensions = Some(new_terminal_dimensions);
    }
}

/// Builds the grid text of the given width from a flat list of characters,
/// one cell each, cutting a row after every `width` cells.
pub fn create_grid_from_characters(characters: &Vec<char>, width: usize) -> (r: String)
    requires
        width >= 1,
    ensures
        r@ == rows_grid(characters@, width as int),
{
    let ghost s = characters@;
    let mut out: Vec<char> = Vec::new();
    let mut i: usize = 0;
    while i < characters.len()
        invariant
            s == characters@,
            width >= 1,
            i <= s.len(),
            i % width == 0 || i == s.len(),
            rows_grid(s, width as int) == out@ + rows_grid_tail(s, width as int, i as int),
        decreases s.len() - i,
    {
        if i > 0 {
            out.push('\n');
        }
        let ghost base = out@;
        let end = if characters.len() - i < width {
            characters.len()
        } else {
            i + width
        };
        let mut j: usize = i;
        while j < end
            invariant
                i <= j <= end,
                end <= s.len(),
                s == characters@,
                out@ == base + s.subrange(i as int, j as int),
            decreases end - j,
        {
            out.push(characters[j]);
            proof {
                assert(base + s.subrange(i as int, j + 1) =~= (base + s.subrange(
                    i as int,
                    j as int,
                )).push(s[j as int]));
            }
            j = j + 1;
        }
        proof {
            let wi = width as int;
            let tail = s.skip(i as int);
            assert(tail.len() == s.len() - i);
            if s.len() - i <= width {
                assert(rows_grid(tail, wi) == tail);
                assert(s.subrange(i as int, end as int) =~= tail);
                assert(out@ =~= rows_grid(s, wi));
            } else {
                assert(rows_grid(tail, wi) == tail.take(wi).push(break_char()) + rows_grid(
                    tail.skip(wi),
                    wi,
                ));
                assert(tail.take(wi) =~= s.subrange(i as int, end as int));
                assert(tail.skip(wi) =~= s.skip(end as int));
                assert(out@ + rows_grid_tail(s, wi, end as int) =~= rows_grid(s, wi));
                assert((end as int) % (width as int) == 0) by {
                    vstd::arithmetic::div_mod::lemma_mod_add_multiples_vanish(
                        i as int,
                        width as int,
                    );
                }
            }
        }
        i = end;
    }
    proof {
        if s.len() == 0 {
            assert(rows_grid(s, width as int) == s);
            assert(out@ =~= rows_grid(s, width as int));
        }
        assert(out@ == rows_grid(s, width as int));
    }
    chars_to_string(&out)
}

/// What remains of `rows_grid(s, w)` once the first `i` cells have been laid
/// out: nothing when `i` is at the end, else a break (unless at the start)
/// and the remaining rows.
pub open spec fn rows_grid_tail(s: Seq<char>, w: int, i: int) -> Seq<char> {
    if i == s.len() {
        Seq::empty()
    } else if i == 0 {
        rows_grid(s, w)
    } else {
        seq![break_char()] + rows_grid(s.skip(i), w)
    }
}

} // verus!
