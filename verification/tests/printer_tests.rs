use screen_printer::diff::PixelDifference;
use screen_printer::dynamic_printer::DynamicPrinter;
use screen_printer::errors::{LengthErrorData, PrintingError};
use screen_printer::printer::Printer;
use screen_printer::printing_position::{PrintingPosition, XPrintingPosition, YPrintingPosition};

const TERMINAL: (usize, usize) = (80, 24);

fn move_to(x: usize, y: usize) -> String {
    format!("\x1B[{};{}H", y, x)
}

fn row_step(x: usize) -> String {
    format!("\x1B[1B\x1B[{}G", x)
}

fn full_draw(grid: &str, x: usize, y: usize) -> String {
    let mut out = move_to(x, y);
    for row in grid.split('\n') {
        out.push_str(row);
        out.push_str(&row_step(x));
    }
    out
}

#[test]
fn validator_accepts_rectangles() {
    assert_eq!(
        Printer::get_rectangular_dimensions("abc\ndef").unwrap(),
        (3, 2)
    );
    assert_eq!(Printer::get_rectangular_dimensions("x").unwrap(), (1, 1));
    assert_eq!(
        Printer::get_rectangular_dimensions("abcde\n12345\nvwxyz").unwrap(),
        (5, 3)
    );
}

#[test]
fn validator_accepts_empty_text_as_empty_grid() {
    assert_eq!(Printer::get_rectangular_dimensions("").unwrap(), (0, 0));
}

#[test]
fn validator_rejects_ragged_rows() {
    assert_eq!(
        Printer::get_rectangular_dimensions("ab\na"),
        Err(PrintingError::NonRectangularGrid)
    );
    assert_eq!(
        Printer::get_rectangular_dimensions("ab\nabc"),
        Err(PrintingError::NonRectangularGrid)
    );
    assert_eq!(
        Printer::get_rectangular_dimensions("ab\n"),
        Err(PrintingError::NonRectangularGrid)
    );
}

#[test]
fn validator_counts_characters_not_bytes() {
    // two-byte characters still count one cell each
    assert_eq!(
        Printer::get_rectangular_dimensions("éé\nxy").unwrap(),
        (2, 2)
    );
}

#[test]
fn is_rectangular_follows_the_validator() {
    assert!(Printer::is_rectangular("xxxxx\nxxxxx"));
    assert!(!Printer::is_rectangular("xxxxx\nxxx"));
}

#[test]
fn single_character_grid_layout() {
    let expected_grid = "aaa\naaa\naaa";
    let grid = Printer::create_grid_from_single_character('a', 3, 3);
    assert_eq!(expected_grid, grid);
}

#[test]
fn full_character_list_grid_layout() {
    let characters = vec!['a', 'b', 'c', 'd', 'e', 'f', 'g', 'h', 'i'];
    let expected_grid = "abc\ndef\nghi";
    let grid = Printer::create_grid_from_full_character_list(&characters, 3, 3).unwrap();
    assert_eq!(expected_grid, grid);
}

#[test]
fn full_character_list_too_few_characters() {
    let characters = vec!['a', 'b', 'c'];
    let result = Printer::create_grid_from_full_character_list(&characters, 2, 2);
    assert_eq!(
        result,
        Err(PrintingError::TooLittleCharacters(LengthErrorData {
            expected_character_count: 3,
            actual_character_count: 4,
        }))
    );
}

#[test]
fn full_character_list_too_many_characters() {
    let characters = vec!['a', 'b', 'c', 'd', 'e'];
    let result = Printer::create_grid_from_full_character_list(&characters, 2, 2);
    assert_eq!(
        result,
        Err(PrintingError::TooManyCharacters(LengthErrorData {
            expected_character_count: 5,
            actual_character_count: 4,
        }))
    );
}

#[test]
fn pad_rows_makes_text_rectangular() {
    let mut grid = "xxx\nxx\nx".to_string();

    Printer::pad_rows_for_rectangle(&mut grid);

    assert!(Printer::is_rectangular(&grid));
    assert_eq!(&grid, "xxx\nxx \nx  ");
}

#[test]
fn print_over_previous_grid_stream() {
    let grid = "aa\naa".to_string();
    let stream = Printer::print_over_previous_grid(grid, 2);
    assert_eq!(stream, "\x1b[1;A\raa\naa");
}

#[test]
fn error_equality_ignores_payload() {
    let a = PrintingError::TooManyCharacters(LengthErrorData {
        expected_character_count: 1,
        actual_character_count: 2,
    });
    let b = PrintingError::TooManyCharacters(LengthErrorData {
        expected_character_count: 9,
        actual_character_count: 9,
    });
    assert_eq!(a, b);
    assert_ne!(a, PrintingError::NonRectangularGrid);
    assert_eq!(
        PrintingError::FailedToGetTerminalDimensions("gone".to_string()),
        PrintingError::FailedToGetTerminalDimensions("other".to_string())
    );
}

// Anchor correctness: a 5 by 3 grid on an 80 by 24 terminal.
#[test]
fn anchor_middle_middle_origin() {
    let printer = Printer::new_with_printing_position(PrintingPosition::new(
        XPrintingPosition::Middle,
        YPrintingPosition::Middle,
    ));
    assert_eq!(printer.get_new_origin((5, 3), TERMINAL), (38, 11));
}

#[test]
fn anchor_right_bottom_origin() {
    let printer = Printer::new_with_printing_position(PrintingPosition::new(
        XPrintingPosition::Right,
        YPrintingPosition::Bottom,
    ));
    assert_eq!(printer.get_new_origin((5, 3), TERMINAL), (76, 22));
}

#[test]
fn anchor_left_top_origin() {
    let printer = Printer::new_with_printing_position(PrintingPosition::new(
        XPrintingPosition::Left,
        YPrintingPosition::Top,
    ));
    assert_eq!(printer.get_new_origin((5, 3), TERMINAL), (1, 1));
}

// Placement clamping: a full-width grid with a custom column shifts back
// to the first column.
#[test]
fn custom_position_clamps_to_first_column() {
    let printer = Printer::new_with_printing_position(PrintingPosition::new(
        XPrintingPosition::Custom(5),
        YPrintingPosition::Top,
    ));
    let (x, _) = printer.get_new_origin((10, 3), (10, 24));
    assert_eq!(x, 1);
}

// Oversized rejection: the session stays untouched and nothing is emitted.
#[test]
fn oversized_grid_is_rejected() {
    let mut printer = Printer::new();
    let grid = Printer::create_grid_from_single_character('g', 100, 50);

    let result = printer.dynamic_print(grid, TERMINAL);

    assert_eq!(result, Err(PrintingError::GridLargerThanTerminal));
    assert_eq!(printer.previous_grid, "");
    assert!(printer.grid_width.is_none());
    assert!(printer.grid_height.is_none());
    assert!(printer.origin_position.is_none());
    assert!(printer.previous_terminal_dimensions.is_none());
}

// Idempotence: the second print of the same grid emits nothing.
#[test]
fn second_print_of_same_grid_emits_nothing() {
    let mut printer = Printer::new();
    let grid = "ab\ncd".to_string();

    let first = printer.dynamic_print(grid.clone(), TERMINAL).unwrap();
    let second = printer.dynamic_print(grid, TERMINAL).unwrap();

    assert!(!first.is_empty());
    assert_eq!(second, "");
}

// A first print is a full draw at the resolved origin.
#[test]
fn first_print_is_a_full_draw() {
    let mut printer = Printer::new_with_printing_position(PrintingPosition::new(
        XPrintingPosition::Left,
        YPrintingPosition::Top,
    ));
    let output = printer.dynamic_print("ab\ncd".to_string(), TERMINAL).unwrap();
    assert_eq!(output, full_draw("ab\ncd", 1, 1));
}

// Dimension-change redraw: a grid of another size forces a clear plus a
// full redraw even where cells coincide.
#[test]
fn dimension_change_triggers_full_redraw() {
    let mut printer = Printer::new();
    let grid_1 = Printer::create_grid_from_single_character('a', 3, 3);
    let grid_2 = Printer::create_grid_from_single_character('a', 4, 4);

    printer.dynamic_print(grid_1, TERMINAL).unwrap();
    let second = printer.dynamic_print(grid_2.clone(), TERMINAL).unwrap();

    // the default position is the bottom left: the old 3 by 3 rectangle sat
    // at row 22, the new 4 by 4 one starts at row 21
    let expected =
        full_draw("   \n   \n   ", 1, 22) + &full_draw(&grid_2, 1, 21);
    assert_eq!(second, expected);
}

#[test]
fn changed_printing_position_triggers_full_redraw() {
    let mut printer = Printer::new_with_printing_position(PrintingPosition::new(
        XPrintingPosition::Left,
        YPrintingPosition::Top,
    ));
    let grid = "ab\ncd".to_string();
    printer.dynamic_print(grid.clone(), TERMINAL).unwrap();

    printer.replace_printing_position(PrintingPosition::new(
        XPrintingPosition::Right,
        YPrintingPosition::Top,
    ));
    let second = printer.dynamic_print(grid.clone(), TERMINAL).unwrap();

    let expected = full_draw("  \n  ", 1, 1) + &full_draw("ab\ncd", 79, 1);
    assert_eq!(second, expected);
}

#[test]
fn empty_grid_prints_nothing() {
    let mut printer = Printer::new();
    let output = printer.dynamic_print(String::new(), TERMINAL).unwrap();
    assert_eq!(output, "");
    assert_eq!(printer.grid_width, Some(0));
    assert_eq!(printer.grid_height, Some(0));
}

#[test]
fn clear_grid_blanks_the_rectangle() {
    let mut printer = Printer::new_with_printing_position(PrintingPosition::new(
        XPrintingPosition::Left,
        YPrintingPosition::Top,
    ));
    printer.dynamic_print("ab\ncd".to_string(), TERMINAL).unwrap();

    let cleared = printer.clear_grid().unwrap();

    assert_eq!(cleared, full_draw("  \n  ", 1, 1));
    assert_eq!(printer.previous_grid, "  \n  ");
}

#[test]
fn clear_grid_needs_dimensions_and_origin() {
    let mut printer = Printer::new();
    assert_eq!(
        printer.clear_grid(),
        Err(PrintingError::GridDimensionsNotDefined)
    );
}

#[test]
fn printable_difference_needs_an_origin() {
    let printer = Printer::new();
    assert_eq!(
        printer.get_printable_difference("ab"),
        Err(PrintingError::OriginNotDefined)
    );
}

#[test]
fn terminal_dimensions_are_remembered() {
    let mut printer = Printer::new();
    assert_eq!(
        printer.get_terminal_dimensions_from_previous_print(),
        Err(PrintingError::TerminalDimensionsNotDefined)
    );
    printer.dynamic_print("x".to_string(), TERMINAL).unwrap();
    assert_eq!(
        printer.get_terminal_dimensions_from_previous_print(),
        Ok(TERMINAL)
    );
}

#[test]
fn reset_discards_everything() {
    let mut printer = Printer::new_with_printing_position(PrintingPosition::new(
        XPrintingPosition::Middle,
        YPrintingPosition::Middle,
    ));
    printer.dynamic_print("x".to_string(), TERMINAL).unwrap();

    printer.reset();

    assert_eq!(printer.previous_grid, "");
    assert!(printer.grid_width.is_none());
    assert_eq!(
        printer.get_current_printing_position().x_printing_position,
        XPrintingPosition::Left
    );
    assert_eq!(
        printer.get_current_printing_position().y_printing_position,
        YPrintingPosition::Bottom
    );
}

#[test]
fn reset_can_retain_the_printing_position() {
    let mut printer = Printer::new_with_printing_position(PrintingPosition::new(
        XPrintingPosition::Middle,
        YPrintingPosition::Top,
    ));
    printer.dynamic_print("x".to_string(), TERMINAL).unwrap();

    printer.reset_and_retain_printing_position();

    assert_eq!(printer.previous_grid, "");
    assert!(printer.origin_position.is_none());
    assert_eq!(
        printer.get_current_printing_position().x_printing_position,
        XPrintingPosition::Middle
    );
    assert_eq!(
        printer.get_current_printing_position().y_printing_position,
        YPrintingPosition::Top
    );
}

#[test]
fn reset_with_position_stores_the_given_one() {
    let mut printer = Printer::new();
    printer.reset_with_position(PrintingPosition::new(
        XPrintingPosition::Right,
        YPrintingPosition::Custom(7),
    ));
    assert_eq!(
        printer.get_current_printing_position().y_printing_position,
        YPrintingPosition::Custom(7)
    );
}

#[test]
fn run_serialization_crosses_row_boundaries_with_cursor_moves() {
    let run = PixelDifference {
        pixels: String::from("l\nl"),
        index: 4,
    };
    let stream = run.into_printable_difference((1, 1), 5);
    assert_eq!(stream, "\x1B[1;5Hl\x1B[2;1Hl");
}

#[test]
fn run_serialization_uses_multi_digit_coordinates() {
    let run = PixelDifference {
        pixels: String::from("q"),
        index: 0,
    };
    let stream = run.into_printable_difference((76, 22), 5);
    assert_eq!(stream, "\x1B[22;76Hq");
}

#[test]
fn cursor_derived_origin_is_clamped() {
    let origin =
        screen_printer::dynamic_printer::calculate_cursor_derived_origin((5, 3), (40, 12));
    assert_eq!(origin, (35, 9));
    let clamped =
        screen_printer::dynamic_printer::calculate_cursor_derived_origin((5, 3), (4, 2));
    assert_eq!(clamped, (1, 1));
}

// Diff minimality: the runs carry exactly the cells that changed, and no
// others.
#[test]
fn diff_runs_carry_exactly_the_changed_cells() {
    let old_flat: Vec<char> = "abcdef".chars().collect();
    let new_flat: Vec<char> = "aXYdeZ".chars().collect();

    let runs = screen_printer::diff::compute_pixel_differences(&old_flat, &new_flat, 2);

    let mut reported_cells = 0;
    for run in &runs {
        reported_cells += run.pixels.chars().filter(|c| *c != '\n').count();
    }
    let changed_positions = old_flat
        .iter()
        .zip(new_flat.iter())
        .filter(|(o, n)| o != n)
        .count();
    assert_eq!(reported_cells, changed_positions);
    assert_eq!(reported_cells, 3);
    assert_eq!(runs.len(), 2);
    assert_eq!(runs[0].index, 1);
    // the run crosses a row boundary, so a break marker stands in it
    assert_eq!(runs[0].pixels, "X\nY");
    assert_eq!(runs[1].index, 5);
    assert_eq!(runs[1].pixels, "Z");
}

// A run that ends exactly on the grid's last cell suppresses its row-break
// marker; this only arises on width-one grids, and the trailing cell is
// then emitted right after its predecessor.
#[test]
fn width_one_grid_suppresses_last_row_break() {
    let mut printer = Printer::new_with_printing_position(PrintingPosition::new(
        XPrintingPosition::Left,
        YPrintingPosition::Top,
    ));
    printer.dynamic_print("a\nb\nc".to_string(), TERMINAL).unwrap();

    let stream = printer.get_printable_difference("a\nX\nY").unwrap();

    assert_eq!(stream, "\x1B[2;1HXY");
}

// A tiny terminal: rows of cells, a cursor, and just the escape sequences
// the printer emits.
fn apply_stream(screen: &mut Vec<Vec<char>>, stream: &str) {
    let chars: Vec<char> = stream.chars().collect();
    let mut x: usize = 1;
    let mut y: usize = 1;
    let mut i: usize = 0;
    while i < chars.len() {
        if chars[i] == '\x1B' {
            assert_eq!(chars[i + 1], '[');
            i += 2;
            let mut first: usize = 0;
            while chars[i].is_ascii_digit() {
                first = first * 10 + chars[i].to_digit(10).unwrap() as usize;
                i += 1;
            }
            match chars[i] {
                ';' => {
                    i += 1;
                    let mut second: usize = 0;
                    while chars[i].is_ascii_digit() {
                        second = second * 10 + chars[i].to_digit(10).unwrap() as usize;
                        i += 1;
                    }
                    assert_eq!(chars[i], 'H');
                    y = first;
                    x = second;
                }
                'B' => {
                    y += first;
                }
                'G' => {
                    x = first;
                }
                other => panic!("unexpected escape sequence tail: {other}"),
            }
            i += 1;
        } else {
            screen[y - 1][x - 1] = chars[i];
            x += 1;
            i += 1;
        }
    }
}

fn screen_region(screen: &Vec<Vec<char>>, x: usize, y: usize, w: usize, h: usize) -> String {
    let mut rows: Vec<String> = Vec::new();
    for r in 0..h {
        rows.push(screen[y - 1 + r][x - 1..x - 1 + w].iter().collect());
    }
    rows.join("\n")
}

// Round trip: the emitted stream turns the old frame into the new one on a
// virtual terminal.
#[test]
fn diff_stream_round_trips_on_a_virtual_terminal() {
    let mut screen: Vec<Vec<char>> = vec![vec![' '; 80]; 24];
    let mut printer = Printer::new_with_printing_position(PrintingPosition::new(
        XPrintingPosition::Middle,
        YPrintingPosition::Middle,
    ));
    let grid_1 = "abcde\n12345\nvwxyz".to_string();
    let grid_2 = "a-c--\n-----\n-wx--".to_string();

    let first = printer.dynamic_print(grid_1.clone(), TERMINAL).unwrap();
    apply_stream(&mut screen, &first);
    assert_eq!(screen_region(&screen, 38, 11, 5, 3), grid_1);

    let second = printer.dynamic_print(grid_2.clone(), TERMINAL).unwrap();
    apply_stream(&mut screen, &second);
    assert_eq!(screen_region(&screen, 38, 11, 5, 3), grid_2);
}
