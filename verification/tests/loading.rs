use gridpath::grid::{grid_eq, Elem, Pos};
use gridpath::parse::{parse_grid, LoadError};

fn bytes(desc: &str) -> Vec<u8> {
    desc.as_bytes().to_vec()
}

const SMALL: &str = "3 2\n0 0 2 1\n0 1 0\n0 0 0\n";

#[test]
fn loading_twice_yields_identical_grids() {
    let g1 = parse_grid(&bytes(SMALL)).expect("loads");
    let g2 = parse_grid(&bytes(SMALL)).expect("loads");
    assert!(grid_eq(&g1, &g2));
    assert_eq!(g1.width, g2.width);
    assert_eq!(g1.height, g2.height);
    assert_eq!(g1.start, g2.start);
    assert_eq!(g1.end, g2.end);
    for y in 0..g1.height {
        for x in 0..g1.width {
            assert_eq!(g1.cell_at(x, y), g2.cell_at(x, y));
        }
    }
}

#[test]
fn loaded_grid_has_the_described_cells() {
    let g = parse_grid(&bytes(SMALL)).expect("loads");
    assert_eq!(g.width, 3);
    assert_eq!(g.height, 2);
    assert_eq!(g.start, Pos { x: 0, y: 0 });
    assert_eq!(g.end, Pos { x: 2, y: 1 });
    assert_eq!(g.cell_at(0, 0), Some(Elem::Start));
    assert_eq!(g.cell_at(1, 0), Some(Elem::Wall));
    assert_eq!(g.cell_at(2, 0), Some(Elem::Uncheck(0)));
    assert_eq!(g.cell_at(0, 1), Some(Elem::Uncheck(0)));
    assert_eq!(g.cell_at(1, 1), Some(Elem::Uncheck(0)));
    assert_eq!(g.cell_at(2, 1), Some(Elem::End));
    assert_eq!(g.cell_at(3, 1), None);
}

#[test]
fn start_and_end_on_the_same_cell_marks_it_end() {
    let g = parse_grid(&bytes("2 2\n1 1 1 1\n0 0\n0 0\n")).expect("loads");
    assert_eq!(g.cell_at(1, 1), Some(Elem::End));
    assert_eq!(g.start, g.end);
}

#[test]
fn tokens_spread_over_lines_and_extra_blanks_still_load() {
    // The cell tokens may be spaced and broken across lines freely, and a
    // wall is any token whose first character is not '0'.
    let g = parse_grid(&bytes("3 2\n0 0   2 1\n0 x\t0 0\r\n9\n017\n")).expect("loads");
    assert_eq!(g.cell_at(1, 0), Some(Elem::Wall));
    assert_eq!(g.cell_at(0, 1), Some(Elem::Uncheck(0)));
    assert_eq!(g.cell_at(1, 1), Some(Elem::Wall));
    // "017" starts with '0', so the goal cell's slot was open space.
    assert_eq!(g.cell_at(2, 1), Some(Elem::End));
}

#[test]
fn plus_signs_and_leading_zeros_parse_in_the_header() {
    let g = parse_grid(&bytes("+3 02\n0 0 2 1\n0 0 0\n0 0 0\n")).expect("loads");
    assert_eq!(g.width, 3);
    assert_eq!(g.height, 2);
}

#[test]
fn empty_description_is_a_missing_line() {
    assert_eq!(parse_grid(&bytes("")), Err(LoadError::MissingLine));
}

#[test]
fn missing_second_line_is_reported() {
    assert_eq!(parse_grid(&bytes("3 2\n")), Err(LoadError::MissingLine));
    assert_eq!(parse_grid(&bytes("3 2")), Err(LoadError::MissingLine));
}

#[test]
fn missing_header_fields_are_reported() {
    assert_eq!(parse_grid(&bytes("3\n0 0 2 1\n")), Err(LoadError::MissingField));
    assert_eq!(parse_grid(&bytes("3 2\n0 0 2\n0 0 0\n0 0 0\n")), Err(LoadError::MissingField));
}

#[test]
fn malformed_numbers_are_reported() {
    assert_eq!(parse_grid(&bytes("three 2\n0 0 2 1\n")), Err(LoadError::BadNumber));
    assert_eq!(parse_grid(&bytes("3 2\n0 -1 2 1\n0 0 0\n0 0 0\n")), Err(LoadError::BadNumber));
    // A value beyond the machine's integer range does not parse.
    assert_eq!(
        parse_grid(&bytes("99999999999999999999999999 2\n0 0 2 1\n")),
        Err(LoadError::BadNumber)
    );
}

#[test]
fn out_of_bounds_start_and_end_are_reported() {
    assert_eq!(
        parse_grid(&bytes("3 2\n3 0 2 1\n0 0 0\n0 0 0\n")),
        Err(LoadError::StartOutOfBounds)
    );
    assert_eq!(
        parse_grid(&bytes("3 2\n0 0 2 2\n0 0 0\n0 0 0\n")),
        Err(LoadError::EndOutOfBounds)
    );
}

#[test]
fn cell_count_must_match_the_dimensions() {
    assert_eq!(
        parse_grid(&bytes("3 2\n0 0 2 1\n0 0 0\n0 0\n")),
        Err(LoadError::SizeMismatch)
    );
    assert_eq!(
        parse_grid(&bytes("3 2\n0 0 2 1\n0 0 0\n0 0 0 0\n")),
        Err(LoadError::SizeMismatch)
    );
}

#[test]
fn error_precedence_follows_reading_order() {
    // A bad width is found before the missing second line.
    assert_eq!(parse_grid(&bytes("x 2")), Err(LoadError::BadNumber));
    // A bad start coordinate is found before the size check.
    assert_eq!(parse_grid(&bytes("3 2\n9 9 2 1\n0 0\n")), Err(LoadError::StartOutOfBounds));
}
