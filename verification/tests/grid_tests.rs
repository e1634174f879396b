use nvim_bridge::grid::{Cell, Grid, LineCell};

fn grid_cell(text: &str, hl: u64) -> Cell {
    Cell { text: text.as_bytes().to_vec(), hl }
}

fn grid_item(text: &str, hl: u64, repeat: u64) -> LineCell {
    LineCell { text: text.as_bytes().to_vec(), hl, repeat }
}

/// A grid whose every cell holds the index of its line and the index of
/// its column, with the line's index plus one as highlight.
fn grid_numbered(rows: usize, cols: usize) -> Grid {
    let mut g = Grid::new(rows, cols);
    for r in 0..rows {
        let mut items = Vec::new();
        for c in 0..cols {
            items.push(grid_item(&format!("{}:{}", r, c), r as u64 + 1, 0));
        }
        assert!(g.write_line(r, 0, &items));
    }
    g
}

fn grid_snapshot(g: &Grid) -> Vec<Vec<Cell>> {
    let mut out = Vec::new();
    for r in 0..g.rows() {
        let mut line = Vec::new();
        for c in 0..g.cols() {
            line.push(g.cell(r, c).unwrap().clone());
        }
        out.push(line);
    }
    out
}

/// What a scroll is said to do: copy the region shifted, then blank the
/// lines that this vacated.
fn grid_expected_scroll(
    before: &Vec<Vec<Cell>>,
    top: usize,
    bot: usize,
    left: usize,
    right: usize,
    by: i64,
) -> Vec<Vec<Cell>> {
    let mut after = before.clone();
    for r in top..bot {
        let from = r as i128 + by as i128;
        for c in left..right {
            if from >= top as i128 && from < bot as i128 {
                after[r][c] = before[from as usize][c].clone();
            }
        }
    }
    for r in top..bot {
        let from = r as i128 + by as i128;
        if !(from >= top as i128 && from < bot as i128) {
            for c in left..right {
                after[r][c] = grid_cell(" ", 0);
            }
        }
    }
    after
}

#[test]
fn a_new_grid_is_blank() {
    let g = Grid::new(3, 4);
    assert_eq!(g.rows(), 3);
    assert_eq!(g.cols(), 4);
    for r in 0..3 {
        for c in 0..4 {
            assert_eq!(g.cell(r, c), Some(&grid_cell(" ", 0)));
        }
    }
    assert_eq!(Cell::blank(), grid_cell(" ", 0));
}

#[test]
fn no_cell_lies_outside_the_dimensions() {
    let g = Grid::new(3, 4);
    assert_eq!(g.cell(3, 0), None);
    assert_eq!(g.cell(0, 4), None);
    assert_eq!(g.cell(usize::MAX, usize::MAX), None);
    let empty = Grid::new(0, 0);
    assert_eq!(empty.cell(0, 0), None);
    let flat = Grid::new(0, 5);
    assert_eq!(flat.cell(0, 0), None);
}

#[test]
fn a_line_is_written_from_its_first_column_on() {
    let mut g = Grid::new(2, 6);
    assert!(g.write_line(1, 2, &vec![grid_item("a", 1, 0), grid_item("b", 2, 0)]));
    assert_eq!(g.cell(1, 1), Some(&grid_cell(" ", 0)));
    assert_eq!(g.cell(1, 2), Some(&grid_cell("a", 1)));
    assert_eq!(g.cell(1, 3), Some(&grid_cell("b", 2)));
    assert_eq!(g.cell(1, 4), Some(&grid_cell(" ", 0)));
    assert_eq!(g.cell(0, 2), Some(&grid_cell(" ", 0)));
}

#[test]
fn a_repeat_count_adds_that_many_copies_of_the_cell() {
    let mut g = Grid::new(1, 8);
    assert!(g.write_line(0, 1, &vec![grid_item("x", 3, 2), grid_item("y", 4, 0), grid_item("z", 5, 1)]));
    let texts: Vec<Cell> = (0..8).map(|c| g.cell(0, c).unwrap().clone()).collect();
    assert_eq!(
        texts,
        vec![
            grid_cell(" ", 0),
            grid_cell("x", 3),
            grid_cell("x", 3),
            grid_cell("x", 3),
            grid_cell("y", 4),
            grid_cell("z", 5),
            grid_cell("z", 5),
            grid_cell(" ", 0),
        ]
    );
}

#[test]
fn a_line_that_does_not_fit_is_not_written() {
    let mut g = grid_numbered(2, 4);
    let before = grid_snapshot(&g);
    assert!(!g.write_line(0, 3, &vec![grid_item("a", 1, 0), grid_item("b", 1, 0)]));
    assert!(!g.write_line(0, 0, &vec![grid_item("a", 1, 4)]));
    assert!(!g.write_line(0, 0, &vec![grid_item("a", 1, u64::MAX)]));
    assert!(!g.write_line(0, 0, &vec![grid_item("a", 1, u64::MAX), grid_item("a", 1, u64::MAX)]));
    assert!(!g.write_line(2, 0, &vec![grid_item("a", 1, 0)]));
    assert!(!g.write_line(0, 5, &vec![]));
    assert!(!g.fits_line(0, 3, &vec![grid_item("a", 1, 1)]));
    assert_eq!(grid_snapshot(&g), before);
    assert!(g.write_line(0, 0, &vec![grid_item("a", 1, 3)]));
    assert!(g.write_line(0, 4, &vec![]));
    assert!(g.fits_line(1, 3, &vec![grid_item("a", 1, 0)]));
}

#[test]
fn an_empty_text_marks_the_second_half_of_a_wide_character() {
    let mut g = Grid::new(1, 3);
    assert!(g.write_line(0, 0, &vec![grid_item("字", 1, 0), grid_item("", 1, 0)]));
    assert_eq!(g.cell(0, 0), Some(&grid_cell("字", 1)));
    assert_eq!(g.cell(0, 1), Some(&grid_cell("", 1)));
}

#[test]
fn clearing_makes_every_cell_blank() {
    let mut g = grid_numbered(3, 3);
    g.clear();
    assert_eq!(g.rows(), 3);
    assert_eq!(g.cols(), 3);
    assert_eq!(grid_snapshot(&g), grid_snapshot(&Grid::new(3, 3)));
}

#[test]
fn scrolling_by_two_moves_the_content_up_and_blanks_the_last_two_lines() {
    let mut g = grid_numbered(5, 10);
    let before = grid_snapshot(&g);
    assert!(g.scroll(0, 5, 0, 10, 2));
    let after = grid_snapshot(&g);
    assert_eq!(after[0], before[2]);
    assert_eq!(after[1], before[3]);
    assert_eq!(after[2], before[4]);
    assert_eq!(after[3], vec![grid_cell(" ", 0); 10]);
    assert_eq!(after[4], vec![grid_cell(" ", 0); 10]);
}

#[test]
fn scrolling_is_copying_shifted_and_blanking_what_was_vacated() {
    let regions = [(0, 5, 0, 10), (1, 4, 2, 7), (0, 1, 0, 10), (2, 2, 0, 10), (0, 5, 3, 3), (4, 5, 9, 10)];
    let deltas = [0, 1, 2, 4, 5, 6, 100, -1, -2, -4, -5, -6, -100, i64::MAX, i64::MIN];
    for (top, bot, left, right) in regions {
        for by in deltas {
            let mut g = grid_numbered(5, 10);
            let before = grid_snapshot(&g);
            assert!(g.scroll(top, bot, left, right, by));
            assert_eq!(
                grid_snapshot(&g),
                grid_expected_scroll(&before, top, bot, left, right, by)
            );
        }
    }
}

#[test]
fn scrolling_by_nothing_changes_nothing() {
    let mut g = grid_numbered(4, 4);
    let before = grid_snapshot(&g);
    assert!(g.scroll(0, 4, 0, 4, 0));
    assert_eq!(grid_snapshot(&g), before);
}

#[test]
fn scrolling_by_the_height_of_the_region_blanks_it() {
    let mut g = grid_numbered(4, 4);
    let before = grid_snapshot(&g);
    assert!(g.scroll(1, 3, 1, 3, 2));
    let after = grid_snapshot(&g);
    for r in 0..4 {
        for c in 0..4 {
            if (1..3).contains(&r) && (1..3).contains(&c) {
                assert_eq!(after[r][c], grid_cell(" ", 0));
            } else {
                assert_eq!(after[r][c], before[r][c]);
            }
        }
    }
}

#[test]
fn scrolling_by_a_negative_count_moves_the_content_down() {
    let mut g = grid_numbered(5, 3);
    let before = grid_snapshot(&g);
    assert!(g.scroll(0, 5, 0, 3, -2));
    let after = grid_snapshot(&g);
    assert_eq!(after[0], vec![grid_cell(" ", 0); 3]);
    assert_eq!(after[1], vec![grid_cell(" ", 0); 3]);
    assert_eq!(after[2], before[0]);
    assert_eq!(after[3], before[1]);
    assert_eq!(after[4], before[2]);
}

#[test]
fn a_region_outside_the_grid_is_not_scrolled() {
    let mut g = grid_numbered(3, 3);
    let before = grid_snapshot(&g);
    assert!(!g.scroll(0, 4, 0, 3, 1));
    assert!(!g.scroll(0, 3, 0, 4, 1));
    assert!(!g.scroll(2, 1, 0, 3, 1));
    assert!(!g.scroll(0, 3, 2, 1, 1));
    assert!(!g.scroll(usize::MAX, usize::MAX, 0, 0, 1));
    assert_eq!(grid_snapshot(&g), before);
}
