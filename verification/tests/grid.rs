use cache_locality_experiment::grid::{Grid, AREA, COLS, ROWS};

fn test_get_set(mut grid: Grid) {
    for i in 0..COLS {
        for j in 0..ROWS {
            let val = grid.get(i, j);
            assert_eq!(val, false, "Newly initialized variable is all zeroes");
            grid.set(i, j, true);
            let val = grid.get(i, j);
            assert_eq!(val, true, "Setter worked");
        }
    }
}

fn test_display(grid: &Grid) {
    let str = grid.render_text();
    let cell_chars = ROWS * COLS * 2;
    let newlines = ROWS - 1;
    assert_eq!(
        str.len(),
        cell_chars + newlines,
        "Two chars per cell, plus newline between each row"
    );
}

fn test_bitmap(grid: &Grid) {
    let bitmap = grid.bitmap();
    assert_eq!(bitmap.len(), ROWS, "All rows allocated");
    assert_eq!(bitmap.len(), COLS, "All cols allocated");
    for row in 0..ROWS {
        for col in 0..COLS {
            assert_eq!(bitmap[row][col], 0, "Bitmap value set");
        }
    }
}

fn test_load_bitmap(grid: &mut Grid) {
    let bitmap = &[[1_u8, 0, 0], [0, 1, 0], [0, 0, 1]];
    let to_load = bitmap.each_ref().map(|row| row.as_slice());
    grid.load_bitmap(&to_load);
    for row in 0..3 {
        for col in 0..3 {
            assert_eq!(bitmap[row][col] != 0, grid.get(row, col));
        }
    }
}

#[test]
fn vec_of_vecs_grid() {
    test_get_set(Grid::vec_of_vecs())
}

#[test]
fn flat_vec_grid() {
    test_get_set(Grid::flat_vec())
}

#[test]
fn hilbert_grid() {
    test_get_set(Grid::hilbert())
}

#[test]
fn vec_of_vecs_display() {
    test_display(&Grid::vec_of_vecs());
}

#[test]
fn flat_vec_display() {
    test_display(&Grid::flat_vec());
}

#[test]
fn hilbert_display() {
    test_display(&Grid::hilbert());
}

#[test]
fn vec_of_vecs_bitmap() {
    test_bitmap(&Grid::vec_of_vecs());
}

#[test]
fn flat_vec_bitmap() {
    test_bitmap(&Grid::flat_vec());
}

#[test]
fn hilbert_bitmap() {
    test_bitmap(&Grid::hilbert());
}

#[test]
fn vec_of_vecs_load_bitmap() {
    test_load_bitmap(&mut Grid::vec_of_vecs());
}

#[test]
fn flat_vec_load_bitmap() {
    test_load_bitmap(&mut Grid::flat_vec());
}

#[test]
fn hilbert_load_bitmap() {
    test_load_bitmap(&mut Grid::hilbert());
}

#[test]
fn set_leaves_every_other_cell_alone() {
    for mut grid in [Grid::vec_of_vecs(), Grid::flat_vec(), Grid::hilbert()] {
        grid.set(5, 9, true);
        assert_eq!(grid.get(5, 9), true);
        assert_eq!(grid.get(9, 5), false);
        assert_eq!(grid.get(5, 8), false);
        assert_eq!(grid.get(4, 9), false);
        assert_eq!(grid.get(0, 0), false);
        grid.set(5, 9, false);
        assert_eq!(grid.get(5, 9), false);
    }
}

#[test]
fn snapshots_are_identical_across_layouts() {
    let mut grids = [Grid::vec_of_vecs(), Grid::flat_vec(), Grid::hilbert()];
    let pattern = &[[0_u8, 7, 0], [255, 0, 1]];
    for grid in grids.iter_mut() {
        let rows = pattern.each_ref().map(|row| row.as_slice());
        grid.load_bitmap(&rows);
        grid.set(100, 200, true);
        grid.set(0, 1, false);
        grid.set(511, 511, true);
    }
    let reference = grids[0].bitmap();
    assert_eq!(reference.len(), ROWS);
    for other in &grids[1..] {
        assert_eq!(reference, other.bitmap(), "Same history, byte-identical snapshot");
    }
    assert_eq!(reference[0][1], 0);
    assert_eq!(reference[1][0], 1);
    assert_eq!(reference[1][2], 1);
    assert_eq!(reference[100][200], 1);
    assert_eq!(reference[511][511], 1);
}

#[test]
fn load_bitmap_defaults_missing_entries_to_dead() {
    let mut grid = Grid::flat_vec();
    grid.set(400, 400, true);
    grid.set(2, 1, true);
    let first: [u8; 2] = [1, 1];
    let second: [u8; 1] = [1];
    let rows: [&[u8]; 2] = [first.as_slice(), second.as_slice()];
    grid.load_bitmap(&rows);
    assert_eq!(grid.get(0, 0), true);
    assert_eq!(grid.get(0, 1), true);
    assert_eq!(grid.get(1, 0), true);
    assert_eq!(grid.get(1, 1), false, "Short row defaults to dead");
    assert_eq!(grid.get(2, 1), false, "Loading overwrites the whole grid");
    assert_eq!(grid.get(400, 400), false, "Loading overwrites the whole grid");
}

#[test]
fn render_text_draws_two_glyphs_per_live_cell() {
    let mut grid = Grid::vec_of_vecs();
    grid.set(0, 0, true);
    grid.set(0, 2, true);
    let text = grid.render_text();
    assert_eq!(text.chars().count(), AREA * 2 + ROWS - 1);
    let head: Vec<char> = text.chars().take(7).collect();
    assert_eq!(head, vec!['█', '█', ' ', ' ', '█', '█', ' ']);
    assert_eq!(text.lines().count(), ROWS);
}
