use cache_locality_experiment::game::{add_with_wraparound, Game};
use cache_locality_experiment::grid;

#[test]
fn test_add_with_wraparound() {
    assert_eq!(add_with_wraparound(1, 2, 100), 3);
    assert_eq!(add_with_wraparound(2, 2, 3), 1);
    assert_eq!(add_with_wraparound(2, 1, 3), 0);
    assert_eq!(add_with_wraparound(10, -1, 11), 9);
    assert_eq!(add_with_wraparound(0, -1, 10), 9);
}

#[test]
fn test_underpopulation() {
    let mut grid = grid::Grid::vec_of_vecs();
    grid.set(1, 1, true);
    let mut game = Game::new(grid);
    game.increment();
    let grid = game.inspect_grid();
    assert_eq!(false, grid.get(1, 1), "Cell should have died (underpopulation)");
}

#[test]
fn test_dead_with_two_neighbors() {
    let mut grid = grid::Grid::vec_of_vecs();
    grid.set(1, 1, true);
    grid.set(1, 2, true);
    let mut game = Game::new(grid);
    game.increment();
    let grid = game.inspect_grid();
    assert_eq!(false, grid.get(2, 1), "Cell should have stayed dead");
}

#[test]
fn test_live_with_two_neighbors() {
    let mut grid = grid::Grid::vec_of_vecs();
    grid.set(1, 1, true);
    grid.set(1, 2, true);
    grid.set(1, 3, true);
    let mut game = Game::new(grid);
    game.increment();
    let grid = game.inspect_grid();
    assert_eq!(true, grid.get(1, 2), "Cell should have stayed live");
}

#[test]
fn test_birth() {
    let mut grid = grid::Grid::vec_of_vecs();
    grid.set(1, 1, true);
    grid.set(1, 2, true);
    grid.set(1, 3, true);
    let mut game = Game::new(grid);
    game.increment();
    let grid = game.inspect_grid();
    assert_eq!(true, grid.get(2, 2), "Cell should have been born");
}

#[test]
fn test_live_with_three_neighbors() {
    let mut grid = grid::Grid::vec_of_vecs();
    grid.set(1, 1, true);
    grid.set(1, 2, true);
    grid.set(1, 3, true);
    grid.set(2, 2, true);
    let mut game = Game::new(grid);
    game.increment();
    let grid = game.inspect_grid();
    assert_eq!(true, grid.get(2, 2), "Cell should have stayed live");
}

#[test]
fn test_overpopulation() {
    let mut grid = grid::Grid::vec_of_vecs();
    grid.set(1, 1, true);
    grid.set(1, 2, true);
    grid.set(1, 3, true);
    grid.set(2, 1, true);
    grid.set(2, 2, true);
    let mut game = Game::new(grid);
    game.increment();
    let grid = game.inspect_grid();
    assert_eq!(false, grid.get(2, 2), "Cell should have died (overpopulation)");
}

fn compare_to_bitmap(game: &Game, bitmap: &[[u8; 7]]) {
    for row in 0..bitmap.len() {
        for col in 0..bitmap[row].len() {
            let expect = bitmap[row][col];
            let actual = game.inspect_grid().get(row, col) as u8;
            assert_eq!(
                expect, actual,
                "At generation {} ({row}, {col}), expect {expect} but got {actual}",
                game.generation
            );
        }
    }
}

#[test]
fn test_simulation() {
    let mut grid = grid::Grid::vec_of_vecs();
    let bitmap = [[0u8, 1, 0], [0, 0, 1], [0, 1, 0]];
    let bitmap = bitmap.each_ref().map(|row| row.as_slice());
    grid.load_bitmap(&bitmap);
    let mut game = Game::new(grid);
    assert_eq!(game.inspect_grid().get(0, 1), true, "Row 0 col 1 set");
    game.increment();
    assert_eq!(game.inspect_grid().get(0, 1), false, "Row 0 col 1 died");
}

#[test]
fn test_glider() {
    let mut game = Game::new(grid::Grid::vec_of_vecs());
    game.add_glider();
    let glider = [
        [0u8, 0, 0, 0, 0, 0, 0],
        [0, 0, 0, 0, 0, 0, 0],
        [0, 0, 0, 1, 0, 0, 0],
        [0, 0, 0, 0, 1, 0, 0],
        [0, 0, 1, 1, 1, 0, 0],
        [0, 0, 0, 0, 0, 0, 0],
        [0, 0, 0, 0, 0, 0, 0],
    ];
    compare_to_bitmap(&game, &glider);

    game.increment();
    let glider = [
        [0u8, 0, 0, 0, 0, 0, 0],
        [0, 0, 0, 0, 0, 0, 0],
        [0, 0, 0, 0, 0, 0, 0],
        [0, 0, 1, 0, 1, 0, 0],
        [0, 0, 0, 1, 1, 0, 0],
        [0, 0, 0, 1, 0, 0, 0],
        [0, 0, 0, 0, 0, 0, 0],
    ];
    compare_to_bitmap(&game, &glider);
}

#[test]
fn generation_counter_steps_by_one_and_by_k() {
    let mut game = Game::new(grid::Grid::vec_of_vecs());
    assert_eq!(game.generation, 0);
    game.increment();
    assert_eq!(game.generation, 1, "Empty grid still advances the counter");
    game.simulate(3);
    assert_eq!(game.generation, 4, "simulate(k) advances the counter by k");
    game.simulate(0);
    assert_eq!(game.generation, 4);
}

#[test]
fn toroidal_neighborhood_wraps_at_edges() {
    let n = grid::ROWS;
    let mut grid = grid::Grid::vec_of_vecs();
    // Three neighbors of the far corner, adjacent only through wraparound.
    grid.set(0, 0, true);
    grid.set(0, n - 1, true);
    grid.set(n - 1, 0, true);
    let mut game = Game::new(grid);
    game.increment();
    let grid = game.inspect_grid();
    assert_eq!(true, grid.get(n - 1, n - 1), "Corner cell should be born across the edges");
}
