//! The simulation: one grid plus a generation counter, stepped by the
//! standard Game of Life rule on the toroidal 8-neighborhood. Every step
//! decides all next states from one consistent pre-step view of the grid.

use vstd::prelude::*;

use crate::grid::{Grid, COLS, ROWS};

verus! {

/// Adds `i` and `delta`, wrapping around the range [0, n).
pub open spec fn wrap(i: int, delta: int, n: int) -> int {
    (i + n + delta) % n
}

pub open spec fn b2i(b: bool) -> int {
    if b {
        1
    } else {
        0
    }
}

/// The cell contents of a grid as a sequence of rows, the abstract state
/// that the stepping rule works on.
pub open spec fn abs_cells(g: Grid) -> Seq<Seq<bool>> {
    Seq::new(ROWS as nat, |r: int| Seq::new(COLS as nat, |c: int| g.cell(r, c)))
}

/// How many of the eight toroidal neighbors of (r, c) are alive.
pub open spec fn neighbor_count(s: Seq<Seq<bool>>, r: int, c: int) -> int {
    let n = ROWS as int;
    b2i(s[wrap(r, -1, n)][wrap(c, -1, n)]) + b2i(s[wrap(r, -1, n)][c]) + b2i(
        s[wrap(r, -1, n)][wrap(c, 1, n)],
    ) + b2i(s[r][wrap(c, -1, n)]) + b2i(s[r][wrap(c, 1, n)]) + b2i(
        s[wrap(r, 1, n)][wrap(c, -1, n)],
    ) + b2i(s[wrap(r, 1, n)][c]) + b2i(s[wrap(r, 1, n)][wrap(c, 1, n)])
}

/// The standard rule: a live cell survives with two or three live
/// neighbors, a dead cell is born with exactly three.
pub open spec fn next_cell(s: Seq<Seq<bool>>, r: int, c: int) -> bool {
    let n = neighbor_count(s, r, c);
    if s[r][c] {
        n == 2 || n == 3
    } else {
        n == 3
    }
}

/// One full generation computed from a single consistent snapshot.
pub open spec fn life_step(s: Seq<Seq<bool>>) -> Seq<Seq<bool>> {
    Seq::new(ROWS as nat, |r: int| Seq::new(COLS as nat, |c: int| next_cell(s, r, c)))
}

/// `k` generations in sequence.
pub open spec fn life_iter(s: Seq<Seq<bool>>, k: nat) -> Seq<Seq<bool>>
    decreases k,
{
    if k == 0 {
        s
    } else {
        life_step(life_iter(s, (k - 1) as nat))
    }
}

/// One pending write of the stepping scan: in-range coordinates whose value
/// is the cell's next state under the pre-step contents `s`.
pub open spec fn update_ok(s: Seq<Seq<bool>>, u: (usize, usize, bool)) -> bool {
    u.0 < ROWS && u.1 < COLS && u.2 == next_cell(s, u.0 as int, u.1 as int)
}

/// Some entry among the first `m` pending writes names the cell (r, c).
pub open spec fn has_update_prefix(us: Seq<(usize, usize, bool)>, m: int, r: int, c: int) -> bool {
    exists|k: int| 0 <= k < m && (#[trigger] us[k]).0 == r && us[k].1 == c
}

/// Some pending write names the cell (r, c).
pub open spec fn has_update(us: Seq<(usize, usize, bool)>, r: int, c: int) -> bool {
    has_update_prefix(us, us.len() as int, r, c)
}

proof fn lemma_push_preserves_updates(
    us: Seq<(usize, usize, bool)>,
    e: (usize, usize, bool),
    r: int,
    c: int,
)
    requires
        has_update(us, r, c),
    ensures
        has_update(us.push(e), r, c),
{
    let k = choose|k: int| 0 <= k < us.len() && (#[trigger] us[k]).0 == r && us[k].1 == c;
    assert(us.push(e)[k] == us[k]);
}

/// The five live cells of the seeded glider, a pattern that translates
/// diagonally under the rule.
pub open spec fn glider_cell(r: int, c: int) -> bool {
    (r == 2 && c == 3) || (r == 3 && c == 4) || (r == 4 && c == 2) || (r == 4 && c == 3) || (r == 4
        && c == 4)
}

/// Add left and right together, wrapping around range [0..wraparound)
pub fn add_with_wraparound(left: usize, right: i32, wraparound: usize) -> (r: usize)
    requires
        0 < wraparound <= 0x2000_0000,
        left < wraparound,
        -(wraparound as int) <= right <= wraparound as int,
    ensures
        r == wrap(left as int, right as int, wraparound as int),
        r < wraparound,
{
    let left_i: i32 = left as i32;
    let wrap_i: i32 = wraparound as i32;
    (((left_i + (wrap_i + right)) % wrap_i) as usize)
}

pub struct Game {
    grid: Grid,
    pub generation: u32,
}

impl core::convert::From<Grid> for Game {
    fn from(value: Grid) -> Self {
        Self { grid: value, generation: 0 }
    }
}

impl vstd::std_specs::convert::FromSpecImpl<Grid> for Game {
    open spec fn obeys_from_spec() -> bool {
        true
    }

    closed spec fn from_spec(v: Grid) -> Game {
        Game { grid: v, generation: 0 }
    }
}

impl Game {
    /// The grid the simulation owns.
    pub closed spec fn spec_grid(self) -> Grid {
        self.grid
    }

    /// The generation counter, as contracts speak of it.
    pub closed spec fn spec_generation(self) -> u32 {
        self.generation
    }

    pub open spec fn wf(self) -> bool {
        self.spec_grid().wf()
    }

    /// A simulation over the given grid, starting at generation 0.
    pub fn new(grid: Grid) -> (game: Self)
        ensures
            game.spec_grid() == grid,
            game.spec_generation() == 0,
    {
        Self::from(grid)
    }

    /// Simulate a single step in the game: every cell's next state is
    /// decided from the same pre-step contents, and the generation counter
    /// grows by exactly one even when no cell changes.
    pub fn increment(&mut self)
        requires
            old(self).wf(),
            old(self).spec_generation() < u32::MAX,
        ensures
            final(self).wf(),
            final(self).spec_generation() == old(self).spec_generation() + 1,
            final(self).spec_grid().same_layout(old(self).spec_grid()),
            abs_cells(final(self).spec_grid()) == life_step(abs_cells(old(self).spec_grid())),
    {
        self.generation = self.generation + 1;
        let ghost g0: Grid = self.grid;
        let ghost s0: Seq<Seq<bool>> = abs_cells(g0);
        let mut updates: Vec<(usize, usize, bool)> = Vec::new();
        let mut row: usize = 0;
        while row < ROWS
            invariant
                self.grid == g0,
                g0.wf(),
                s0 == abs_cells(g0),
                self.spec_generation() == old(self).spec_generation() + 1,
                row <= ROWS,
                forall|k: int| 0 <= k < updates@.len() ==> update_ok(s0, #[trigger] updates@[k]),
                forall|r: int, c: int|
                    0 <= r < row && 0 <= c < COLS && next_cell(s0, r, c) != s0[r][c] ==> has_update(
                        updates@,
                        r,
                        c,
                    ),
            decreases ROWS - row,
        {
            let mut col: usize = 0;
            while col < COLS
                invariant
                    self.grid == g0,
                    g0.wf(),
                    s0 == abs_cells(g0),
                    self.spec_generation() == old(self).spec_generation() + 1,
                    row < ROWS,
                    col <= COLS,
                    forall|k: int|
                        0 <= k < updates@.len() ==> update_ok(s0, #[trigger] updates@[k]),
                    forall|r: int, c: int|
                        0 <= r < row && 0 <= c < COLS && next_cell(s0, r, c) != s0[r][c]
                            ==> has_update(updates@, r, c),
                    forall|c: int|
                        0 <= c < col && next_cell(s0, row as int, c) != s0[row as int][c]
                            ==> has_update(updates@, row as int, c),
                decreases COLS - col,
            {
                let ghost before: Seq<(usize, usize, bool)> = updates@;
                let is_live: bool = self.grid.get(row, col);
                let col_left: usize = add_with_wraparound(col, -1, COLS);
                let col_right: usize = add_with_wraparound(col, 1, COLS);
                let row_up: usize = add_with_wraparound(row, -1, ROWS);
                let row_down: usize = add_with_wraparound(row, 1, ROWS);
                let num_neighbors: i32 = (if self.grid.get(row_up, col_left) {
                    1i32
                } else {
                    0i32
                }) + (if self.grid.get(row_up, col) {
                    1i32
                } else {
                    0i32
                }) + (if self.grid.get(row_up, col_right) {
                    1i32
                } else {
                    0i32
                }) + (if self.grid.get(row, col_left) {
                    1i32
                } else {
                    0i32
                }) + (if self.grid.get(row, col_right) {
                    1i32
                } else {
                    0i32
                }) + (if self.grid.get(row_down, col_left) {
                    1i32
                } else {
                    0i32
                }) + (if self.grid.get(row_down, col) {
                    1i32
                } else {
                    0i32
                }) + (if self.grid.get(row_down, col_right) {
                    1i32
                } else {
                    0i32
                });
                proof {
                    assert(num_neighbors == neighbor_count(s0, row as int, col as int));
                    assert(is_live == s0[row as int][col as int]);
                }
                let overpopulation: bool = num_neighbors > 3;
                let underpopulation: bool = num_neighbors < 2;
                let reproduction: bool = !is_live && num_neighbors == 3;
                if is_live && (overpopulation || underpopulation) {
                    updates.push((row, col, false));
                } else if !is_live && reproduction {
                    updates.push((row, col, true));
                }
                proof {
                    if updates@.len() > before.len() {
                        assert(updates@ == before.push(updates@[before.len() as int]));
                    }
                    assert forall|r: int, c: int|
                        has_update(before, r, c) implies has_update(updates@, r, c) by {
                        if updates@.len() > before.len() {
                            lemma_push_preserves_updates(
                                before,
                                updates@[before.len() as int],
                                r,
                                c,
                            );
                        }
                    }
                    if next_cell(s0, row as int, col as int) != s0[row as int][col as int] {
                        assert(has_update(updates@, row as int, col as int));
                    }
                }
                col = col + 1;
            }
            row = row + 1;
        }
        let ghost ups: Seq<(usize, usize, bool)> = updates@;
        let mut i: usize = 0;
        while i < updates.len()
            invariant
                updates@ == ups,
                g0.wf(),
                s0 == abs_cells(g0),
                self.spec_generation() == old(self).spec_generation() + 1,
                self.grid.wf(),
                self.grid.same_layout(g0),
                i <= ups.len(),
                forall|k: int| 0 <= k < ups.len() ==> update_ok(s0, #[trigger] ups[k]),
                forall|r: int, c: int|
                    0 <= r < ROWS && 0 <= c < COLS && next_cell(s0, r, c) != s0[r][c]
                        ==> has_update(ups, r, c),
                forall|r: int, c: int|
                    0 <= r < ROWS && 0 <= c < COLS ==> self.grid.cell(r, c) == (if has_update_prefix(
                        ups,
                        i as int,
                        r,
                        c,
                    ) {
                        next_cell(s0, r, c)
                    } else {
                        s0[r][c]
                    }),
            decreases ups.len() - i,
        {
            let (r, c, v) = updates[i];
            self.grid.set(r, c, v);
            i = i + 1;
            proof {
                assert(update_ok(s0, ups[i - 1]));
                assert forall|r2: int, c2: int|
                    0 <= r2 < ROWS && 0 <= c2 < COLS implies self.grid.cell(r2, c2) == (
                if has_update_prefix(ups, i as int, r2, c2) {
                    next_cell(s0, r2, c2)
                } else {
                    s0[r2][c2]
                }) by {
                    if r2 == r && c2 == c {
                        assert(has_update_prefix(ups, i as int, r2, c2)) by {
                            assert(0 <= i - 1 < i && ups[i - 1].0 == r2 && ups[i - 1].1 == c2);
                        }
                    } else {
                        assert(has_update_prefix(ups, i as int, r2, c2) == has_update_prefix(
                            ups,
                            i as int - 1,
                            r2,
                            c2,
                        )) by {
                            if has_update_prefix(ups, i as int, r2, c2) {
                                let k = choose|k: int|
                                    0 <= k < i && (#[trigger] ups[k]).0 == r2 && ups[k].1 == c2;
                                assert(k != i - 1);
                                assert(has_update_prefix(ups, i as int - 1, r2, c2));
                            }
                            if has_update_prefix(ups, i as int - 1, r2, c2) {
                                let k = choose|k: int|
                                    0 <= k < i - 1 && (#[trigger] ups[k]).0 == r2 && ups[k].1
                                        == c2;
                                assert(0 <= k < i && ups[k].0 == r2 && ups[k].1 == c2);
                            }
                        }
                    }
                }
            }
        }
        proof {
            assert forall|r: int, c: int|
                0 <= r < ROWS && 0 <= c < COLS implies self.grid.cell(r, c) == next_cell(
                s0,
                r,
                c,
            ) by {
                if !has_update_prefix(ups, ups.len() as int, r, c) {
                    assert(next_cell(s0, r, c) == s0[r][c]);
                }
            }
            assert(abs_cells(self.grid) =~~= life_step(s0));
        }
    }

    /// Calls `increment` exactly `num_generations` times in sequence.
    pub fn simulate(&mut self, num_generations: u32)
        requires
            old(self).wf(),
            old(self).spec_generation() + num_generations <= u32::MAX,
        ensures
            final(self).wf(),
            final(self).spec_generation() == old(self).spec_generation() + num_generations,
            final(self).spec_grid().same_layout(old(self).spec_grid()),
            abs_cells(final(self).spec_grid()) == life_iter(
                abs_cells(old(self).spec_grid()),
                num_generations as nat,
            ),
    {
        let mut done: u32 = 0;
        while done < num_generations
            invariant
                self.wf(),
                done <= num_generations,
                old(self).spec_generation() + num_generations <= u32::MAX,
                self.spec_generation() == old(self).spec_generation() + done,
                self.spec_grid().same_layout(old(self).spec_grid()),
                abs_cells(self.spec_grid()) == life_iter(
                    abs_cells(old(self).spec_grid()),
                    done as nat,
                ),
            decreases num_generations - done,
        {
            self.increment();
            done = done + 1;
        }
    }

    /// Seeds the fixed glider: overwrites the whole grid, leaving exactly
    /// the five glider cells alive near the origin.
    pub fn add_glider(&mut self)
        requires
            old(self).wf(),
        ensures
            final(self).wf(),
            final(self).spec_generation() == old(self).spec_generation(),
            final(self).spec_grid().same_layout(old(self).spec_grid()),
            forall|r: int, c: int|
                0 <= r < ROWS && 0 <= c < COLS ==> final(self).spec_grid().cell(r, c)
                    == glider_cell(r, c),
    {
        let row_blank: Vec<u8> = vec![0, 0, 0, 0, 0, 0, 0];
        let row_head: Vec<u8> = vec![0, 0, 0, 1, 0, 0, 0];
        let row_side: Vec<u8> = vec![0, 0, 0, 0, 1, 0, 0];
        let row_base: Vec<u8> = vec![0, 0, 1, 1, 1, 0, 0];
        let mut glider: Vec<&[u8]> = Vec::new();
        glider.push(row_blank.as_slice());
        glider.push(row_blank.as_slice());
        glider.push(row_head.as_slice());
        glider.push(row_side.as_slice());
        glider.push(row_base.as_slice());
        glider.push(row_blank.as_slice());
        glider.push(row_blank.as_slice());
        self.grid.load_bitmap(glider.as_slice());
    }

    /// A dense row-major snapshot of the grid, one byte per cell, 1 alive.
    pub fn bitmap(&self) -> (bm: Vec<Vec<u8>>)
        requires
            self.wf(),
        ensures
            bm@.len() == ROWS,
            forall|r: int|
                0 <= r < ROWS ==> (#[trigger] bm@[r])@ == self.spec_grid().bitmap_spec()[r],
    {
        self.grid.bitmap()
    }

    pub fn inspect_grid(&self) -> (g: &Grid)
        ensures
            *g == self.spec_grid(),
    {
        &self.grid
    }
}

} // verus!
