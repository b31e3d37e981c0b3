//! Grid storage: an N-by-N lattice of boolean cells behind three
//! interchangeable layouts with identical observable behavior — nested row
//! buffers, one flat row-major buffer, and one buffer ordered along the
//! Hilbert curve. The layout is chosen once at construction and never
//! changes; coordinates handed to the accessors must already be in range.

use vstd::prelude::*;

use crate::hilbert::{hilbert_d, hilbert_xy_to_d, is_pow2, lemma_hilbert_d_injective,
    lemma_hilbert_d_range};
use vstd::pervasive::VecAdditionalExecFns;
use vstd::string::StringExecFns;

verus! {

/// Side length of the lattice: 2^9, a power of two as the curve-ordered
/// layout requires.
pub const ROWS: usize = 512;

pub const COLS: usize = ROWS;

pub const AREA: usize = ROWS * COLS;

pub proof fn lemma_side_is_pow2()
    ensures
        is_pow2(COLS as nat),
{
    reveal_with_fuel(is_pow2, 11);
}

/// Position of the cell (row, col) in a flat row-major buffer.
pub open spec fn flat_idx(row: int, col: int) -> int {
    row * (COLS as int) + col
}

pub enum Grid {
    VecOfVecs(Vec<Vec<bool>>),
    FlatVec(Vec<bool>),
    Hilbert(Vec<bool>),
}

impl Grid {
    /// The storage has the size the layout calls for: N row buffers of N
    /// cells, or one buffer of N*N cells.
    pub open spec fn wf(self) -> bool {
        match self {
            Grid::VecOfVecs(rows) => rows@.len() == ROWS && forall|r: int|
                0 <= r < ROWS ==> (#[trigger] rows@[r])@.len() == COLS,
            Grid::FlatVec(cells) => cells@.len() == AREA,
            Grid::Hilbert(cells) => cells@.len() == AREA,
        }
    }

    /// The abstract contents: the cell at (row, col), independent of the
    /// layout. The curve-ordered layout stores (row, col) at the Hilbert
    /// distance of the point x = col, y = row.
    pub open spec fn cell(self, row: int, col: int) -> bool {
        match self {
            Grid::VecOfVecs(rows) => rows@[row]@[col],
            Grid::FlatVec(cells) => cells@[flat_idx(row, col)],
            Grid::Hilbert(cells) => cells@[hilbert_d(COLS as nat, col as nat, row as nat) as int],
        }
    }

    /// Both grids use the same one of the three storage layouts.
    pub open spec fn same_layout(self, other: Grid) -> bool {
        &&& (self is VecOfVecs <==> other is VecOfVecs)
        &&& (self is FlatVec <==> other is FlatVec)
        &&& (self is Hilbert <==> other is Hilbert)
    }

    /// A fresh all-dead grid in the nested-rows layout.
    pub fn vec_of_vecs() -> (g: Grid)
        ensures
            g.wf(),
            g is VecOfVecs,
            forall|r: int, c: int| 0 <= r < ROWS && 0 <= c < COLS ==> !g.cell(r, c),
    {
        let mut rows: Vec<Vec<bool>> = Vec::new();
        let mut r: usize = 0;
        while r < ROWS
            invariant
                r <= ROWS,
                rows@.len() == r,
                forall|i: int| 0 <= i < r ==> (#[trigger] rows@[i])@ =~= Seq::new(
                    COLS as nat,
                    |c: int| false,
                ),
            decreases ROWS - r,
        {
            let row: Vec<bool> = vec![false; COLS];
            assert(row@ =~= Seq::new(COLS as nat, |c: int| false));
            rows.push(row);
            r = r + 1;
        }
        Grid::VecOfVecs(rows)
    }

    /// A fresh all-dead grid in the flat row-major layout.
    pub fn flat_vec() -> (g: Grid)
        ensures
            g.wf(),
            g is FlatVec,
            forall|r: int, c: int| 0 <= r < ROWS && 0 <= c < COLS ==> !g.cell(r, c),
    {
        let cells: Vec<bool> = vec![false; AREA];
        assert forall|r: int, c: int|
            0 <= r < ROWS && 0 <= c < COLS implies !Grid::FlatVec(cells).cell(r, c) by {
            assert(0 <= flat_idx(r, c) < AREA);
        }
        Grid::FlatVec(cells)
    }

    /// A fresh all-dead grid in the curve-ordered layout.
    pub fn hilbert() -> (g: Grid)
        ensures
            g.wf(),
            g is Hilbert,
            forall|r: int, c: int| 0 <= r < ROWS && 0 <= c < COLS ==> !g.cell(r, c),
    {
        let cells: Vec<bool> = vec![false; AREA];
        assert forall|r: int, c: int|
            0 <= r < ROWS && 0 <= c < COLS implies !Grid::Hilbert(cells).cell(r, c) by {
            lemma_side_is_pow2();
            lemma_hilbert_d_range(COLS as nat, c as nat, r as nat);
        }
        Grid::Hilbert(cells)
    }

    pub fn get(&self, row: usize, col: usize) -> (v: bool)
        requires
            self.wf(),
            row < ROWS,
            col < COLS,
        ensures
            v == self.cell(row as int, col as int),
    {
        match self {
            Grid::VecOfVecs(rows) => rows[row][col],
            Grid::FlatVec(cells) => cells[row * COLS + col],
            Grid::Hilbert(cells) => {
                proof {
                    lemma_side_is_pow2();
                }
                let idx: usize = hilbert_xy_to_d(COLS, col, row);
                cells[idx]
            },
        }
    }

    /// Writes one cell; every other cell keeps its value.
    pub fn set(&mut self, row: usize, col: usize, val: bool)
        requires
            old(self).wf(),
            row < ROWS,
            col < COLS,
        ensures
            final(self).wf(),
            final(self).same_layout(*old(self)),
            forall|r: int, c: int|
                0 <= r < ROWS && 0 <= c < COLS ==> final(self).cell(r, c) == (if r == row && c
                    == col {
                    val
                } else {
                    old(self).cell(r, c)
                }),
    {
        match self {
            Grid::VecOfVecs(rows) => {
                let row_buf = &mut rows[row];
                row_buf.set(col, val);
            },
            Grid::FlatVec(cells) => {
                let idx: usize = row * COLS + col;
                cells.set(idx, val);
            },
            Grid::Hilbert(cells) => {
                proof {
                    lemma_side_is_pow2();
                }
                let idx: usize = hilbert_xy_to_d(COLS, col, row);
                cells.set(idx, val);
            },
        }
        proof {
            assert forall|r: int, c: int|
                0 <= r < ROWS && 0 <= c < COLS && !(r == row && c == col) implies self.cell(r, c)
                == old(self).cell(r, c) by {
                if (*self) is FlatVec {
                    if flat_idx(r, c) == flat_idx(row as int, col as int) {
                        lemma_flat_index_injective(r, c, row as int, col as int);
                    }
                }
                if (*self) is Hilbert {
                    lemma_side_is_pow2();
                    lemma_hilbert_d_range(COLS as nat, c as nat, r as nat);
                    if hilbert_d(COLS as nat, c as nat, r as nat) == hilbert_d(
                        COLS as nat,
                        col as nat,
                        row as nat,
                    ) {
                        lemma_hilbert_d_injective(
                            COLS as nat,
                            c as nat,
                            r as nat,
                            col as nat,
                            row as nat,
                        );
                    }
                }
            }
        }
    }

    /// Row-major bytes of the grid: entry (r, c) is 1 for a live cell and 0
    /// for a dead one.
    pub open spec fn bitmap_spec(self) -> Seq<Seq<u8>> {
        Seq::new(
            ROWS as nat,
            |r: int|
                Seq::new(
                    COLS as nat,
                    |c: int|
                        if self.cell(r, c) {
                            1u8
                        } else {
                            0u8
                        },
                ),
        )
    }

    /// A dense, independent row-major snapshot, one byte per cell; it never
    /// aliases the live storage, so later mutation leaves it unchanged.
    pub fn bitmap(&self) -> (bm: Vec<Vec<u8>>)
        requires
            self.wf(),
        ensures
            bm@.len() == ROWS,
            forall|r: int| 0 <= r < ROWS ==> (#[trigger] bm@[r])@ == self.bitmap_spec()[r],
    {
        let mut bm: Vec<Vec<u8>> = Vec::new();
        let mut row: usize = 0;
        while row < ROWS
            invariant
                self.wf(),
                row <= ROWS,
                bm@.len() == row,
                forall|r: int| 0 <= r < row ==> (#[trigger] bm@[r])@ == self.bitmap_spec()[r],
            decreases ROWS - row,
        {
            let mut line: Vec<u8> = Vec::new();
            let mut col: usize = 0;
            while col < COLS
                invariant
                    self.wf(),
                    row < ROWS,
                    col <= COLS,
                    line@.len() == col,
                    forall|c: int|
                        0 <= c < col ==> line@[c] == (if self.cell(row as int, c) {
                            1u8
                        } else {
                            0u8
                        }),
                decreases COLS - col,
            {
                if self.get(row, col) {
                    line.push(1);
                } else {
                    line.push(0);
                }
                col = col + 1;
            }
            proof {
                assert(line@ =~= self.bitmap_spec()[row as int]);
            }
            bm.push(line);
            row = row + 1;
        }
        bm
    }

    /// Overwrites the whole grid from rows of bytes, nonzero meaning alive;
    /// source positions that do not exist default to dead. Never fails,
    /// whatever the shape of the source.
    pub fn load_bitmap(&mut self, bitmap: &[&[u8]])
        requires
            old(self).wf(),
        ensures
            final(self).wf(),
            final(self).same_layout(*old(self)),
            forall|r: int, c: int|
                0 <= r < ROWS && 0 <= c < COLS ==> final(self).cell(r, c) == (r < bitmap@.len()
                    && c < bitmap@[r]@.len() && bitmap@[r]@[c] != 0),
    {
        let mut row: usize = 0;
        while row < ROWS
            invariant
                self.wf(),
                self.same_layout(*old(self)),
                row <= ROWS,
                forall|r: int, c: int|
                    0 <= r < row && 0 <= c < COLS ==> self.cell(r, c) == (r < bitmap@.len() && c
                        < bitmap@[r]@.len() && bitmap@[r]@[c] != 0),
            decreases ROWS - row,
        {
            let mut col: usize = 0;
            while col < COLS
                invariant
                    self.wf(),
                    self.same_layout(*old(self)),
                    row < ROWS,
                    col <= COLS,
                    forall|r: int, c: int|
                        0 <= r < row && 0 <= c < COLS ==> self.cell(r, c) == (r < bitmap@.len() && c
                            < bitmap@[r]@.len() && bitmap@[r]@[c] != 0),
                    forall|c: int|
                        0 <= c < col ==> self.cell(row as int, c) == (row < bitmap@.len() && c
                            < bitmap@[row as int]@.len() && bitmap@[row as int]@[c] != 0),
                decreases COLS - col,
            {
                let alive: bool = if row < bitmap.len() && col < bitmap[row].len() {
                    bitmap[row][col] != 0
                } else {
                    false
                };
                self.set(row, col, alive);
                col = col + 1;
            }
            row = row + 1;
        }
    }

    /// The two glyphs drawn for one cell: a filled block pair for a live
    /// cell, two blanks for a dead one.
    pub open spec fn cell_glyphs(b: bool) -> Seq<char> {
        if b {
            seq!['█', '█']
        } else {
            seq![' ', ' ']
        }
    }

    /// The first `ncols` cells of row `r` as text, two characters per cell.
    pub open spec fn row_text(self, r: int, ncols: int) -> Seq<char>
        decreases ncols,
    {
        if ncols <= 0 {
            Seq::empty()
        } else {
            self.row_text(r, ncols - 1) + Grid::cell_glyphs(self.cell(r, ncols - 1))
        }
    }

    /// The first `nrows` text rows, joined by single newlines, none after
    /// the last.
    pub open spec fn grid_text(self, nrows: int) -> Seq<char>
        decreases nrows,
    {
        if nrows <= 0 {
            Seq::empty()
        } else if nrows == 1 {
            self.row_text(0, COLS as int)
        } else {
            self.grid_text(nrows - 1) + seq!['\n'] + self.row_text(nrows - 1, COLS as int)
        }
    }

    proof fn lemma_row_text_len(self, r: int, ncols: int)
        requires
            ncols >= 0,
        ensures
            self.row_text(r, ncols).len() == 2 * ncols,
        decreases ncols,
    {
        if ncols > 0 {
            self.lemma_row_text_len(r, ncols - 1);
        }
    }

    proof fn lemma_grid_text_len(self, nrows: int)
        requires
            nrows >= 1,
        ensures
            self.grid_text(nrows).len() == nrows * (2 * (COLS as int)) + nrows - 1,
        decreases nrows,
    {
        self.lemma_row_text_len(nrows - 1, COLS as int);
        if nrows > 1 {
            self.lemma_grid_text_len(nrows - 1);
        } else {
            self.lemma_row_text_len(0, COLS as int);
        }
    }

    /// N text rows joined by single newlines: each row is two characters
    /// per cell, a live cell drawn as two filled glyphs, a dead one as two
    /// blanks. The total length is N*N*2 + (N-1) characters.
    pub fn render_text(&self) -> (s: String)
        requires
            self.wf(),
        ensures
            s@ == self.grid_text(ROWS as int),
            s@.len() == 2 * AREA + ROWS - 1,
    {
        let mut s: String = String::new();
        let mut row: usize = 0;
        while row < ROWS
            invariant
                self.wf(),
                row <= ROWS,
                s@ == self.grid_text(row as int),
            decreases ROWS - row,
        {
            let ghost sep: Seq<char> = if row == 0 {
                Seq::empty()
            } else {
                seq!['\n']
            };
            if row > 0 {
                s.append("\n");
                proof {
                    reveal_strlit("\n");
                    assert("\n"@ =~= seq!['\n']);
                }
            }
            proof {
                assert(s@ =~= self.grid_text(row as int) + sep + self.row_text(row as int, 0));
            }
            let mut col: usize = 0;
            while col < COLS
                invariant
                    self.wf(),
                    row < ROWS,
                    col <= COLS,
                    sep == if row == 0 {
                        Seq::<char>::empty()
                    } else {
                        seq!['\n']
                    },
                    s@ == self.grid_text(row as int) + sep + self.row_text(row as int, col as int),
                decreases COLS - col,
            {
                if self.get(row, col) {
                    s.append("██");
                } else {
                    s.append("  ");
                }
                proof {
                    reveal_strlit("██");
                    reveal_strlit("  ");
                    assert("██"@ =~= Grid::cell_glyphs(true));
                    assert("  "@ =~= Grid::cell_glyphs(false));
                    assert(s@ =~= self.grid_text(row as int) + sep + self.row_text(
                        row as int,
                        col as int + 1,
                    ));
                }
                col = col + 1;
            }
            proof {
                assert(s@ =~= self.grid_text(row as int + 1));
            }
            row = row + 1;
        }
        proof {
            self.lemma_grid_text_len(ROWS as int);
        }
        s
    }
}

/// Layout equivalence: two well-formed grids, in whichever of the three
/// storage layouts, that hold the same cell contents produce byte-identical
/// snapshots. Since the contracts of the constructors, `set` and
/// `load_bitmap` pin the resulting cell contents without reference to the
/// layout, an identical history of such calls on two grids makes their cell
/// contents equal, and this law then makes their snapshots byte-identical.
pub proof fn lemma_layout_equivalence(g1: Grid, g2: Grid)
    requires
        g1.wf(),
        g2.wf(),
        forall|r: int, c: int| 0 <= r < ROWS && 0 <= c < COLS ==> g1.cell(r, c) == g2.cell(r, c),
    ensures
        g1.bitmap_spec() == g2.bitmap_spec(),
{
    assert forall|r: int| 0 <= r < ROWS implies g1.bitmap_spec()[r] =~= g2.bitmap_spec()[r] by {
        assert(forall|c: int| 0 <= c < COLS ==> g1.cell(r, c) == g2.cell(r, c));
    }
    assert(g1.bitmap_spec() =~= g2.bitmap_spec());
}

/// Row-major flattening sends distinct in-range coordinate pairs to
/// distinct buffer positions.
proof fn lemma_flat_index_injective(r1: int, c1: int, r2: int, c2: int)
    requires
        0 <= r1 < ROWS,
        0 <= c1 < COLS,
        0 <= r2 < ROWS,
        0 <= c2 < COLS,
        flat_idx(r1, c1) == flat_idx(r2, c2),
    ensures
        r1 == r2,
        c1 == c2,
{
    assert(r1 == r2 && c1 == c2) by (nonlinear_arith)
        requires
            0 <= c1 < 512,
            0 <= c2 < 512,
            r1 * 512 + c1 == r2 * 512 + c2,
    ;
}

} // verus!
