//! The grid engine: a width-by-height grid of live and dead cells whose edges
//! wrap around, advanced one generation at a time by the B3/S23 rule.

use vstd::prelude::*;
use vstd::arithmetic::div_mod::lemma_fundamental_div_mod_converse;
use fixedbitset::FixedBitSet;
use crate::bitset::bits_of;

verus! {

/// The side of the square grid that `Universe::new` builds.
pub const DEFAULT_SIDE: u32 = 64;

/// The row-major index of the cell at `(r, c)` in a grid `w` cells wide.
pub open spec fn index_of(w: int, r: int, c: int) -> int {
    w * r + c
}

/// The offset that position `k` (0, 1 or 2) of a neighbourhood stands for
/// along a dimension of size `d`: `d - 1`, `0` and `1`, so that adding it and
/// taking the remainder by `d` steps back, stays, or steps forward.
pub open spec fn offset(k: int, d: int) -> int {
    if k == 0 {
        d - 1
    } else if k == 1 {
        0
    } else {
        1
    }
}

/// What the neighbour at offset positions `(a, b)` of cell `(r, c)` adds to
/// its count: 1 if that wrapped cell is alive, 0 if it is dead, and 0 where
/// both offsets are zero (the cell itself). On a grid one cell high or wide
/// an offset of `d - 1` is zero too, and wrapping can reach the cell itself
/// through an offset of 1: such a term counts it.
pub open spec fn neighbor_term(cells: Seq<bool>, w: int, h: int, r: int, c: int, a: int, b: int) -> int {
    let dr = offset(a, h);
    let dc = offset(b, w);
    if dr == 0 && dc == 0 {
        0
    } else if cells[index_of(w, (r + dr) % h, (c + dc) % w)] {
        1
    } else {
        0
    }
}

/// The sum of the terms of the first `nb` column offsets in row offset `a`.
pub open spec fn row_terms(cells: Seq<bool>, w: int, h: int, r: int, c: int, a: int, nb: int) -> int
    decreases nb,
{
    if nb <= 0 {
        0
    } else {
        row_terms(cells, w, h, r, c, a, nb - 1) + neighbor_term(cells, w, h, r, c, a, nb - 1)
    }
}

/// The sum of the terms of the first `na` row offsets, each over all three
/// column offsets.
pub open spec fn rows_terms(cells: Seq<bool>, w: int, h: int, r: int, c: int, na: int) -> int
    decreases na,
{
    if na <= 0 {
        0
    } else {
        rows_terms(cells, w, h, r, c, na - 1) + row_terms(cells, w, h, r, c, na - 1, 3)
    }
}

/// The live neighbour count of cell `(r, c)`: the live cells among its eight
/// wrapped neighbours.
pub open spec fn neighbor_count(cells: Seq<bool>, w: int, h: int, r: int, c: int) -> int {
    rows_terms(cells, w, h, r, c, 3)
}

/// The B3/S23 rule: a live cell with fewer than two or more than three live
/// neighbours dies, a dead cell with exactly three comes alive, and every
/// other cell keeps its state.
pub open spec fn rule(alive: bool, n: int) -> bool {
    if alive && (n < 2 || n > 3) {
        false
    } else if !alive && n == 3 {
        true
    } else {
        alive
    }
}

/// The generation that follows `cells` on a `w` by `h` grid: every cell
/// updated at once from the neighbour counts of the previous generation.
pub open spec fn next_gen(cells: Seq<bool>, w: int, h: int) -> Seq<bool> {
    Seq::new(
        cells.len(),
        |i: int| rule(cells[i], neighbor_count(cells, w, h, i / w, i % w)),
    )
}

/// `cells` with the state of cell `(r, c)` flipped.
pub open spec fn toggled(cells: Seq<bool>, w: int, r: int, c: int) -> Seq<bool> {
    cells.update(index_of(w, r, c), !cells[index_of(w, r, c)])
}

/// The glyph that shows a cell: filled where it is alive, hollow where it
/// is dead.
pub open spec fn glyph(alive: bool) -> char {
    if alive {
        '\u{25FC}'
    } else {
        '\u{25FB}'
    }
}

/// The text form of a `w` by `h` grid: each row as one glyph per cell,
/// followed by a newline, rows in order.
pub open spec fn rendered(cells: Seq<bool>, w: int, h: int) -> Seq<char> {
    Seq::new(
        (h * (w + 1)) as nat,
        |k: int|
            if k % (w + 1) == w {
                '\n'
            } else {
                glyph(cells[index_of(w, k / (w + 1), k % (w + 1))])
            },
    )
}

/// Whether `cells` is a valid state of a `w` by `h` grid.
pub open spec fn grid_ok(cells: Seq<bool>, w: int, h: int) -> bool {
    &&& w > 0
    &&& h > 0
    &&& cells.len() == w * h
}

proof fn lemma_index_in_bounds(w: int, h: int, r: int, c: int)
    requires
        0 <= r < h,
        0 <= c < w,
    ensures
        0 <= index_of(w, r, c) < w * h,
        w * r <= index_of(w, r, c),
{
    assert(0 <= w * r) by (nonlinear_arith)
        requires
            0 <= r,
            0 <= c < w,
    ;
    assert(w * r + c < w * h) by (nonlinear_arith)
        requires
            0 <= r < h,
            0 <= c < w,
    ;
}

/// The live neighbour count of any cell of any grid lies in `0..=8`, on
/// grids one cell high or wide too: the centre term never counts.
pub proof fn lemma_neighbor_count_bounded(cells: Seq<bool>, w: int, h: int, r: int, c: int)
    requires
        grid_ok(cells, w, h),
        0 <= r < h,
        0 <= c < w,
    ensures
        0 <= neighbor_count(cells, w, h, r, c) <= 8,
{
    reveal_with_fuel(rows_terms, 4);
    reveal_with_fuel(row_terms, 4);
    assert(neighbor_term(cells, w, h, r, c, 1, 1) == 0);
}

proof fn lemma_neighbor_index_in_bounds(w: int, h: int, r: int, c: int, a: int, b: int)
    requires
        w > 0,
        h > 0,
        0 <= r,
        0 <= c,
        0 <= a < 3,
        0 <= b < 3,
    ensures
        0 <= index_of(w, (r + offset(a, h)) % h, (c + offset(b, w)) % w) < w * h,
{
    lemma_index_in_bounds(w, h, (r + offset(a, h)) % h, (c + offset(b, w)) % w);
}

/// On a grid where every cell is dead, the next generation has every cell
/// dead too: nothing comes alive from nothing.
pub proof fn lemma_dead_grid_stays_dead(cells: Seq<bool>, w: int, h: int)
    requires
        grid_ok(cells, w, h),
        forall|i: int| 0 <= i < cells.len() ==> !#[trigger] cells[i],
    ensures
        next_gen(cells, w, h) == cells,
{
    assert forall|i: int| 0 <= i < cells.len() implies !#[trigger] next_gen(cells, w, h)[i] by {
        let r = i / w;
        let c = i % w;
        assert forall|a: int, b: int| 0 <= a < 3 && 0 <= b < 3 implies #[trigger] neighbor_term(
            cells,
            w,
            h,
            r,
            c,
            a,
            b,
        ) == 0 by {
            lemma_neighbor_index_in_bounds(w, h, r, c, a, b);
        }
        reveal_with_fuel(rows_terms, 4);
        reveal_with_fuel(row_terms, 4);
    }
    assert(next_gen(cells, w, h) =~= cells);
}

/// A live cell with no live neighbour is dead in the next generation.
pub proof fn lemma_isolated_cell_dies(cells: Seq<bool>, w: int, h: int, r: int, c: int)
    requires
        grid_ok(cells, w, h),
        0 <= r < h,
        0 <= c < w,
        cells[index_of(w, r, c)],
        neighbor_count(cells, w, h, r, c) == 0,
    ensures
        !next_gen(cells, w, h)[index_of(w, r, c)],
{
    lemma_index_in_bounds(w, h, r, c);
    lemma_fundamental_div_mod_converse(index_of(w, r, c), w, r, c);
}

/// Neither a step nor a flip changes the number of cells, so a grid keeps
/// its `width * height` cells over any sequence of them.
pub proof fn lemma_cell_count_kept(cells: Seq<bool>, w: int, h: int, r: int, c: int)
    requires
        grid_ok(cells, w, h),
        0 <= r < h,
        0 <= c < w,
    ensures
        grid_ok(next_gen(cells, w, h), w, h),
        grid_ok(toggled(cells, w, r, c), w, h),
{
    lemma_index_in_bounds(w, h, r, c);
}

/// Flipping the same cell twice gives back the grid one started from.
pub proof fn lemma_toggle_twice(cells: Seq<bool>, w: int, h: int, r: int, c: int)
    requires
        grid_ok(cells, w, h),
        0 <= r < h,
        0 <= c < w,
    ensures
        toggled(toggled(cells, w, r, c), w, r, c) == cells,
{
    lemma_index_in_bounds(w, h, r, c);
    assert(toggled(toggled(cells, w, r, c), w, r, c) =~= cells);
}

/// A Game of Life grid of fixed width and height whose edges wrap around.
pub struct Universe {
    width: u32,
    height: u32,
    cells: FixedBitSet,
}

impl Universe {
    /// The number of columns.
    pub closed spec fn spec_width(&self) -> int {
        self.width as int
    }

    /// The number of rows.
    pub closed spec fn spec_height(&self) -> int {
        self.height as int
    }

    /// The cell states in row-major order: entry `width * row + col` is
    /// `true` where that cell is alive.
    pub closed spec fn view(&self) -> Seq<bool> {
        bits_of(self.cells)
    }

    /// The grid's invariant: positive dimensions, one state per cell, and
    /// a cell count that fits a `usize`.
    pub open spec fn wf(&self) -> bool {
        &&& grid_ok(self@, self.spec_width(), self.spec_height())
        &&& self.spec_width() * self.spec_height() <= usize::MAX
    }

    /// A `width` by `height` grid in which cell `i` (row-major) is alive
    /// exactly where `alive[i]` is `true`.
    pub fn with_size(width: u32, height: u32, alive: &Vec<bool>) -> (r: Universe)
        requires
            width > 0,
            height > 0,
            alive@.len() == width * height,
        ensures
            r.wf(),
            r.spec_width() == width,
            r.spec_height() == height,
            r@ == alive@,
    {
        let n: usize = alive.len();
        let mut cells = FixedBitSet::with_capacity(n);
        for i in 0..n
            invariant
                n == alive@.len(),
                bits_of(cells).len() == n,
                forall|j: int| 0 <= j < i ==> bits_of(cells)[j] == alive@[j],
        {
            cells.set(i, alive[i]);
        }
        let r = Universe { width, height, cells };
        assert(r@ =~= alive@);
        r
    }

    /// A 64 by 64 grid in which cell `i` (row-major) is alive exactly where
    /// `alive[i]` is `true`.
    pub fn new(alive: &Vec<bool>) -> (r: Universe)
        requires
            alive@.len() == DEFAULT_SIDE * DEFAULT_SIDE,
        ensures
            r.wf(),
            r.spec_width() == DEFAULT_SIDE,
            r.spec_height() == DEFAULT_SIDE,
            r@ == alive@,
    {
        Universe::with_size(DEFAULT_SIDE, DEFAULT_SIDE, alive)
    }

    /// The number of columns.
    pub fn width(&self) -> (r: u32)
        ensures
            r == self.spec_width(),
    {
        self.width
    }

    /// The number of rows.
    pub fn height(&self) -> (r: u32)
        ensures
            r == self.spec_height(),
    {
        self.height
    }

    fn get_index(&self, row: u32, column: u32) -> (r: usize)
        requires
            self.wf(),
            row < self.spec_height(),
            column < self.spec_width(),
        ensures
            r == index_of(self.spec_width(), row as int, column as int),
            r < self@.len(),
    {
        proof {
            lemma_index_in_bounds(self.width as int, self.height as int, row as int, column as int);
        }
        self.width as usize * row as usize + column as usize
    }

    /// The number of live cells among the eight wrapped neighbours of
    /// `(row, col)`. On a grid one cell high or wide, a neighbour reached
    /// through wrapping may be the cell itself, and is then counted.
    pub fn live_neighbor_count(&self, row: u32, col: u32) -> (r: u8)
        requires
            self.wf(),
            row < self.spec_height(),
            col < self.spec_width(),
        ensures
            r == neighbor_count(self@, self.spec_width(), self.spec_height(), row as int, col as int),
            r <= 8,
    {
        let mut count: u8 = 0;
        for a in 0..3u32
            invariant
                self.wf(),
                row < self.spec_height(),
                col < self.spec_width(),
                count == rows_terms(self@, self.spec_width(), self.spec_height(), row as int, col as int, a as int),
                count <= 3 * a,
        {
            let dr: u32 = if a == 0 { self.height - 1 } else if a == 1 { 0 } else { 1 };
            let ghost before = count;
            for b in 0..3u32
                invariant
                    self.wf(),
                    row < self.spec_height(),
                    col < self.spec_width(),
                    a < 3,
                    dr == offset(a as int, self.spec_height()),
                    count == before + row_terms(self@, self.spec_width(), self.spec_height(), row as int, col as int, a as int, b as int),
                    count <= before + b,
                    before <= 3 * a,
            {
                let dc: u32 = if b == 0 { self.width - 1 } else if b == 1 { 0 } else { 1 };
                if !(dr == 0 && dc == 0) {
                    let nr = ((row as u64 + dr as u64) % self.height as u64) as u32;
                    let nc = ((col as u64 + dc as u64) % self.width as u64) as u32;
                    let i = self.get_index(nr, nc);
                    if self.cells.contains(i) {
                        count = count + 1;
                    }
                }
            }
        }
        proof {
            lemma_neighbor_count_bounded(self@, self.spec_width(), self.spec_height(), row as int, col as int);
        }
        count
    }

    /// Advances the grid by one generation: every cell is updated at once,
    /// from the neighbour counts of the generation before.
    pub fn tick(&mut self)
        requires
            old(self).wf(),
        ensures
            final(self).wf(),
            final(self).spec_width() == old(self).spec_width(),
            final(self).spec_height() == old(self).spec_height(),
            final(self)@ == next_gen(old(self)@, old(self).spec_width(), old(self).spec_height()),
    {
        let ghost w = self.spec_width();
        let ghost h = self.spec_height();
        let ghost target = next_gen(self@, w, h);
        let mut next = self.cells.clone();
        assert(w * 0 == 0);
        for row in 0..self.height
            invariant
                self.wf(),
                w == self.spec_width(),
                h == self.spec_height(),
                target == next_gen(self@, w, h),
                bits_of(next).len() == w * h,
                forall|j: int|
                    0 <= j < w * h ==> #[trigger] bits_of(next)[j] == if j < w * row {
                        target[j]
                    } else {
                        self@[j]
                    },
        {
            for col in 0..self.width
                invariant
                    self.wf(),
                    w == self.spec_width(),
                    h == self.spec_height(),
                    row < h,
                    target == next_gen(self@, w, h),
                    bits_of(next).len() == w * h,
                    forall|j: int|
                        0 <= j < w * h ==> #[trigger] bits_of(next)[j] == if j < w * row + col {
                            target[j]
                        } else {
                            self@[j]
                        },
            {
                let i = self.get_index(row, col);
                let cell = self.cells.contains(i);
                let live_neighbors = self.live_neighbor_count(row, col);
                let next_cell = if cell && (live_neighbors < 2 || live_neighbors > 3) {
                    false
                } else if !cell && live_neighbors == 3 {
                    true
                } else {
                    cell
                };
                proof {
                    lemma_fundamental_div_mod_converse(i as int, w, row as int, col as int);
                }
                next.set(i, next_cell);
            }
            assert(w * row + w == w * (row + 1)) by (nonlinear_arith);
        }
        self.cells = next;
        assert(self@ =~= target);
    }

    /// The packed cell buffer, for rendering: `u32` blocks in which cell `i`
    /// (row-major) is bit `i % 32`, counted from the lowest, of block
    /// `i / 32`; as many blocks as `width * height` bits need.
    pub fn cells(&self) -> (r: &[u32])
        requires
            self.wf(),
        ensures
            r@.len() == (self.spec_width() * self.spec_height() + 31) / 32,
            forall|i: int|
                0 <= i < self@.len() ==> #[trigger] self@[i] == ((r@[i / 32] >> ((i % 32) as u32)) & 1u32 == 1u32),
    {
        self.cells.as_slice()
    }

    /// The grid as text: one glyph per cell, filled for alive and hollow
    /// for dead, each row ended by a newline.
    pub fn render(&self) -> (r: Vec<char>)
        requires
            self.wf(),
        ensures
            r@ == rendered(self@, self.spec_width(), self.spec_height()),
    {
        let ghost w = self.spec_width();
        let ghost h = self.spec_height();
        let ghost target = rendered(self@, w, h);
        let mut out: Vec<char> = Vec::new();
        assert((w + 1) * 0 == 0);
        for row in 0..self.height
            invariant
                self.wf(),
                w == self.spec_width(),
                h == self.spec_height(),
                target == rendered(self@, w, h),
                out@.len() == (w + 1) * row,
                forall|k: int| 0 <= k < out@.len() ==> #[trigger] out@[k] == target[k],
        {
            assert((w + 1) * row + w + 1 <= (w + 1) * h) by (nonlinear_arith)
                requires
                    row < h,
                    w > 0,
            ;
            for col in 0..self.width
                invariant
                    self.wf(),
                    w == self.spec_width(),
                    h == self.spec_height(),
                    row < h,
                    target == rendered(self@, w, h),
                    (w + 1) * row + w + 1 <= (w + 1) * h,
                    out@.len() == (w + 1) * row + col,
                    forall|k: int| 0 <= k < out@.len() ==> #[trigger] out@[k] == target[k],
            {
                let i = self.get_index(row, col);
                let g = if self.cells.contains(i) {
                    '\u{25FC}'
                } else {
                    '\u{25FB}'
                };
                proof {
                    assert((w + 1) * row == row * (w + 1)) by (nonlinear_arith);
                    lemma_fundamental_div_mod_converse(out@.len() as int, w + 1, row as int, col as int);
                }
                out.push(g);
            }
            proof {
                assert((w + 1) * row == row * (w + 1)) by (nonlinear_arith);
                lemma_fundamental_div_mod_converse(out@.len() as int, w + 1, row as int, w);
            }
            out.push('\n');
            assert((w + 1) * row + w + 1 == (w + 1) * (row + 1)) by (nonlinear_arith);
        }
        assert((w + 1) * h == h * (w + 1)) by (nonlinear_arith);
        assert(out@ =~= target);
        out
    }

    /// Flips the state of the cell at `(row, col)`.
    pub fn toggle_cell(&mut self, row: u32, col: u32)
        requires
            old(self).wf(),
            row < old(self).spec_height(),
            col < old(self).spec_width(),
        ensures
            final(self).wf(),
            final(self).spec_width() == old(self).spec_width(),
            final(self).spec_height() == old(self).spec_height(),
            final(self)@ == toggled(old(self)@, old(self).spec_width(), row as int, col as int),
    {
        let idx = self.get_index(row, col);
        let state = self.cells.contains(idx);
        self.cells.set(idx, !state);
    }

    /// The bit set that holds the cells, bit `width * row + col` for the cell
    /// at `(row, col)`.
    pub fn get_cells(&self) -> (r: &FixedBitSet)
        ensures
            bits_of(*r) == self@,
    {
        &self.cells
    }
}

} // verus!
