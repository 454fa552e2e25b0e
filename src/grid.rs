//! The grid: two flat, equally sized buffers of cells with a dead border,
//! stepped by reading one and writing the other.
use crate::error::GridError;
use crate::pattern::Pattern;
use crate::life::{
    band_rows, band_start, bands, is_rect, lemma_band_start_bounds, lemma_band_start_strict,
    lemma_bands_flatten, lemma_life_shift, life, neighbours, rule, step_inner, surround, val, zeros,
    Board,
};
use vstd::prelude::*;

verus! {

/// A grid of `rows` by `columns` cells, framed by a one-cell border.
///
/// The border columns are always dead. The border rows hold the rows that a
/// neighbouring band handed over; a step consumes them and leaves them dead.
pub struct GameState {
    rows: usize,
    columns: usize,
    front: Vec<u8>,
    back: Vec<u8>,
}

/// What a grid holds: its dimensions and its lines, the two border lines
/// included, each over the grid's own columns.
pub struct GridView {
    pub rows: nat,
    pub columns: nat,
    pub lines: Board,
}

impl GridView {
    /// The cells of the grid, row by row.
    pub open spec fn board(self) -> Board {
        self.lines.subrange(1, self.rows + 1 as int)
    }

    /// The border line above the first row.
    pub open spec fn top_halo(self) -> Seq<u8> {
        self.lines[0]
    }

    /// The border line below the last row.
    pub open spec fn bottom_halo(self) -> Seq<u8> {
        self.lines[self.rows + 1 as int]
    }

    /// The whole border is dead.
    pub open spec fn clear_halo(self) -> bool {
        self.top_halo() == zeros(self.columns) && self.bottom_halo() == zeros(self.columns)
    }

    /// The cells of the grid that are alive, as (row, column) pairs.
    pub open spec fn live_set(self) -> Set<(int, int)> {
        Set::new(
            |p: (int, int)|
                0 <= p.0 < self.rows && 0 <= p.1 < self.columns && self.board()[p.0][p.1] == 1,
        )
    }
}

impl View for GameState {
    type V = GridView;

    closed spec fn view(&self) -> GridView {
        GridView { rows: self.rows as nat, columns: self.columns as nat, lines: self.padded() }
    }
}

/// The cell at line `pr`, column `pc` of a buffer of lines of `w` cells.
spec fn cell_at(buf: Seq<u8>, w: int, pr: int, pc: int) -> u8 {
    buf[pr * w + pc]
}

/// Writing one cell of a buffer leaves every other cell as it was.
proof fn lemma_cell_at_update(buf: Seq<u8>, h: int, w: int, r: int, c: int, v: u8)
    requires
        0 <= r < h,
        0 <= c < w,
        buf.len() == h * w,
    ensures
        forall|pr: int, pc: int|
            0 <= pr < h && 0 <= pc < w ==> #[trigger] cell_at(buf.update(r * w + c, v), w, pr, pc)
                == if pr == r && pc == c {
                v
            } else {
                cell_at(buf, w, pr, pc)
            },
{
    assert forall|pr: int, pc: int| 0 <= pr < h && 0 <= pc < w implies #[trigger] cell_at(
        buf.update(r * w + c, v),
        w,
        pr,
        pc,
    ) == if pr == r && pc == c {
        v
    } else {
        cell_at(buf, w, pr, pc)
    } by {
        lemma_pos_unique(w, pr, pc, r, c);
        lemma_pos_bound(h, w, pr, pc);
        lemma_pos_bound(h, w, r, c);
    }
}

/// A grid of `rows` by `columns` cells, with its border, can be indexed.
pub open spec fn fits(rows: int, columns: int) -> bool {
    (rows + 2) * (columns + 2) <= usize::MAX
}

/// Positions in a buffer of lines of `w` cells are distinct for distinct cells.
proof fn lemma_pos_unique(w: int, r1: int, c1: int, r2: int, c2: int)
    requires
        0 <= c1 < w,
        0 <= c2 < w,
        0 <= r1,
        0 <= r2,
    ensures
        (r1 * w + c1 == r2 * w + c2) <==> (r1 == r2 && c1 == c2),
{
    if r1 < r2 {
        assert(r1 * w + c1 < r2 * w + c2) by (nonlinear_arith)
            requires
                r1 < r2,
                0 <= c1 < w,
                0 <= c2,
        ;
    } else if r2 < r1 {
        assert(r2 * w + c2 < r1 * w + c1) by (nonlinear_arith)
            requires
                r2 < r1,
                0 <= c2 < w,
                0 <= c1,
        ;
    }
}

proof fn lemma_fits_dims(rows: int, columns: int)
    requires
        0 <= rows,
        0 <= columns,
        fits(rows, columns),
    ensures
        rows + 2 <= usize::MAX,
        columns + 2 <= usize::MAX,
{
    assert(rows + 2 <= (rows + 2) * (columns + 2) && columns + 2 <= (rows + 2) * (columns + 2))
        by (nonlinear_arith)
        requires
            0 <= rows,
            0 <= columns,
    ;
}

/// A position in a buffer of `h` lines of `w` cells lies inside it.
proof fn lemma_pos_bound(h: int, w: int, r: int, c: int)
    requires
        0 <= r < h,
        0 <= c < w,
    ensures
        0 <= r * w + c < h * w,
        r * w <= h * w,
{
    assert(0 <= r * w + c < h * w && r * w <= h * w) by (nonlinear_arith)
        requires
            0 <= r < h,
            0 <= c < w,
    ;
}

/// `b` with the cell at `(r0 + dr, c0 + dc)` alive for every offset
/// `(dr, dc)` of `cells`.
pub open spec fn seeded(b: Board, cells: Seq<(usize, usize)>, r0: int, c0: int) -> Board {
    Seq::new(
        b.len(),
        |r: int|
            Seq::new(
                b[r].len(),
                |c: int|
                    if exists|k: int|
                        0 <= k < cells.len() && r0 + cells[k].0 == r && c0 + cells[k].1 == c {
                        1u8
                    } else {
                        b[r][c]
                    },
            ),
    )
}

/// Every offset of `cells`, placed at `(r0, c0)`, falls inside a grid of
/// `rows` by `columns`.
pub open spec fn placeable(
    cells: Seq<(usize, usize)>,
    r0: int,
    c0: int,
    rows: int,
    columns: int,
) -> bool {
    forall|k: int|
        0 <= k < cells.len() ==> r0 + (#[trigger] cells[k]).0 < rows && c0 + cells[k].1 < columns
}

/// `(a, b)` comes before `(c, d)` in row-major order.
pub open spec fn row_major_before(p: (usize, usize), q: (usize, usize)) -> bool {
    p.0 < q.0 || (p.0 == q.0 && p.1 < q.1)
}

/// The boards of a sequence of grids.
pub open spec fn boards(parts: Seq<GameState>) -> Seq<Board> {
    Seq::new(parts.len(), |i: int| parts[i]@.board())
}

/// All the parts have as many columns as the first.
pub open spec fn same_columns(parts: Seq<GameState>) -> bool {
    forall|i: int| 0 <= i < parts.len() ==> #[trigger] parts[i]@.columns == parts[0]@.columns
}

/// A prefix of a sequence of boards flattens to no more rows than the whole.
proof fn lemma_flatten_prefix_len(bs: Seq<Board>, k: int)
    requires
        0 <= k <= bs.len(),
    ensures
        bs.take(k).flatten().len() <= bs.flatten().len(),
{
    vstd::seq_lib::lemma_flatten_concat(bs.take(k), bs.skip(k));
    assert(bs.take(k) + bs.skip(k) == bs);
}

/// Split and merge: the bands that `split` gives, stacked in order, are
/// the grid's rows again, so merging them loses and reorders nothing.
pub proof fn lemma_split_merge(g: GameState, pieces: nat, parts: Seq<GameState>)
    requires
        g.wf(),
        1 <= pieces,
        parts.len() == pieces,
        forall|i: int|
            0 <= i < pieces ==> (#[trigger] parts[i])@.board() == bands(g@.board(), pieces)[i],
    ensures
        boards(parts) == bands(g@.board(), pieces),
        boards(parts).flatten() == g@.board(),
{
    assert(boards(parts) =~= bands(g@.board(), pieces));
    lemma_bands_flatten(g@.board(), pieces);
}

/// The first row of band `i` of `pieces`: `rows * i / pieces`.
fn band_bound(rows: usize, pieces: usize, i: usize) -> (r: usize)
    requires
        1 <= pieces,
        i <= pieces,
    ensures
        r == band_start(rows as nat, pieces as nat, i as int),
{
    proof {
        lemma_band_start_bounds(rows as nat, pieces as nat, i as int, i as int);
        assert((rows as int) * (i as int) <= u128::MAX) by (nonlinear_arith)
            requires
                rows <= usize::MAX,
                i <= usize::MAX,
                usize::MAX <= u64::MAX,
        ;
    }
    ((rows as u128) * (i as u128) / (pieces as u128)) as usize
}

impl GameState {
    /// The cell at line `pr`, column `pc` of the bordered current buffer.
    closed spec fn raw(&self, pr: int, pc: int) -> u8 {
        cell_at(self.front@, self.columns + 2, pr, pc)
    }

    /// The cell at line `pr`, column `pc` of the bordered spare buffer.
    closed spec fn back_at(&self, pr: int, pc: int) -> u8 {
        cell_at(self.back@, self.columns + 2, pr, pc)
    }

    /// Whether `(pr, pc)` is a border cell of the bordered grid.
    closed spec fn is_border(&self, pr: int, pc: int) -> bool {
        pr == 0 || pr == self.rows + 1 || pc == 0 || pc == self.columns + 1
    }

    /// The grid's invariant: positive dimensions, both buffers of the
    /// bordered size, dead border columns in the current buffer, and a
    /// wholly dead border in the spare one.
    pub closed spec fn wf(&self) -> bool {
        &&& 1 <= self.rows
        &&& 1 <= self.columns
        &&& fits(self.rows as int, self.columns as int)
        &&& self.front@.len() == (self.rows + 2) * (self.columns + 2)
        &&& self.back@.len() == self.front@.len()
        &&& forall|pr: int| 0 <= pr < self.rows + 2 ==> #[trigger] self.raw(pr, 0) == 0
        &&& forall|pr: int|
            0 <= pr < self.rows + 2 ==> #[trigger] self.raw(pr, self.columns + 1) == 0
        &&& forall|pr: int, pc: int|
            0 <= pr < self.rows + 2 && 0 <= pc < self.columns + 2 && self.is_border(pr, pc)
                ==> #[trigger] self.back_at(pr, pc) == 0
    }

    /// Every line of the bordered grid, border lines included, over the
    /// grid's own columns.
    closed spec fn padded(&self) -> Board {
        Seq::new(
            (self.rows + 2) as nat,
            |pr: int| Seq::new(self.columns as nat, |c: int| self.raw(pr, c + 1)),
        )
    }

    /// The lines of a grid form a rectangle.
    pub proof fn lemma_shape(&self)
        ensures
            self@.board().len() == self@.rows,
            is_rect(self@.board(), self@.columns),
            self@.lines.len() == self@.rows + 2,
            is_rect(self@.lines, self@.columns),
    {
    }

    /// A cell of the current buffer is the value of the bordered board there.
    proof fn lemma_raw_val(&self, pr: int, pc: int)
        requires
            self.wf(),
            0 <= pr < self.rows + 2,
            0 <= pc < self.columns + 2,
        ensures
            self.raw(pr, pc) as int == val(self.padded(), pr, pc - 1),
    {
        if pc == 0 {
            assert(self.raw(pr, 0) == 0);
        } else if pc == self.columns + 1 {
            assert(self.raw(pr, self.columns + 1) == 0);
        } else {
            assert(self.padded()[pr][pc - 1] == self.raw(pr, pc));
        }
    }

    /// The cell at line `pr`, column `pc` of the bordered grid, border
    /// lines and border columns included.
    pub closed spec fn bordered(&self, pr: int, pc: int) -> u8 {
        self.raw(pr, pc)
    }

    /// The border columns of a grid are dead; every other cell of the
    /// bordered grid is the cell of its line.
    pub proof fn lemma_bordered(&self)
        requires
            self.wf(),
        ensures
            forall|pr: int, pc: int|
                0 <= pr < self@.rows + 2 && 0 <= pc < self@.columns + 2 ==> #[trigger] self.bordered(
                    pr,
                    pc,
                ) == if pc == 0 || pc == self@.columns + 1 {
                    0
                } else {
                    self@.lines[pr][pc - 1]
                },
    {
        assert forall|pr: int, pc: int|
            0 <= pr < self@.rows + 2 && 0 <= pc < self@.columns + 2 implies #[trigger] self.bordered(
            pr,
            pc,
        ) == if pc == 0 || pc == self@.columns + 1 {
            0
        } else {
            self@.lines[pr][pc - 1]
        } by {
            if pc == 0 {
                assert(self.raw(pr, 0) == 0);
            } else if pc == self@.columns + 1 {
                assert(self.raw(pr, self.columns + 1) == 0);
            }
        }
    }

    /// Every border cell of a grid whose border lines are clear is dead.
    pub proof fn lemma_halo_dead(&self)
        requires
            self.wf(),
            self@.clear_halo(),
        ensures
            forall|pr: int, pc: int|
                0 <= pr < self@.rows + 2 && 0 <= pc < self@.columns + 2 && (pr == 0 || pr
                    == self@.rows + 1 || pc == 0 || pc == self@.columns + 1) ==> #[trigger] self.bordered(
                    pr,
                    pc,
                ) == 0,
    {
        self.lemma_bordered();
        assert forall|pr: int, pc: int|
            0 <= pr < self@.rows + 2 && 0 <= pc < self@.columns + 2 && (pr == 0 || pr
                == self@.rows + 1 || pc == 0 || pc == self@.columns + 1) implies #[trigger] self.bordered(
            pr,
            pc,
        ) == 0 by {
            if pc != 0 && pc != self@.columns + 1 {
                if pr == 0 {
                    assert(self@.top_halo()[pc - 1] == 0);
                } else {
                    assert(self@.bottom_halo()[pc - 1] == 0);
                }
            }
        }
    }

    /// The lines of a grid are its rows between its two border lines.
    pub proof fn lemma_lines(&self)
        ensures
            self@.lines == surround(
                self@.board(),
                self@.top_halo(),
                self@.bottom_halo(),
            ),
    {
        assert(self@.lines =~= surround(
            self@.board(),
            self@.top_halo(),
            self@.bottom_halo(),
        ));
    }

    /// A grid has rows and columns, and its dimensions with the border are
    /// machine integers.
    pub proof fn lemma_dims_fit(&self)
        requires
            self.wf(),
        ensures
            1 <= self@.rows,
            1 <= self@.columns,
            self@.rows + 2 <= usize::MAX,
            self@.columns + 2 <= usize::MAX,
    {
        self.lemma_dims();
    }

    /// The dimensions of a grid, with its border, are machine integers.
    proof fn lemma_dims(&self)
        requires
            self.wf(),
        ensures
            self.rows + 2 <= usize::MAX,
            self.columns + 2 <= usize::MAX,
    {
        lemma_fits_dims(self.rows as int, self.columns as int);
    }

    /// The position in the buffers of line `row`, column `column` of the
    /// bordered grid.
    fn get_index(&self, row: usize, column: usize) -> (r: usize)
        requires
            self.wf(),
            row < self.rows + 2,
            column < self.columns + 2,
        ensures
            r == row * (self.columns + 2) + column,
            r < self.front@.len(),
    {
        proof {
            self.lemma_dims();
            lemma_pos_bound(self.rows + 2, self.columns + 2, row as int, column as int);
        }
        row * (self.columns + 2) + column
    }

    /// A grid of `rows` by `columns` dead cells.
    pub fn new(rows: usize, columns: usize) -> (r: Result<GameState, GridError>)
        ensures
            r is Err <==> (rows == 0 || columns == 0 || !fits(rows as int, columns as int)),
            r is Err ==> r == Err::<GameState, GridError>(GridError::InvalidDimensions),
            r matches Ok(g) ==> {
                &&& g.wf()
                &&& g@.rows == rows
                &&& g@.columns == columns
                &&& g@.board() == Seq::new(rows as nat, |i: int| zeros(columns as nat))
                &&& g@.clear_halo()
            },
    {
        if rows == 0 || columns == 0 || rows > usize::MAX - 2 || columns > usize::MAX - 2 {
            proof {
                if rows > 0 && columns > 0 {
                    assert((rows + 2) * (columns + 2) > usize::MAX) by (nonlinear_arith)
                        requires
                            rows + 2 > usize::MAX || columns + 2 > usize::MAX,
                            rows >= 1,
                            columns >= 1,
                    ;
                }
            }
            return Err(GridError::InvalidDimensions);
        }
        let element_count = match (rows + 2).checked_mul(columns + 2) {
            Some(n) => n,
            None => {
                return Err(GridError::InvalidDimensions);
            },
        };
        let front = vec![0u8; element_count];
        let back = vec![0u8; element_count];
        let g = GameState { rows, columns, front, back };
        proof {
            assert forall|pr: int, c: int| 0 <= pr < rows + 2 && 0 <= c < columns implies #[trigger] g.padded()[pr][c] == 0 by {
                lemma_pos_bound(rows + 2, columns + 2, pr, c + 1);
            }
        }
        assert(g@.board() =~~= Seq::new(rows as nat, |i: int| zeros(columns as nat)));
        assert(g@.top_halo() =~= zeros(columns as nat));
        assert(g@.bottom_halo() =~= zeros(columns as nat));
        proof {
            assert forall|pr: int| 0 <= pr < rows + 2 implies #[trigger] g.raw(pr, 0) == 0 by {
                lemma_pos_bound(rows + 2, columns + 2, pr, 0);
            }
            assert forall|pr: int| 0 <= pr < rows + 2 implies #[trigger] g.raw(
                pr,
                columns + 1,
            ) == 0 by {
                lemma_pos_bound(rows + 2, columns + 2, pr, columns + 1);
            }
            assert forall|pr: int, pc: int|
                0 <= pr < rows + 2 && 0 <= pc < columns + 2 && g.is_border(
                    pr,
                    pc,
                ) implies #[trigger] g.back_at(pr, pc) == 0 by {
                lemma_pos_bound(rows + 2, columns + 2, pr, pc);
            }
        }
        Ok(g)
    }

    /// The next value of the cell at line `row`, column `column` of the
    /// bordered grid, by the classical rule.
    fn next_value(&self, row: usize, column: usize) -> (r: u8)
        requires
            self.wf(),
            1 <= row <= self.rows,
            1 <= column <= self.columns,
        ensures
            r == rule(self.raw(row as int, column as int), neighbours(self.padded(), row as int, column - 1)),
    {
        proof {
            self.lemma_dims();
            let (pr, pc) = (row as int, column as int);
            self.lemma_raw_val(pr - 1, pc - 1);
            self.lemma_raw_val(pr - 1, pc);
            self.lemma_raw_val(pr - 1, pc + 1);
            self.lemma_raw_val(pr, pc - 1);
            self.lemma_raw_val(pr, pc + 1);
            self.lemma_raw_val(pr + 1, pc - 1);
            self.lemma_raw_val(pr + 1, pc);
            self.lemma_raw_val(pr + 1, pc + 1);
        }
        let sum: u32 = self.front[self.get_index(row - 1, column - 1)] as u32
            + self.front[self.get_index(row - 1, column)] as u32
            + self.front[self.get_index(row - 1, column + 1)] as u32
            + self.front[self.get_index(row, column - 1)] as u32
            + self.front[self.get_index(row, column + 1)] as u32
            + self.front[self.get_index(row + 1, column - 1)] as u32
            + self.front[self.get_index(row + 1, column)] as u32
            + self.front[self.get_index(row + 1, column + 1)] as u32;
        let cell = self.front[self.get_index(row, column)];
        if sum == 3 {
            1
        } else if cell == 1 && sum == 2 {
            1
        } else {
            0
        }
    }

    /// One generation: the spare buffer gets the next value of every cell,
    /// the border lines just read are cleared, and the buffers trade roles.
    fn next(&mut self)
        requires
            old(self).wf(),
        ensures
            final(self).wf(),
            final(self)@.rows == old(self)@.rows,
            final(self)@.columns == old(self)@.columns,
            final(self)@.board() == step_inner(old(self)@.lines),
            final(self)@.clear_halo(),
    {
        let ghost start = *self;
        let rows = self.rows;
        let columns = self.columns;
        proof {
            self.lemma_dims();
        }
        let mut row: usize = 1;
        while row <= rows
            invariant
                1 <= row <= rows + 1,
                rows == self.rows,
                columns == self.columns,
                rows == start.rows,
                columns == start.columns,
                start.wf(),
                rows + 2 <= usize::MAX,
                columns + 2 <= usize::MAX,
                self.front == start.front,
                self.wf(),
                forall|pr: int, pc: int|
                    1 <= pr < row && 1 <= pc <= columns ==> #[trigger] self.back_at(pr, pc) == rule(
                        start.raw(pr, pc),
                        neighbours(start.padded(), pr, pc - 1),
                    ),
            decreases rows + 1 - row,
        {
            let mut col: usize = 1;
            while col <= columns
                invariant
                    1 <= row <= rows,
                    1 <= col <= columns + 1,
                    rows == self.rows,
                    columns == self.columns,
                    rows == start.rows,
                    columns == start.columns,
                    start.wf(),
                    rows + 2 <= usize::MAX,
                    columns + 2 <= usize::MAX,
                    self.front == start.front,
                    self.wf(),
                    forall|pr: int, pc: int|
                        1 <= pr <= row && 1 <= pc <= columns && (pr < row || pc < col)
                            ==> #[trigger] self.back_at(pr, pc) == rule(
                            start.raw(pr, pc),
                            neighbours(start.padded(), pr, pc - 1),
                        ),
                decreases columns + 1 - col,
            {
                let v = self.next_value(row, col);
                let i = self.get_index(row, col);
                let ghost before = *self;
                self.back[i] = v;
                proof {
                    lemma_cell_at_update(
                        before.back@,
                        rows + 2,
                        columns + 2,
                        row as int,
                        col as int,
                        v,
                    );
                    assert forall|pr: int, pc: int|
                        0 <= pr < rows + 2 && 0 <= pc < columns + 2 implies #[trigger] self.back_at(
                        pr,
                        pc,
                    ) == if pr == row && pc == col {
                        v
                    } else {
                        before.back_at(pr, pc)
                    } by {
                        assert(self.back_at(pr, pc) == cell_at(
                            before.back@.update(row * (columns + 2) + col, v),
                            columns + 2,
                            pr,
                            pc,
                        ));
                    }
                    assert(self.front == before.front);
                    assert forall|pr: int, pc: int| #[trigger] self.raw(pr, pc) == before.raw(pr, pc) by {
                    }
                    assert forall|pr: int, pc: int|
                        0 <= pr < rows + 2 && 0 <= pc < columns + 2 && self.is_border(
                            pr,
                            pc,
                        ) implies #[trigger] self.back_at(pr, pc) == 0 by {
                        assert(before.back_at(pr, pc) == 0);
                    }
                    assert(self.back@.len() == before.back@.len());
                }
                col += 1;
            }
            row += 1;
        }
        let mut col: usize = 1;
        while col <= columns
            invariant
                1 <= col <= columns + 1,
                rows == self.rows,
                columns == self.columns,
                rows == start.rows,
                columns == start.columns,
                start.wf(),
                rows + 2 <= usize::MAX,
                columns + 2 <= usize::MAX,
                self.wf(),
                forall|pr: int, pc: int|
                    1 <= pr <= rows && 1 <= pc <= columns ==> #[trigger] self.back_at(pr, pc) == rule(
                        start.raw(pr, pc),
                        neighbours(start.padded(), pr, pc - 1),
                    ),
                forall|pc: int| 1 <= pc < col ==> #[trigger] self.raw(0, pc) == 0,
                forall|pc: int| 1 <= pc < col ==> #[trigger] self.raw(rows + 1, pc) == 0,
            decreases columns + 1 - col,
        {
            let top = self.get_index(0, col);
            let bottom = self.get_index(rows + 1, col);
            let ghost before = *self;
            self.front[top] = 0;
            proof {
                lemma_cell_at_update(before.front@, rows + 2, columns + 2, 0, col as int, 0);
                assert forall|pr: int, pc: int|
                    0 <= pr < rows + 2 && 0 <= pc < columns + 2 implies #[trigger] self.raw(pr, pc)
                    == if pr == 0 && pc == col {
                    0
                } else {
                    before.raw(pr, pc)
                } by {
                    assert(self.raw(pr, pc) == cell_at(
                        before.front@.update(0 * (columns + 2) + col, 0),
                        columns + 2,
                        pr,
                        pc,
                    ));
                }
            }
            proof {
                assert forall|pr: int, pc: int| #[trigger] self.back_at(pr, pc) == before.back_at(pr, pc) by {
                }
            }
            let ghost middle = *self;
            self.front[bottom] = 0;
            proof {
                lemma_cell_at_update(
                    middle.front@,
                    rows + 2,
                    columns + 2,
                    rows + 1,
                    col as int,
                    0,
                );
                assert forall|pr: int, pc: int|
                    0 <= pr < rows + 2 && 0 <= pc < columns + 2 implies #[trigger] self.raw(pr, pc)
                    == if pr == rows + 1 && pc == col {
                    0
                } else {
                    middle.raw(pr, pc)
                } by {
                    assert(self.raw(pr, pc) == cell_at(
                        middle.front@.update((rows + 1) * (columns + 2) + col, 0),
                        columns + 2,
                        pr,
                        pc,
                    ));
                }
                assert forall|pr: int, pc: int| #[trigger] self.back_at(pr, pc) == middle.back_at(pr, pc) by {
                }
            }
            col += 1;
        }
        let ghost cleared = *self;
        std::mem::swap(&mut self.front, &mut self.back);
        proof {
            assert forall|pr: int, pc: int|
                0 <= pr < rows + 2 && 0 <= pc < columns + 2 && self.is_border(
                    pr,
                    pc,
                ) implies #[trigger] self.back_at(pr, pc) == 0 by {
                assert(self.back_at(pr, pc) == cleared.raw(pr, pc));
                if pc == 0 {
                    assert(cleared.raw(pr, 0) == 0);
                } else if pc == columns + 1 {
                    assert(cleared.raw(pr, columns + 1) == 0);
                } else if pr == 0 {
                    assert(cleared.raw(0, pc) == 0);
                } else {
                    assert(cleared.raw(rows + 1, pc) == 0);
                }
            }
            assert forall|pr: int| 0 <= pr < rows + 2 implies #[trigger] self.raw(pr, 0) == 0 by {
                assert(self.raw(pr, 0) == cleared.back_at(pr, 0));
            }
            assert forall|pr: int| 0 <= pr < rows + 2 implies #[trigger] self.raw(
                pr,
                columns + 1,
            ) == 0 by {
                assert(self.raw(pr, columns + 1) == cleared.back_at(pr, columns + 1));
            }
            assert forall|r: int, c: int|
                0 <= r < rows && 0 <= c < columns implies #[trigger] self@.board()[r][c]
                == step_inner(start@.lines)[r][c] by {
                assert(self.raw(r + 1, c + 1) == cleared.back_at(r + 1, c + 1));
                assert(start@.lines[r + 1][c] == start.raw(r + 1, c + 1));
            }
            assert forall|c: int| 0 <= c < columns implies #[trigger] self@.top_halo()[c] == 0 by {
                assert(self.raw(0, c + 1) == cleared.back_at(0, c + 1));
            }
            assert forall|c: int| 0 <= c < columns implies #[trigger] self@.bottom_halo()[c]
                == 0 by {
                assert(self.raw(rows + 1, c + 1) == cleared.back_at(rows + 1, c + 1));
            }
        }
        assert(self@.board() =~~= step_inner(start@.lines));
        assert(self@.top_halo() =~= zeros(columns as nat));
        assert(self@.bottom_halo() =~= zeros(columns as nat));
    }

    /// Advances the grid by `steps` generations; zero steps change nothing.
    /// The first generation sees the border lines as they stand; each later
    /// one sees a dead border.
    pub fn progress(&mut self, steps: usize)
        requires
            old(self).wf(),
        ensures
            final(self).wf(),
            final(self)@.rows == old(self)@.rows,
            final(self)@.columns == old(self)@.columns,
            steps == 0 ==> *final(self) == *old(self),
            steps > 0 ==> final(self)@.clear_halo() && final(self)@.board() == life(
                step_inner(old(self)@.lines),
                old(self)@.columns,
                (steps - 1) as nat,
            ),
            old(self)@.clear_halo() ==> final(self)@.clear_halo(),
            old(self)@.clear_halo() ==> final(self)@.board() == life(
                old(self)@.board(),
                old(self)@.columns,
                steps as nat,
            ),
    {
        let ghost start = *self;
        let ghost w = self@.columns;
        let mut i: usize = 0;
        while i < steps
            invariant
                0 <= i <= steps,
                self.wf(),
                self@.rows == start@.rows,
                self@.columns == w,
                w == start@.columns,
                i == 0 ==> *self == start,
                i > 0 ==> self@.clear_halo() && self@.board() == life(
                    step_inner(start@.lines),
                    w,
                    (i - 1) as nat,
                ),
            decreases steps - i,
        {
            let ghost before = *self;
            self.next();
            proof {
                if i > 0 {
                    before.lemma_lines();
                }
            }
            i += 1;
        }
        proof {
            if start@.clear_halo() {
                start.lemma_lines();
                if steps > 0 {
                    lemma_life_shift(start@.board(), w, (steps - 1) as nat);
                }
            }
        }
    }

    /// A copy of line `line` of the bordered grid (0 is the border line
    /// above the first row), its two border cells included.
    fn read_line(&self, line: usize) -> (r: Vec<u8>)
        requires
            self.wf(),
            line < self@.rows + 2,
        ensures
            r@ == seq![0u8] + self@.lines[line as int] + seq![0u8],
    {
        let columns = self.columns;
        proof {
            self.lemma_dims();
        }
        let mut out: Vec<u8> = Vec::new();
        let mut c: usize = 0;
        while c < columns + 2
            invariant
                0 <= c <= columns + 2,
                columns == self.columns,
                columns + 2 <= usize::MAX,
                line < self.rows + 2,
                self.wf(),
                out@.len() == c,
                forall|k: int| 0 <= k < c ==> #[trigger] out@[k] == self.raw(line as int, k),
            decreases columns + 2 - c,
        {
            let i = self.get_index(line, c);
            out.push(self.front[i]);
            c += 1;
        }
        proof {
            assert(self.raw(line as int, 0) == 0);
            assert(self.raw(line as int, columns + 1) == 0);
        }
        assert(out@ =~= seq![0u8] + self@.lines[line as int] + seq![0u8]);
        out
    }

    /// Overwrites the cells of line `line` of the bordered grid with the
    /// middle of `data`; the two border cells of the line stay dead.
    fn set_line(&mut self, line: usize, data: &[u8])
        requires
            old(self).wf(),
            line < old(self)@.rows + 2,
            data@.len() == old(self)@.columns + 2,
        ensures
            final(self).wf(),
            final(self)@.rows == old(self)@.rows,
            final(self)@.columns == old(self)@.columns,
            final(self)@.lines == old(self)@.lines.update(
                line as int,
                data@.subrange(1, data@.len() - 1),
            ),
    {
        let ghost start = *self;
        let rows = self.rows;
        let columns = self.columns;
        proof {
            self.lemma_dims();
        }
        let mut c: usize = 1;
        while c <= columns
            invariant
                1 <= c <= columns + 1,
                rows == self.rows,
                columns == self.columns,
                rows == start.rows,
                columns == start.columns,
                columns + 2 <= usize::MAX,
                line < rows + 2,
                data@.len() == columns + 2,
                self.wf(),
                self.back == start.back,
                forall|pr: int, pc: int|
                    0 <= pr < rows + 2 && 0 <= pc < columns + 2 ==> #[trigger] self.raw(pr, pc)
                        == if pr == line && 1 <= pc < c {
                        data@[pc]
                    } else {
                        start.raw(pr, pc)
                    },
            decreases columns + 1 - c,
        {
            let i = self.get_index(line, c);
            let ghost before = *self;
            self.front[i] = data[c];
            proof {
                lemma_cell_at_update(before.front@, rows + 2, columns + 2, line as int, c as int, data@[c as int]);
                assert forall|pr: int, pc: int|
                    0 <= pr < rows + 2 && 0 <= pc < columns + 2 implies #[trigger] self.raw(pr, pc)
                    == if pr == line && pc == c {
                    data@[c as int]
                } else {
                    before.raw(pr, pc)
                } by {
                    assert(self.raw(pr, pc) == cell_at(
                        before.front@.update(line * (columns + 2) + c, data@[c as int]),
                        columns + 2,
                        pr,
                        pc,
                    ));
                }
                assert forall|pr: int, pc: int| #[trigger] self.back_at(pr, pc) == before.back_at(pr, pc) by {
                }
            }
            c += 1;
        }
        proof {
            assert forall|pr: int, c: int|
                0 <= pr < rows + 2 && 0 <= c < columns implies #[trigger] self@.lines[pr][c]
                == start@.lines.update(line as int, data@.subrange(1, data@.len() - 1))[pr][c] by {
                assert(self@.lines[pr][c] == self.raw(pr, c + 1));
                assert(start@.lines[pr][c] == start.raw(pr, c + 1));
            }
        }
        assert(self@.lines =~~= start@.lines.update(line as int, data@.subrange(1, data@.len() - 1)));
    }

    /// The number of rows.
    pub fn rows(&self) -> (r: usize)
        ensures
            r == self@.rows,
    {
        self.rows
    }

    /// The number of columns.
    pub fn columns(&self) -> (r: usize)
        ensures
            r == self@.columns,
    {
        self.columns
    }

    /// A copy of the first row, with a dead border cell at each end.
    pub fn read_top(&self) -> (r: Vec<u8>)
        requires
            self.wf(),
        ensures
            r@ == seq![0u8] + self@.board()[0] + seq![0u8],
    {
        self.read_line(1)
    }

    /// A copy of the last row, with a dead border cell at each end.
    pub fn read_bottom(&self) -> (r: Vec<u8>)
        requires
            self.wf(),
        ensures
            r@ == seq![0u8] + self@.board()[self@.rows - 1] + seq![0u8],
    {
        self.read_line(self.rows)
    }

    /// Stores `line`, a row of the grid's width with its border, as the
    /// border line above the first row. Its two end cells are not stored.
    pub fn set_top(&mut self, line: &[u8]) -> (r: Result<(), GridError>)
        requires
            old(self).wf(),
        ensures
            final(self).wf(),
            line@.len() != old(self)@.columns + 2 ==> r == Err::<(), GridError>(
                GridError::InvalidRowLength,
            ) && *final(self) == *old(self),
            line@.len() == old(self)@.columns + 2 ==> r == Ok::<(), GridError>(()) && final(self)@ == (GridView {
                lines: old(self)@.lines.update(0, line@.subrange(1, line@.len() - 1)),
                ..old(self)@
            }),
    {
        proof {
            self.lemma_dims();
        }
        if line.len() != self.columns + 2 {
            return Err(GridError::InvalidRowLength);
        }
        self.set_line(0, line);
        Ok(())
    }

    /// Stores `line`, a row of the grid's width with its border, as the
    /// border line below the last row. Its two end cells are not stored.
    pub fn set_bottom(&mut self, line: &[u8]) -> (r: Result<(), GridError>)
        requires
            old(self).wf(),
        ensures
            final(self).wf(),
            line@.len() != old(self)@.columns + 2 ==> r == Err::<(), GridError>(
                GridError::InvalidRowLength,
            ) && *final(self) == *old(self),
            line@.len() == old(self)@.columns + 2 ==> r == Ok::<(), GridError>(()) && final(self)@ == (GridView {
                lines: old(self)@.lines.update(
                    old(self)@.rows + 1 as int,
                    line@.subrange(1, line@.len() - 1),
                ),
                ..old(self)@
            }),
    {
        proof {
            self.lemma_dims();
        }
        if line.len() != self.columns + 2 {
            return Err(GridError::InvalidRowLength);
        }
        let line_number = self.rows + 1;
        self.set_line(line_number, line);
        Ok(())
    }

    /// Cuts the grid into `pieces` bands of consecutive rows, band `i`
    /// holding rows `rows * i / pieces` up to `rows * (i + 1) / pieces`.
    /// Each band is a grid of its own with a dead border. Every band holds
    /// at least one row: more bands than rows are refused.
    pub fn split(&self, pieces: usize) -> (r: Result<Vec<GameState>, GridError>)
        requires
            self.wf(),
            pieces >= 1,
        ensures
            pieces > self@.rows ==> r == Err::<Vec<GameState>, GridError>(
                GridError::InsufficientRows,
            ),
            pieces <= self@.rows ==> r is Ok,
            r matches Ok(parts) ==> {
                &&& parts@.len() == pieces
                &&& forall|i: int|
                    0 <= i < pieces ==> {
                        &&& (#[trigger] parts@[i]).wf()
                        &&& parts@[i]@.rows == band_rows(self@.rows, pieces as nat, i)
                        &&& parts@[i]@.columns == self@.columns
                        &&& parts@[i]@.board() == bands(self@.board(), pieces as nat)[i]
                        &&& parts@[i]@.clear_halo()
                    }
            },
    {
        if pieces > self.rows {
            return Err(GridError::InsufficientRows);
        }
        let rows = self.rows;
        let columns = self.columns;
        let mut parts: Vec<GameState> = Vec::new();
        let mut i: usize = 0;
        while i < pieces
            invariant
                0 <= i <= pieces,
                1 <= pieces <= rows,
                rows == self@.rows,
                columns == self@.columns,
                self.wf(),
                parts@.len() == i,
                forall|j: int|
                    0 <= j < i ==> {
                        &&& (#[trigger] parts@[j]).wf()
                        &&& parts@[j]@.rows == band_rows(rows as nat, pieces as nat, j)
                        &&& parts@[j]@.columns == columns
                        &&& parts@[j]@.board() == bands(self@.board(), pieces as nat)[j]
                        &&& parts@[j]@.clear_halo()
                    },
            decreases pieces - i,
        {
            let lo = band_bound(rows, pieces, i);
            let hi = band_bound(rows, pieces, i + 1);
            proof {
                lemma_band_start_bounds(rows as nat, pieces as nat, i as int, i as int + 1);
                lemma_band_start_strict(rows as nat, pieces as nat, i as int, i as int + 1);
                let h = hi - lo;
                assert((h + 2) * (columns + 2) <= (rows + 2) * (columns + 2)) by (nonlinear_arith)
                    requires
                        h <= rows,
                ;
                self.lemma_dims();
            }
            let part = self.band(lo, hi);
            parts.push(part);
            i += 1;
        }
        Ok(parts)
    }

    /// A grid holding rows `lo` up to `hi` of this one, with a dead border.
    fn band(&self, lo: usize, hi: usize) -> (r: GameState)
        requires
            self.wf(),
            lo < hi <= self@.rows,
        ensures
            r.wf(),
            r@.rows == hi - lo,
            r@.columns == self@.columns,
            r@.board() == self@.board().subrange(lo as int, hi as int),
            r@.clear_halo(),
    {
        let columns = self.columns;
        let h = hi - lo;
        proof {
            assert((h + 2) * (columns + 2) <= (self.rows + 2) * (columns + 2)) by (nonlinear_arith)
                requires
                    h <= self.rows,
            ;
        }
        let mut part = match GameState::new(h, columns) {
            Ok(g) => g,
            Err(_) => vstd::pervasive::unreached(),
        };
        let mut k: usize = 0;
        while k < h
            invariant
                0 <= k <= h,
                h == hi - lo,
                lo < hi <= self@.rows,
                self.wf(),
                part.wf(),
                part@.rows == h,
                part@.columns == columns,
                columns == self@.columns,
                part@.lines.len() == h + 2,
                part@.lines[0] == zeros(columns as nat),
                part@.lines[h + 1] == zeros(columns as nat),
                forall|j: int| 0 <= j < k ==> #[trigger] part@.lines[j + 1] == self@.board()[lo + j],
            decreases h - k,
        {
            let line = self.read_line(lo + k + 1);
            part.set_line(k + 1, line.as_slice());
            assert(line@.subrange(1, line@.len() - 1) =~= self@.lines[lo + k + 1]);
            k += 1;
        }
        assert(part@.board() =~= self@.board().subrange(lo as int, hi as int));
        part
    }

    /// Stacks the rows of `parts`, in order, into one grid with a dead border.
    pub fn from_parts(parts: &Vec<GameState>) -> (r: Result<GameState, GridError>)
        requires
            forall|i: int| 0 <= i < parts@.len() ==> (#[trigger] parts@[i]).wf(),
        ensures
            parts@.len() == 0 <==> r == Err::<GameState, GridError>(GridError::EmptyPartList),
            parts@.len() > 0 && !same_columns(parts@) ==> r == Err::<GameState, GridError>(
                GridError::ColumnMismatch,
            ),
            parts@.len() > 0 && same_columns(parts@) && !fits(
                boards(parts@).flatten().len() as int,
                parts@[0]@.columns as int,
            ) ==> r == Err::<GameState, GridError>(GridError::InvalidDimensions),
            parts@.len() > 0 && same_columns(parts@) && fits(
                boards(parts@).flatten().len() as int,
                parts@[0]@.columns as int,
            ) ==> r is Ok,
            r matches Ok(g) ==> {
                &&& g.wf()
                &&& g@.rows == boards(parts@).flatten().len()
                &&& g@.columns == parts@[0]@.columns
                &&& g@.board() == boards(parts@).flatten()
                &&& g@.clear_halo()
            },
    {
        if parts.len() == 0 {
            return Err(GridError::EmptyPartList);
        }
        let columns = parts[0].columns;
        let mut k: usize = 0;
        while k < parts.len()
            invariant
                0 <= k <= parts@.len(),
                columns == parts@[0]@.columns,
                forall|i: int| 0 <= i < k ==> #[trigger] parts@[i]@.columns == columns,
            decreases parts@.len() - k,
        {
            if parts[k].columns != columns {
                assert(!same_columns(parts@)) by {
                    assert(parts@[k as int]@.columns != parts@[0]@.columns);
                }
                return Err(GridError::ColumnMismatch);
            }
            k += 1;
        }
        assert(same_columns(parts@));
        proof {
            parts@[0].lemma_shape();
        }
        let ghost bs = boards(parts@);
        let mut total: usize = 0;
        k = 0;
        while k < parts.len()
            invariant
                0 <= k <= parts@.len(),
                bs == boards(parts@),
                forall|i: int| 0 <= i < parts@.len() ==> (#[trigger] parts@[i]).wf(),
                total == bs.take(k as int).flatten().len(),
                total <= usize::MAX - 2,
                columns >= 1,
                same_columns(parts@),
                columns == parts@[0]@.columns,
            decreases parts@.len() - k,
        {
            proof {
                assert(bs.take(k + 1) == bs.take(k as int).push(bs[k as int]));
                bs.take(k as int).lemma_flatten_push(bs[k as int]);
                parts@[k as int].lemma_shape();
            }
            if parts[k].rows > usize::MAX - 2 - total {
                proof {
                    lemma_flatten_prefix_len(bs, k + 1);
                    let t = bs.flatten().len() as int;
                    assert((t + 2) * (columns + 2) > usize::MAX) by (nonlinear_arith)
                        requires
                            t + 2 > usize::MAX,
                            columns >= 1,
                    ;
                }
                return Err(GridError::InvalidDimensions);
            }
            total = total + parts[k].rows;
            k += 1;
        }
        assert(bs.take(parts@.len() as int) == bs);
        let mut result = match GameState::new(total, columns) {
            Ok(g) => g,
            Err(e) => {
                return Err(e);
            },
        };
        let mut row: usize = 0;
        k = 0;
        while k < parts.len()
            invariant
                0 <= k <= parts@.len(),
                bs == boards(parts@),
                forall|i: int| 0 <= i < parts@.len() ==> (#[trigger] parts@[i]).wf(),
                forall|i: int| 0 <= i < parts@.len() ==> #[trigger] parts@[i]@.columns == columns,
                total == bs.flatten().len(),
                row == bs.take(k as int).flatten().len(),
                row <= total,
                result.wf(),
                result@.rows == total,
                result@.columns == columns,
                result@.lines.len() == total + 2,
                result@.lines[0] == zeros(columns as nat),
                result@.lines[total + 1] == zeros(columns as nat),
                forall|t: int| 0 <= t < row ==> #[trigger] result@.lines[t + 1] == bs.take(k as int).flatten()[t],
            decreases parts@.len() - k,
        {
            let part = &parts[k];
            let ghost prefix = bs.take(k as int).flatten();
            proof {
                part.lemma_shape();
                assert(bs.take(k + 1) == bs.take(k as int).push(bs[k as int]));
                bs.take(k as int).lemma_flatten_push(bs[k as int]);
                lemma_flatten_prefix_len(bs, k + 1);
            }
            let mut j: usize = 0;
            while j < part.rows
                invariant
                    0 <= j <= part@.rows,
                    part.wf(),
                    part@.columns == columns,
                    part@.board() == bs[k as int],
                    prefix == bs.take(k as int).flatten(),
                    bs.take(k + 1).flatten() == prefix + bs[k as int],
                    bs.take(k + 1).flatten().len() <= total,
                    row == prefix.len() + j,
                    result.wf(),
                    result@.rows == total,
                    result@.columns == columns,
                    result@.lines.len() == total + 2,
                    result@.lines[0] == zeros(columns as nat),
                    result@.lines[total + 1] == zeros(columns as nat),
                    forall|t: int| 0 <= t < row ==> #[trigger] result@.lines[t + 1] == (prefix + bs[k as int])[t],
                decreases part@.rows - j,
            {
                let line = part.read_line(j + 1);
                result.set_line(row + 1, line.as_slice());
                assert(line@.subrange(1, line@.len() - 1) =~= part@.lines[j + 1]);
                row += 1;
                j += 1;
            }
            k += 1;
        }
        assert(bs.take(parts@.len() as int) == bs);
        assert(result@.board() =~= bs.flatten());
        Ok(result)
    }

    /// Sets the cell at line `row`, column `column` of the bordered grid.
    fn set_cell(&mut self, row: usize, column: usize, value: u8)
        requires
            old(self).wf(),
            1 <= row <= old(self)@.rows,
            1 <= column <= old(self)@.columns,
        ensures
            final(self).wf(),
            final(self)@.rows == old(self)@.rows,
            final(self)@.columns == old(self)@.columns,
            final(self)@.lines == old(self)@.lines.update(
                row as int,
                old(self)@.lines[row as int].update(column - 1, value),
            ),
    {
        let ghost before = *self;
        let i = self.get_index(row, column);
        self.front[i] = value;
        proof {
            let w = self.columns + 2;
            lemma_cell_at_update(before.front@, self.rows + 2, w, row as int, column as int, value);
            assert forall|pr: int, pc: int|
                0 <= pr < self.rows + 2 && 0 <= pc < w implies #[trigger] self.raw(pr, pc) == if pr
                == row && pc == column {
                value
            } else {
                before.raw(pr, pc)
            } by {
                assert(self.raw(pr, pc) == cell_at(
                    before.front@.update(row * w + column, value),
                    w,
                    pr,
                    pc,
                ));
            }
            assert forall|pr: int, pc: int| #[trigger] self.back_at(pr, pc) == before.back_at(pr, pc) by {
            }
            assert forall|pr: int, c: int|
                0 <= pr < self.rows + 2 && 0 <= c < self.columns implies #[trigger] self@.lines[pr][c]
                == before@.lines.update(
                row as int,
                before@.lines[row as int].update(column - 1, value),
            )[pr][c] by {
                assert(self@.lines[pr][c] == self.raw(pr, c + 1));
                assert(before@.lines[pr][c] == before.raw(pr, c + 1));
            }
        }
        assert(self@.lines =~~= before@.lines.update(
            row as int,
            before@.lines[row as int].update(column - 1, value),
        ));
    }

    /// Marks alive the cell at `(start_row + dr, start_column + dc)` for
    /// every offset `(dr, dc)` of `pattern`. Fails, changing nothing, when
    /// one of those cells lies outside the grid.
    pub fn add_pattern(&mut self, pattern: &Pattern, start_row: usize, start_column: usize) -> (r:
        Result<(), GridError>)
        requires
            old(self).wf(),
        ensures
            final(self).wf(),
            !placeable(
                pattern@.cells,
                start_row as int,
                start_column as int,
                old(self)@.rows as int,
                old(self)@.columns as int,
            ) ==> r == Err::<(), GridError>(GridError::InvalidSeedPosition) && *final(self) == *old(
                self,
            ),
            placeable(
                pattern@.cells,
                start_row as int,
                start_column as int,
                old(self)@.rows as int,
                old(self)@.columns as int,
            ) ==> r == Ok::<(), GridError>(()) && final(self)@ == (GridView {
                lines: surround(
                    seeded(old(self)@.board(), pattern@.cells, start_row as int, start_column as int),
                    old(self)@.top_halo(),
                    old(self)@.bottom_halo(),
                ),
                ..old(self)@
            }),
    {
        let cells = pattern.iter();
        let n = cells.len();
        let rows = self.rows;
        let columns = self.columns;
        let mut k: usize = 0;
        while k < n
            invariant
                0 <= k <= n,
                n == cells@.len(),
                cells@ == pattern@.cells,
                rows == self@.rows,
                columns == self@.columns,
                self.wf(),
                forall|j: int|
                    0 <= j < k ==> start_row + (#[trigger] cells@[j]).0 < rows && start_column
                        + cells@[j].1 < columns,
            decreases n - k,
        {
            let (dr, dc) = cells[k];
            if dr >= rows || start_row >= rows - dr || dc >= columns || start_column >= columns
                - dc {
                assert(!placeable(
                    pattern@.cells,
                    start_row as int,
                    start_column as int,
                    rows as int,
                    columns as int,
                )) by {
                    assert(cells@[k as int] == (dr, dc));
                }
                return Err(GridError::InvalidSeedPosition);
            }
            k += 1;
        }
        let ghost start = *self;
        proof {
            start.lemma_lines();
            start.lemma_shape();
            assert(seeded(
                start@.board(),
                cells@.take(0),
                start_row as int,
                start_column as int,
            ) =~~= start@.board());
        }
        k = 0;
        while k < n
            invariant
                0 <= k <= n,
                n == cells@.len(),
                cells@ == pattern@.cells,
                rows == self@.rows,
                columns == self@.columns,
                rows == start@.rows,
                columns == start@.columns,
                start.wf(),
                self.wf(),
                forall|j: int|
                    0 <= j < n ==> start_row + (#[trigger] cells@[j]).0 < rows && start_column
                        + cells@[j].1 < columns,
                self@.lines == surround(
                    seeded(start@.board(), cells@.take(k as int), start_row as int, start_column as int),
                    start@.top_halo(),
                    start@.bottom_halo(),
                ),
            decreases n - k,
        {
            let (dr, dc) = cells[k];
            assert(cells@[k as int] == (dr, dc));
            let ghost before = self@;
            self.set_cell(start_row + dr + 1, start_column + dc + 1, 1);
            proof {
                let b = start@.board();
                let old_cells = cells@.take(k as int);
                let new_cells = cells@.take(k + 1);
                let r0 = start_row as int;
                let c0 = start_column as int;
                start.lemma_shape();
                assert forall|r: int, c: int|
                    0 <= r < rows && 0 <= c < columns implies #[trigger] seeded(b, new_cells, r0, c0)[r][c]
                    == if r == r0 + dr && c == c0 + dc {
                    1u8
                } else {
                    seeded(b, old_cells, r0, c0)[r][c]
                } by {
                    if r == r0 + dr && c == c0 + dc {
                        assert(new_cells[k as int] == (dr, dc));
                    } else {
                        if exists|j: int|
                            0 <= j < new_cells.len() && r0 + new_cells[j].0 == r && c0 + new_cells[j].1 == c {
                            let j = choose|j: int|
                                0 <= j < new_cells.len() && r0 + new_cells[j].0 == r && c0 + new_cells[j].1
                                    == c;
                            assert(old_cells[j] == new_cells[j]);
                        }
                        if exists|j: int|
                            0 <= j < old_cells.len() && r0 + old_cells[j].0 == r && c0 + old_cells[j].1 == c {
                            let j = choose|j: int|
                                0 <= j < old_cells.len() && r0 + old_cells[j].0 == r && c0 + old_cells[j].1
                                    == c;
                            assert(old_cells[j] == new_cells[j]);
                        }
                    }
                }
                assert(self@.lines =~~= surround(
                    seeded(b, new_cells, r0, c0),
                    start@.top_halo(),
                    start@.bottom_halo(),
                ));
            }
            k += 1;
        }
        assert(cells@.take(n as int) == cells@);
        Ok(())
    }

    /// The live cells of the grid, as (row, column) pairs in row-major order.
    pub fn live_cells(&self) -> (r: Vec<(usize, usize)>)
        requires
            self.wf(),
        ensures
            forall|i: int|
                0 <= i < r@.len() ==> (#[trigger] r@[i]).0 < self@.rows && r@[i].1 < self@.columns
                    && self@.board()[r@[i].0 as int][r@[i].1 as int] == 1,
            forall|a: int, b: int|
                0 <= a < self@.rows && 0 <= b < self@.columns && #[trigger] self@.board()[a][b] == 1
                    ==> exists|i: int| 0 <= i < r@.len() && r@[i] == (a as usize, b as usize),
            forall|i: int, j: int|
                0 <= i < j < r@.len() ==> row_major_before(#[trigger] r@[i], #[trigger] r@[j]),
    {
        let rows = self.rows;
        let columns = self.columns;
        proof {
            self.lemma_dims();
        }
        let mut out: Vec<(usize, usize)> = Vec::new();
        let mut row: usize = 0;
        while row < rows
            invariant
                0 <= row <= rows,
                rows == self@.rows,
                columns == self@.columns,
                rows + 2 <= usize::MAX,
                self.wf(),
                forall|i: int|
                    0 <= i < out@.len() ==> (#[trigger] out@[i]).0 < row && out@[i].1 < columns
                        && self@.board()[out@[i].0 as int][out@[i].1 as int] == 1,
                forall|a: int, b: int|
                    0 <= a < row && 0 <= b < columns && #[trigger] self@.board()[a][b] == 1 ==> exists|
                        i: int,
                    | 0 <= i < out@.len() && out@[i] == (a as usize, b as usize),
                forall|i: int, j: int|
                    0 <= i < j < out@.len() ==> row_major_before(#[trigger] out@[i], #[trigger] out@[j]),
            decreases rows - row,
        {
            let mut col: usize = 0;
            while col < columns
                invariant
                    0 <= row < rows,
                    0 <= col <= columns,
                    rows == self@.rows,
                    columns == self@.columns,
                    rows + 2 <= usize::MAX,
                    self.wf(),
                    forall|i: int|
                        0 <= i < out@.len() ==> ((#[trigger] out@[i]).0 < row || (out@[i].0 == row
                            && out@[i].1 < col)) && out@[i].1 < columns && self@.board()[out@[i].0 as int][out@[i].1 as int]
                            == 1,
                    forall|a: int, b: int|
                        0 <= a <= row && 0 <= b < columns && (a < row || b < col)
                            && #[trigger] self@.board()[a][b] == 1 ==> exists|i: int|
                            0 <= i < out@.len() && out@[i] == (a as usize, b as usize),
                    forall|i: int, j: int|
                        0 <= i < j < out@.len() ==> row_major_before(
                            #[trigger] out@[i],
                            #[trigger] out@[j],
                        ),
                decreases columns - col,
            {
                let i = self.get_index(row + 1, col + 1);
                proof {
                    assert(self@.board()[row as int][col as int] == self.raw(row + 1, col + 1));
                }
                if self.front[i] == 1 {
                    let ghost prev = out@;
                    out.push((row, col));
                    proof {
                        assert forall|a: int, b: int|
                            0 <= a <= row && 0 <= b < columns && (a < row || b < col + 1)
                                && #[trigger] self@.board()[a][b] == 1 implies exists|i: int|
                            0 <= i < out@.len() && out@[i] == (a as usize, b as usize) by {
                            if a == row && b == col {
                                assert(out@[prev.len() as int] == (a as usize, b as usize));
                            } else {
                                let i = choose|i: int|
                                    0 <= i < prev.len() && prev[i] == (a as usize, b as usize);
                                assert(out@[i] == prev[i]);
                            }
                        }
                    }
                }
                col += 1;
            }
            row += 1;
        }
        out
    }

    /// Calls `print_funk(row, column)` once for each live cell, in row-major
    /// order.
    pub fn print<F: Fn(usize, usize)>(&self, print_funk: F)
        requires
            self.wf(),
            forall|row: usize, column: usize| print_funk.requires((row, column)),
    {
        let cells = self.live_cells();
        let mut i: usize = 0;
        while i < cells.len()
            invariant
                0 <= i <= cells@.len(),
                forall|row: usize, column: usize| print_funk.requires((row, column)),
            decreases cells@.len() - i,
        {
            let (row, column) = cells[i];
            print_funk(row, column);
            i += 1;
        }
    }
}

} // verus!
