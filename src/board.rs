//! The board: a fixed grid of cells, each empty or holding a colour, with the
//! collision test, locking and line clearing.
use vstd::prelude::*;
use vstd::set_lib::{lemma_int_range, lemma_set_disjoint_lens, lemma_set_empty_equivalency_len, lemma_set_subset_finite, set_int_range};
use vstd::string::StringSliceAdditionalSpecFns;

use crate::piece::{occupied, piece_wf, Piece, PieceView};
use crate::display::{lemma_one_byte_written, same_shape, Display, Pixel};
use crate::game::{BOARD_HEIGHT, HIDDEN_ROWS};
use crate::util::{Color, Point};

verus! {

/// The mathematical model of a board: its width and its rows, top row first.
pub struct BoardView {
    pub width: int,
    pub cells: Seq<Seq<Option<Color>>>,
}

/// A board whose rows all have its width, with dimensions that fit board
/// coordinates.
pub open spec fn board_wf(b: BoardView) -> bool {
    &&& 1 <= b.width <= i32::MAX
    &&& b.cells.len() <= i32::MAX
    &&& forall|y: int| 0 <= y < b.cells.len() ==> #[trigger] b.cells[y].len() == b.width
}

/// Whether `(x, y)` lies on the board.
pub open spec fn in_bounds(b: BoardView, x: int, y: int) -> bool {
    0 <= x < b.width && 0 <= y < b.cells.len()
}

/// Whether a piece cell may not stand at `(x, y)`: it is off the board, or the
/// board cell there is occupied.
pub open spec fn blocked(b: BoardView, x: int, y: int) -> bool {
    !in_bounds(b, x, y) || b.cells[y][x] is Some
}

/// Whether `p` with its top-left corner at `(ox, oy)` has an occupied cell on a
/// blocked board cell.
pub open spec fn collides(b: BoardView, p: PieceView, ox: int, oy: int) -> bool {
    exists|r: int, c: int| occupied(p, r, c) && blocked(b, ox + c, oy + r)
}

/// Whether the piece `p` at `(ox, oy)` covers the board cell `(x, y)`.
pub open spec fn covers(p: PieceView, ox: int, oy: int, x: int, y: int) -> bool {
    occupied(p, y - oy, x - ox)
}

/// `b` with the cells that `p` at `(ox, oy)` covers set to the piece's colour.
pub open spec fn locked(b: BoardView, p: PieceView, ox: int, oy: int) -> BoardView {
    BoardView {
        width: b.width,
        cells: Seq::new(
            b.cells.len(),
            |y: int|
                Seq::new(
                    b.width as nat,
                    |x: int|
                        if covers(p, ox, oy, x, y) {
                            Some(p.color)
                        } else {
                            b.cells[y][x]
                        },
                ),
        ),
    }
}

/// Whether no cell of `row` is empty.
pub open spec fn row_full(row: Seq<Option<Color>>) -> bool {
    forall|x: int| 0 <= x < row.len() ==> (#[trigger] row[x]) is Some
}

/// A row of `width` empty cells.
pub open spec fn empty_row(width: int) -> Seq<Option<Color>> {
    Seq::new(width as nat, |x: int| None)
}

/// The rows of `rows` that are not full, in their order.
pub open spec fn kept_rows(rows: Seq<Seq<Option<Color>>>) -> Seq<Seq<Option<Color>>>
    decreases rows.len(),
{
    if rows.len() == 0 {
        rows
    } else if row_full(rows[0]) {
        kept_rows(rows.drop_first())
    } else {
        seq![rows[0]] + kept_rows(rows.drop_first())
    }
}

/// The number of full rows of `b`.
pub open spec fn full_row_count(b: BoardView) -> int {
    b.cells.len() - kept_rows(b.cells).len()
}

/// `b` with its full rows removed, the rest moved down, and empty rows on top.
pub open spec fn cleared(b: BoardView) -> BoardView {
    BoardView {
        width: b.width,
        cells: Seq::new(full_row_count(b) as nat, |i: int| empty_row(b.width)) + kept_rows(b.cells),
    }
}

/// The occupied cells of `b`, as `(x, y)` pairs.
pub open spec fn filled_cells(b: BoardView) -> Set<(int, int)> {
    Set::new(|xy: (int, int)| in_bounds(b, xy.0, xy.1) && b.cells[xy.1][xy.0] is Some)
}

/// The board cells that `p` at `(ox, oy)` covers, as `(x, y)` pairs.
pub open spec fn piece_cells_at(p: PieceView, ox: int, oy: int) -> Set<(int, int)> {
    Set::new(|xy: (int, int)| covers(p, ox, oy, xy.0, xy.1))
}

/// The cells `(x, y)` with `x0 <= x < x1` and `y0 <= y < y1`.
pub open spec fn cell_box(x0: int, x1: int, y0: int, y1: int) -> Set<(int, int)> {
    Set::new(|xy: (int, int)| x0 <= xy.0 < x1 && y0 <= xy.1 < y1)
}

/// A box of cells is finite.
proof fn lemma_cell_box_finite(x0: int, x1: int, y0: int, y1: int)
    requires
        x0 <= x1,
    ensures
        cell_box(x0, x1, y0, y1).finite(),
    decreases y1 - y0,
{
    if y1 <= y0 {
        assert(cell_box(x0, x1, y0, y1) =~= Set::empty());
    } else {
        lemma_cell_box_finite(x0, x1, y0, y1 - 1);
        lemma_int_range(x0, x1);
        let row = set_int_range(x0, x1).map(|x: int| (x, y1 - 1));
        set_int_range(x0, x1).lemma_map_finite(|x: int| (x, y1 - 1));
        assert forall|xy: (int, int)| #[trigger] cell_box(x0, x1, y0, y1).contains(xy) == cell_box(
            x0,
            x1,
            y0,
            y1 - 1,
        ).union(row).contains(xy) by {
            if x0 <= xy.0 < x1 && xy.1 == y1 - 1 {
                assert(set_int_range(x0, x1).contains(xy.0));
            }
        }
        assert(cell_box(x0, x1, y0, y1) =~= cell_box(x0, x1, y0, y1 - 1).union(row));
    }
}

/// The occupied cells of a board, and the cells a piece covers, are finite
/// sets.
proof fn lemma_cell_sets_finite(b: BoardView, p: PieceView, ox: int, oy: int)
    requires
        board_wf(b),
        piece_wf(p),
    ensures
        filled_cells(b).finite(),
        piece_cells_at(p, ox, oy).finite(),
{
    lemma_cell_box_finite(0, b.width, 0, b.cells.len() as int);
    assert(filled_cells(b).subset_of(cell_box(0, b.width, 0, b.cells.len() as int)));
    lemma_set_subset_finite(cell_box(0, b.width, 0, b.cells.len() as int), filled_cells(b));
    let n = p.shape.len() as int;
    lemma_cell_box_finite(ox, ox + n, oy, oy + n);
    assert(piece_cells_at(p, ox, oy).subset_of(cell_box(ox, ox + n, oy, oy + n)));
    lemma_set_subset_finite(cell_box(ox, ox + n, oy, oy + n), piece_cells_at(p, ox, oy));
}

/// A piece whose occupied cells all lie on empty board cells does not collide.
pub proof fn lemma_fits_no_collision(b: BoardView, p: PieceView, ox: int, oy: int)
    requires
        forall|r: int, c: int|
            occupied(p, r, c) ==> in_bounds(b, ox + c, oy + r) && #[trigger] b.cells[oy + r][ox + c] is None,
    ensures
        !collides(b, p, ox, oy),
{
    assert forall|r: int, c: int| occupied(p, r, c) implies !blocked(b, ox + c, oy + r) by {
        assert(b.cells[oy + r][ox + c] is None);
    }
}

/// A piece with its occupied cell `(r, c)` on an edge of the board collides
/// once its origin moves one step past that edge.
pub proof fn lemma_step_out_collides(b: BoardView, p: PieceView, ox: int, oy: int, r: int, c: int)
    requires
        occupied(p, r, c),
    ensures
        ox + c == 0 ==> collides(b, p, ox - 1, oy),
        ox + c == b.width - 1 ==> collides(b, p, ox + 1, oy),
        oy + r == 0 ==> collides(b, p, ox, oy - 1),
        oy + r == b.cells.len() - 1 ==> collides(b, p, ox, oy + 1),
{
    assert(blocked(b, ox - 1 + c, oy + r) || ox + c != 0);
    assert(blocked(b, ox + 1 + c, oy + r) || ox + c != b.width - 1);
    assert(blocked(b, ox + c, oy - 1 + r) || oy + r != 0);
    assert(blocked(b, ox + c, oy + 1 + r) || oy + r != b.cells.len() - 1);
}

/// Locking a piece that fits adds exactly the cells it covers to the occupied
/// cells of the board: none of them was occupied before, and no other cell
/// changes.
pub proof fn lemma_lock_adds_piece_cells(b: BoardView, p: PieceView, ox: int, oy: int)
    requires
        board_wf(b),
        piece_wf(p),
        !collides(b, p, ox, oy),
    ensures
        filled_cells(locked(b, p, ox, oy)) == filled_cells(b).union(piece_cells_at(p, ox, oy)),
        filled_cells(b).disjoint(piece_cells_at(p, ox, oy)),
        filled_cells(locked(b, p, ox, oy)).len() == filled_cells(b).len() + piece_cells_at(p, ox, oy).len(),
        piece_cells_at(p, ox, oy).len() > 0,
{
    let after = locked(b, p, ox, oy);
    assert forall|xy: (int, int)| #[trigger] filled_cells(after).contains(xy) == filled_cells(b).union(
        piece_cells_at(p, ox, oy),
    ).contains(xy) by {
        if covers(p, ox, oy, xy.0, xy.1) {
            assert(!blocked(b, ox + (xy.0 - ox), oy + (xy.1 - oy)));
        }
    }
    assert(filled_cells(after) =~= filled_cells(b).union(piece_cells_at(p, ox, oy)));
    assert forall|xy: (int, int)| filled_cells(b).contains(xy) implies !#[trigger] piece_cells_at(p, ox, oy).contains(xy) by {
        if covers(p, ox, oy, xy.0, xy.1) {
            assert(!blocked(b, ox + (xy.0 - ox), oy + (xy.1 - oy)));
        }
    }
    lemma_cell_sets_finite(b, p, ox, oy);
    lemma_set_disjoint_lens(filled_cells(b), piece_cells_at(p, ox, oy));
    let (r, c) = choose|r: int, c: int| occupied(p, r, c);
    assert(piece_cells_at(p, ox, oy).contains((ox + c, oy + r)));
    lemma_set_empty_equivalency_len(piece_cells_at(p, ox, oy));
}

/// Rows with no full row among them are all kept.
proof fn lemma_kept_rows_none_full(rows: Seq<Seq<Option<Color>>>)
    requires
        forall|y: int| 0 <= y < rows.len() ==> !row_full(#[trigger] rows[y]),
    ensures
        kept_rows(rows) == rows,
    decreases rows.len(),
{
    if rows.len() > 0 {
        assert(!row_full(rows[0]));
        assert forall|y: int| 0 <= y < rows.drop_first().len() implies !row_full(#[trigger] rows.drop_first()[y]) by {
            assert(rows.drop_first()[y] == rows[y + 1]);
        }
        lemma_kept_rows_none_full(rows.drop_first());
        assert(seq![rows[0]] + rows.drop_first() =~= rows);
    }
}

/// Clearing a board with no full row changes nothing.
pub proof fn lemma_clear_without_full_rows(b: BoardView)
    requires
        forall|y: int| 0 <= y < b.cells.len() ==> !row_full(#[trigger] b.cells[y]),
    ensures
        cleared(b) == b,
        full_row_count(b) == 0,
{
    lemma_kept_rows_none_full(b.cells);
    assert(cleared(b).cells =~= b.cells);
}

/// The pixel at column `x`, row `y` of a display, once `b` is drawn on it, where
/// it was `p`: the side walls from row `HIDDEN_ROWS` on, the floor under the
/// last row, two columns of the cell's colour for each occupied cell, and
/// `p` elsewhere. Only the first `wall_rows` rows of wall, the first
/// `floor_cols` columns of floor, and the cells before row `cell_row`, column
/// `cell_col` in row-major order are drawn.
pub open spec fn board_pixel_upto(
    b: BoardView,
    p: Pixel,
    x: int,
    y: int,
    wall_rows: int,
    floor_cols: int,
    cell_row: int,
    cell_col: int,
) -> Pixel {
    let w = b.width;
    let h = b.cells.len() as int;
    if HIDDEN_ROWS as int <= y && y < h && y < wall_rows && (x == 0 || x == 2 * w + 1) {
        Pixel { c: 124, fg_color: Color::Red, bg_color: Color::Black }
    } else if y == h && 0 <= x < floor_cols {
        Pixel { c: 45, fg_color: Color::Red, bg_color: Color::Black }
    } else if 0 <= y < h && 1 <= x <= 2 * w && b.cells[y][(x - 1) / 2] is Some && (y < cell_row || (y
        == cell_row && (x - 1) / 2 < cell_col)) {
        Pixel { c: 32, fg_color: b.cells[y][(x - 1) / 2]->0, bg_color: b.cells[y][(x - 1) / 2]->0 }
    } else {
        p
    }
}

/// The display `d` with the parts of `b` that `board_pixel_upto` names drawn.
pub open spec fn board_drawn_upto(
    b: BoardView,
    d: Seq<Seq<Pixel>>,
    wall_rows: int,
    floor_cols: int,
    cell_row: int,
    cell_col: int,
) -> Seq<Seq<Pixel>> {
    Seq::new(
        d.len(),
        |y: int|
            Seq::new(
                d[y].len(),
                |x: int| board_pixel_upto(b, d[y][x], x, y, wall_rows, floor_cols, cell_row, cell_col),
            ),
    )
}

/// The display `d` with all of `b` drawn.
pub open spec fn board_drawn(b: BoardView, d: Seq<Seq<Pixel>>) -> Seq<Seq<Pixel>> {
    board_drawn_upto(b, d, b.cells.len() as int, 2 * b.width + 1, b.cells.len() as int, 0)
}

/// The fixed grid of cells.
pub struct Board {
    width: usize,
    cells: Vec<Vec<Option<Color>>>,
}

impl View for Board {
    type V = BoardView;

    closed spec fn view(&self) -> BoardView {
        BoardView {
            width: self.width as int,
            cells: Seq::new(self.cells@.len(), |y: int| self.cells@[y]@),
        }
    }
}

/// A fresh row of `width` empty cells.
fn new_empty_row(width: usize) -> (r: Vec<Option<Color>>)
    ensures
        r@ == empty_row(width as int),
{
    let mut row: Vec<Option<Color>> = Vec::with_capacity(width);
    let mut i: usize = 0;
    while i < width
        invariant
            i <= width,
            row@ == empty_row(i as int),
        decreases width - i,
    {
        row.push(None);
        i += 1;
        assert(row@ =~= empty_row(i as int));
    }
    row
}

impl Board {
    /// Whether the board's model is well formed.
    pub open spec fn wf(&self) -> bool {
        board_wf(self@)
    }

    /// An empty board of `width` columns and `height` rows.
    pub fn new(width: usize, height: usize) -> (r: Board)
        requires
            1 <= width <= i32::MAX,
            height <= i32::MAX,
        ensures
            r.wf(),
            r@.width == width,
            r@.cells == Seq::new(height as nat, |y: int| empty_row(width as int)),
    {
        let mut cells: Vec<Vec<Option<Color>>> = Vec::with_capacity(height);
        let mut y: usize = 0;
        while y < height
            invariant
                y <= height,
                cells@.len() == y,
                forall|k: int| 0 <= k < y ==> #[trigger] cells@[k]@ == empty_row(width as int),
            decreases height - y,
        {
            cells.push(new_empty_row(width));
            y += 1;
        }
        let r = Board { width, cells };
        assert(r@.cells =~= Seq::new(height as nat, |y: int| empty_row(width as int)));
        r
    }

    /// The number of columns.
    pub fn width(&self) -> (r: usize)
        ensures
            r == self@.width,
    {
        self.width
    }

    /// The number of rows.
    pub fn height(&self) -> (r: usize)
        ensures
            r == self@.cells.len(),
    {
        self.cells.len()
    }

    /// The content of the cell in column `x` of row `y`.
    pub fn cell(&self, x: usize, y: usize) -> (r: Option<Color>)
        requires
            self.wf(),
            x < self@.width,
            y < self@.cells.len(),
        ensures
            r == self@.cells[y as int][x as int],
    {
        assert(self@.cells[y as int] == self.cells@[y as int]@);
        self.cells[y][x]
    }

    /// Whether the board cell at `(x, y)`, given in wide integers, is off the
    /// board or occupied.
    fn is_blocked(&self, x: i64, y: i64) -> (r: bool)
        requires
            self.wf(),
        ensures
            r == blocked(self@, x as int, y as int),
    {
        if x < 0 || y < 0 || x >= self.width as i64 || y >= self.cells.len() as i64 {
            true
        } else {
            assert(self@.cells[y as int] == self.cells@[y as int]@);
            self.cells[y as usize][x as usize].is_some()
        }
    }

    /// Whether `piece` with its top-left corner at `origin` would have an
    /// occupied cell off the board or on an occupied board cell.
    pub fn collision_test(&self, piece: &Piece, origin: Point) -> (r: bool)
        requires
            self.wf(),
            piece.wf(),
        ensures
            r == collides(self@, piece@, origin.x as int, origin.y as int),
    {
        let size = piece.size();
        let mut row: usize = 0;
        while row < size
            invariant
                self.wf(),
                piece.wf(),
                size == piece@.shape.len(),
                row <= size,
                forall|r: int, c: int|
                    occupied(piece@, r, c) && r < row ==> !blocked(self@, origin.x + c, origin.y + r),
            decreases size - row,
        {
            let mut col: usize = 0;
            while col < size
                invariant
                    self.wf(),
                    piece.wf(),
                    size == piece@.shape.len(),
                    row < size,
                    col <= size,
                    forall|r: int, c: int|
                        occupied(piece@, r, c) && (r < row || (r == row && c < col)) ==> !blocked(
                            self@,
                            origin.x + c,
                            origin.y + r,
                        ),
                decreases size - col,
            {
                if piece.is_occupied(row, col) && self.is_blocked(
                    origin.x as i64 + col as i64,
                    origin.y as i64 + row as i64,
                ) {
                    assert(occupied(piece@, row as int, col as int));
                    return true;
                }
                col += 1;
            }
            row += 1;
        }
        false
    }

    /// Sets the cell in column `x` of row `y`.
    fn set_cell(&mut self, x: usize, y: usize, v: Option<Color>)
        requires
            old(self).wf(),
            x < old(self)@.width,
            y < old(self)@.cells.len(),
        ensures
            final(self).wf(),
            final(self)@.width == old(self)@.width,
            final(self)@.cells == old(self)@.cells.update(
                y as int,
                old(self)@.cells[y as int].update(x as int, v),
            ),
    {
        assert(self@.cells[y as int] == self.cells@[y as int]@);
        self.cells[y][x] = v;
        assert(self@.cells =~= old(self)@.cells.update(
            y as int,
            old(self)@.cells[y as int].update(x as int, v),
        ));
    }

    /// Writes the colour of `piece` into every board cell that it covers with
    /// its top-left corner at `origin`. The piece must fit there.
    pub fn lock_piece(&mut self, piece: &Piece, origin: Point)
        requires
            old(self).wf(),
            piece.wf(),
            !collides(old(self)@, piece@, origin.x as int, origin.y as int),
        ensures
            final(self).wf(),
            final(self)@ == locked(old(self)@, piece@, origin.x as int, origin.y as int),
    {
        let ghost start = self@;
        let ghost ox = origin.x as int;
        let ghost oy = origin.y as int;
        let size = piece.size();
        let color = piece.color();
        let mut row: usize = 0;
        while row < size
            invariant
                self.wf(),
                piece.wf(),
                size == piece@.shape.len(),
                color == piece@.color,
                row <= size,
                !collides(start, piece@, ox, oy),
                ox == origin.x,
                oy == origin.y,
                self@.width == start.width,
                self@.cells.len() == start.cells.len(),
                forall|y: int, x: int|
                    in_bounds(start, x, y) ==> #[trigger] self@.cells[y][x] == if covers(piece@, ox, oy, x, y)
                        && y - oy < row {
                        Some(color)
                    } else {
                        start.cells[y][x]
                    },
            decreases size - row,
        {
            let mut col: usize = 0;
            while col < size
                invariant
                    self.wf(),
                    piece.wf(),
                    size == piece@.shape.len(),
                    color == piece@.color,
                    row < size,
                    col <= size,
                    !collides(start, piece@, ox, oy),
                    ox == origin.x,
                    oy == origin.y,
                    self@.width == start.width,
                    self@.cells.len() == start.cells.len(),
                    forall|y: int, x: int|
                        in_bounds(start, x, y) ==> #[trigger] self@.cells[y][x] == if covers(piece@, ox, oy, x, y)
                            && (y - oy < row || (y - oy == row && x - ox < col)) {
                            Some(color)
                        } else {
                            start.cells[y][x]
                        },
                decreases size - col,
            {
                if piece.is_occupied(row, col) {
                    assert(!blocked(start, ox + col, oy + row));
                    let x = (origin.x as i64 + col as i64) as usize;
                    let y = (origin.y as i64 + row as i64) as usize;
                    self.set_cell(x, y, Some(color));
                }
                col += 1;
            }
            row += 1;
        }
        assert(self@.cells =~= locked(start, piece@, ox, oy).cells) by {
            assert forall|y: int| 0 <= y < start.cells.len() implies #[trigger] self@.cells[y] =~= locked(
                start,
                piece@,
                ox,
                oy,
            ).cells[y] by {
                assert forall|x: int| 0 <= x < start.width implies #[trigger] self@.cells[y][x] == locked(
                    start,
                    piece@,
                    ox,
                    oy,
                ).cells[y][x] by {
                    assert(in_bounds(start, x, y));
                    if covers(piece@, ox, oy, x, y) {
                        assert(y - oy < size);
                    }
                }
            }
        }
    }

    /// Whether no cell of row `y` is empty.
    fn row_is_full(&self, y: usize) -> (r: bool)
        requires
            self.wf(),
            y < self@.cells.len(),
        ensures
            r == row_full(self@.cells[y as int]),
    {
        let row = &self.cells[y];
        assert(self@.cells[y as int] == row@);
        let mut x: usize = 0;
        while x < row.len()
            invariant
                x <= row@.len(),
                row@ == self@.cells[y as int],
                forall|k: int| 0 <= k < x ==> (#[trigger] row@[k]) is Some,
            decreases row@.len() - x,
        {
            if row[x].is_none() {
                assert(!(row@[x as int] is Some));
                return false;
            }
            x += 1;
        }
        true
    }

    /// Removes every full row and moves the rows above down to take their
    /// place, in one pass from the bottom up that carries the number of rows
    /// cleared so far; empty rows fill the top. Returns the number of rows
    /// cleared.
    pub fn clear_lines(&mut self) -> (r: u32)
        requires
            old(self).wf(),
        ensures
            final(self).wf(),
            final(self)@ == cleared(old(self)@),
            final(self)@.cells.len() == old(self)@.cells.len(),
            r == full_row_count(old(self)@),
    {
        let ghost start = self@.cells;
        let height = self.cells.len();
        let mut cleared_rows: usize = 0;
        let mut row: usize = height;
        while row > 0
            invariant
                self.wf(),
                self@.width == old(self)@.width,
                start == old(self)@.cells,
                height == start.len(),
                self@.cells.len() == height,
                row <= height,
                cleared_rows == (height - row) - kept_rows(start.subrange(row as int, height as int)).len(),
                row + cleared_rows <= height,
                forall|y: int| 0 <= y < row ==> #[trigger] self@.cells[y] == start[y],
                forall|y: int| row <= y < row + cleared_rows ==> #[trigger] self@.cells[y] == empty_row(self@.width),
                self@.cells.subrange(row + cleared_rows, height as int) == kept_rows(
                    start.subrange(row as int, height as int),
                ),
            decreases row,
        {
            row -= 1;
            let ghost before = self@.cells;
            proof {
                assert(start.subrange(row as int, height as int).drop_first() =~= start.subrange(
                    row as int + 1,
                    height as int,
                ));
                assert(start.subrange(row as int, height as int)[0] == start[row as int]);
            }
            if self.row_is_full(row) {
                cleared_rows += 1;
                self.cells[row] = new_empty_row(self.width);
                proof {
                    assert(self@.cells =~= before.update(row as int, empty_row(self@.width)));
                    assert(self@.cells.subrange(row + cleared_rows, height as int) =~= before.subrange(
                        row + cleared_rows,
                        height as int,
                    ));
                }
            } else if cleared_rows > 0 {
                let mut moved = new_empty_row(self.width);
                std::mem::swap(&mut self.cells[row], &mut moved);
                self.cells[row + cleared_rows] = moved;
                proof {
                    assert(self@.cells =~= before.update(row as int, empty_row(self@.width)).update(
                        row + cleared_rows,
                        start[row as int],
                    ));
                    assert(self@.cells.subrange(row + cleared_rows, height as int) =~= seq![start[row as int]]
                        + before.subrange(row + cleared_rows + 1, height as int));
                }
            } else {
                proof {
                    assert(self@.cells.subrange(row as int, height as int) =~= seq![start[row as int]]
                        + before.subrange(row + 1, height as int));
                }
            }
        }
        proof {
            assert(start.subrange(0, height as int) =~= start);
            assert(self@.cells =~= cleared(old(self)@).cells);
        }
        cleared_rows as u32
    }

    /// Draws the board into `display`: side walls beside the visible rows, a
    /// floor under the last row, and two cells of the cell's colour for each
    /// occupied board cell.
    pub fn render(&self, display: &mut Display)
        requires
            self.wf(),
            old(display).wf(),
        ensures
            final(display).wf(),
            same_shape(final(display)@, old(display)@),
            final(display)@ == board_drawn(self@, old(display)@),
    {
        let ghost d0 = display@;
        let ghost b = self@;
        let ghost h = b.cells.len() as int;
        let width = self.width as u32;
        let height = self.cells.len() as u32;
        proof {
            reveal_strlit("|");
            reveal_strlit("-");
            reveal_strlit(" ");
            vstd::string::is_ascii_spec_bytes("|");
            vstd::string::is_ascii_spec_bytes("-");
            vstd::string::is_ascii_spec_bytes(" ");
            assert("|".spec_bytes() =~= seq![124u8]);
            assert("-".spec_bytes() =~= seq![45u8]);
            assert(" ".spec_bytes() =~= seq![32u8]);
        }
        let mut y: u32 = if HIDDEN_ROWS < height {
            HIDDEN_ROWS
        } else {
            height
        };
        assert(display@ =~~= board_drawn_upto(b, d0, y as int, 0, 0, 0));
        while y < height
            invariant
                display.wf(),
                same_shape(display@, d0),
                width == b.width,
                height == h,
                h == b.cells.len(),
                b == self@,
                self.wf(),
                y <= height,
                HIDDEN_ROWS <= y || y == height,
                "|".spec_bytes() == seq![124u8],
                display@ == board_drawn_upto(b, d0, y as int, 0, 0, 0),
            decreases height - y,
        {
            let ghost s0 = display@;
            display.set_text("|", 0, y, Color::Red, Color::Black);
            let ghost s1 = display@;
            display.set_text("|", width * 2 + 1, y, Color::Red, Color::Black);
            proof {
                lemma_one_byte_written(s0, s1, 124, 0, y as int, Color::Red, Color::Black);
                lemma_one_byte_written(s1, display@, 124, 2 * b.width + 1, y as int, Color::Red, Color::Black);
            }
            assert(display@ =~~= board_drawn_upto(b, d0, y as int + 1, 0, 0, 0));
            y += 1;
        }
        let mut x: u32 = 0;
        assert(display@ =~~= board_drawn_upto(b, d0, h, 0, 0, 0));
        while x < width * 2 + 1
            invariant
                display.wf(),
                same_shape(display@, d0),
                width == b.width,
                height == h,
                h == b.cells.len(),
                b == self@,
                self.wf(),
                x <= width * 2 + 1,
                "-".spec_bytes() == seq![45u8],
                display@ == board_drawn_upto(b, d0, h, x as int, 0, 0),
            decreases width * 2 + 1 - x,
        {
            let ghost s0 = display@;
            display.set_text("-", x, height, Color::Red, Color::Black);
            proof {
                lemma_one_byte_written(s0, display@, 45, x as int, h, Color::Red, Color::Black);
            }
            assert(display@ =~~= board_drawn_upto(b, d0, h, x as int + 1, 0, 0));
            x += 1;
        }
        let mut row: usize = 0;
        while row < self.cells.len()
            invariant
                display.wf(),
                same_shape(display@, d0),
                width == b.width,
                height == h,
                h == b.cells.len(),
                b == self@,
                self.wf(),
                row <= h,
                h == self.cells@.len(),
                " ".spec_bytes() == seq![32u8],
                display@ == board_drawn_upto(b, d0, h, 2 * b.width + 1, row as int, 0),
            decreases h - row,
        {
            let mut col: usize = 0;
            while col < self.width
                invariant
                    display.wf(),
                    same_shape(display@, d0),
                    width == b.width,
                    height == h,
                    b == self@,
                    self.wf(),
                    row < h,
                    h == self.cells@.len(),
                    col <= b.width,
                    " ".spec_bytes() == seq![32u8],
                    display@ == board_drawn_upto(b, d0, h, 2 * b.width + 1, row as int, col as int),
                decreases b.width - col,
            {
                match self.cell(col, row) {
                    Some(color) => {
                        let c = 1 + (col as u32) * 2;
                        let ghost s0 = display@;
                        display.set_text(" ", c, row as u32, color, color);
                        let ghost s1 = display@;
                        display.set_text(" ", c + 1, row as u32, color, color);
                        proof {
                            lemma_one_byte_written(s0, s1, 32, c as int, row as int, color, color);
                            lemma_one_byte_written(s1, display@, 32, c + 1, row as int, color, color);
                            assert(((c as int) - 1) / 2 == col);
                            assert(((c as int + 1) - 1) / 2 == col);
                        }
                    },
                    None => {},
                }
                col += 1;
                assert(display@ =~~= board_drawn_upto(b, d0, h, 2 * b.width + 1, row as int, col as int));
            }
            assert(display@ =~~= board_drawn_upto(b, d0, h, 2 * b.width + 1, row as int + 1, 0));
            row += 1;
        }
    }
}

} // verus!
