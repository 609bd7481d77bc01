//! Pieces: a square matrix of occupancy flags with a colour, and its rotation.
use vstd::prelude::*;

use crate::util::{Color, Direction};

verus! {

/// The mathematical model of a piece: its colour and its rows of flags.
pub struct PieceView {
    pub color: Color,
    pub shape: Seq<Seq<bool>>,
}

/// Whether the cell at row `r`, column `c` of `p` is occupied.
pub open spec fn occupied(p: PieceView, r: int, c: int) -> bool {
    0 <= r < p.shape.len() && 0 <= c < p.shape.len() && p.shape[r][c]
}

/// Whether every row of `p` is as long as `p` has rows.
pub open spec fn is_square(p: PieceView) -> bool {
    forall|r: int| 0 <= r < p.shape.len() ==> #[trigger] p.shape[r].len() == p.shape.len()
}

/// A piece that can stand on a board: a square of side 2 to 4 with at least one
/// occupied cell.
pub open spec fn piece_wf(p: PieceView) -> bool {
    &&& 2 <= p.shape.len() <= 4
    &&& is_square(p)
    &&& exists|r: int, c: int| occupied(p, r, c)
}

/// The flag that lands at `(r, c)` after a quarter turn of `shape` in `d`.
pub open spec fn rotated_cell(shape: Seq<Seq<bool>>, d: Direction, r: int, c: int) -> bool {
    let n = shape.len() as int;
    match d {
        Direction::Right => shape[n - 1 - c][r],
        Direction::Left => shape[c][n - 1 - r],
    }
}

/// `p` turned a quarter in direction `d`; the colour is kept.
pub open spec fn rotated(p: PieceView, d: Direction) -> PieceView {
    let n = p.shape.len() as int;
    PieceView {
        color: p.color,
        shape: Seq::new(n as nat, |r: int| Seq::new(n as nat, |c: int| rotated_cell(p.shape, d, r, c))),
    }
}

/// The ring of a square of side `n` that the cell `(r, c)` lies on, counted
/// from the outside.
pub open spec fn ring_of(n: int, r: int, c: int) -> int {
    let a = if r < c { r } else { c };
    let b = if n - 1 - r < n - 1 - c { n - 1 - r } else { n - 1 - c };
    if a < b { a } else { b }
}

/// The column of the top-side cell whose four-cycle under rotation holds
/// `(r, c)`.
pub open spec fn cycle_of(n: int, r: int, c: int) -> int {
    let k = ring_of(n, r, c);
    if r == k && c < n - 1 - k {
        c
    } else if c == n - 1 - k && r < n - 1 - k {
        r
    } else if r == n - 1 - k && c > k {
        n - 1 - c
    } else {
        n - 1 - r
    }
}

/// Whether the ring-by-ring rotation has already moved `(r, c)` once it has
/// finished every cycle before ring `ring` and column `col`.
pub open spec fn cycle_done(n: int, ring: int, col: int, r: int, c: int) -> bool {
    ring_of(n, r, c) < ring || (ring_of(n, r, c) == ring && cycle_of(n, r, c) < col)
}

/// Where the cell that one step of the cycle starting at `(ring, col)` puts at
/// `(r, c)` comes from; a cell off that cycle stays where it is.
pub open spec fn cycle_source(n: int, d: Direction, ring: int, col: int, r: int, c: int) -> (int, int) {
    let last = n - 1 - ring;
    let opp = n - 1 - col;
    if r == ring && c == col {
        match d {
            Direction::Left => (col, last),
            Direction::Right => (opp, ring),
        }
    } else if r == col && c == last {
        match d {
            Direction::Left => (last, opp),
            Direction::Right => (ring, col),
        }
    } else if r == last && c == opp {
        match d {
            Direction::Left => (opp, ring),
            Direction::Right => (col, last),
        }
    } else if r == opp && c == ring {
        match d {
            Direction::Left => (ring, col),
            Direction::Right => (last, opp),
        }
    } else {
        (r, c)
    }
}

/// Starting a ring finds every outer ring done, and finishing it finds that
/// ring done too.
proof fn lemma_cycle_done_ring(n: int, ring: int)
    requires
        2 <= n <= 4,
        0 <= ring < n / 2,
    ensures
        forall|r: int, c: int|
            0 <= r < n && 0 <= c < n ==> (#[trigger] cycle_done(n, ring, ring, r, c) <==> ring_of(n, r, c) < ring),
        forall|r: int, c: int|
            0 <= r < n && 0 <= c < n ==> (#[trigger] cycle_done(n, ring, n - 1 - ring, r, c) <==> ring_of(n, r, c) < ring + 1),
{
}

/// One step of the cycle at `(ring, col)` moves exactly the cells of that cycle
/// to where the quarter turn puts them.
proof fn lemma_cycle_step(
    start: Seq<Seq<bool>>,
    before: Seq<Seq<bool>>,
    after: Seq<Seq<bool>>,
    d: Direction,
    ring: int,
    col: int,
)
    requires
        2 <= start.len() <= 4,
        0 <= ring < start.len() / 2,
        ring <= col < start.len() - 1 - ring,
        before.len() == start.len(),
        after.len() == start.len(),
        forall|r: int, c: int|
            0 <= r < start.len() && 0 <= c < start.len() ==> #[trigger] before[r][c] == if cycle_done(
                start.len() as int,
                ring,
                col,
                r,
                c,
            ) {
                rotated_cell(start, d, r, c)
            } else {
                start[r][c]
            },
        forall|r: int, c: int|
            0 <= r < start.len() && 0 <= c < start.len() ==> {
                let src = cycle_source(start.len() as int, d, ring, col, r, c);
                #[trigger] after[r][c] == before[src.0][src.1]
            },
    ensures
        forall|r: int, c: int|
            0 <= r < start.len() && 0 <= c < start.len() ==> #[trigger] after[r][c] == if cycle_done(
                start.len() as int,
                ring,
                col + 1,
                r,
                c,
            ) {
                rotated_cell(start, d, r, c)
            } else {
                start[r][c]
            },
{
    let n = start.len() as int;
    assert forall|r: int, c: int| 0 <= r < n && 0 <= c < n implies #[trigger] after[r][c] == if cycle_done(
        n,
        ring,
        col + 1,
        r,
        c,
    ) {
        rotated_cell(start, d, r, c)
    } else {
        start[r][c]
    } by {
        let src = cycle_source(n, d, ring, col, r, c);
        assert(after[r][c] == before[src.0][src.1]);
        assert(0 <= src.0 < n && 0 <= src.1 < n);
        assert(before[src.0][src.1] == if cycle_done(n, ring, col, src.0, src.1) {
            rotated_cell(start, d, src.0, src.1)
        } else {
            start[src.0][src.1]
        });
    }
}

/// The cell that no ring holds, the centre of an odd square, stays put under
/// a quarter turn.
proof fn lemma_center_fixed(start: Seq<Seq<bool>>, d: Direction)
    requires
        2 <= start.len() <= 4,
    ensures
        forall|r: int, c: int|
            0 <= r < start.len() && 0 <= c < start.len() && ring_of(start.len() as int, r, c) >= start.len() / 2
                ==> #[trigger] rotated_cell(start, d, r, c) == start[r][c],
{
}

/// A quarter turn keeps a piece well formed.
pub proof fn lemma_rotated_wf(p: PieceView, d: Direction)
    requires
        piece_wf(p),
    ensures
        piece_wf(rotated(p, d)),
{
    let q = rotated(p, d);
    let n = p.shape.len() as int;
    let (r, c) = choose|r: int, c: int| occupied(p, r, c);
    match d {
        Direction::Right => assert(occupied(q, c, n - 1 - r)),
        Direction::Left => assert(occupied(q, n - 1 - c, r)),
    }
}

/// A quarter turn of a square is a square of the same side.
proof fn lemma_rotated_square(p: PieceView, d: Direction)
    requires
        is_square(p),
    ensures
        is_square(rotated(p, d)),
        rotated(p, d).shape.len() == p.shape.len(),
{
}

/// Two quarter turns in the same direction are a half turn.
proof fn lemma_half_turn(p: PieceView, d: Direction)
    requires
        is_square(p),
    ensures
        is_square(rotated(rotated(p, d), d)),
        rotated(rotated(p, d), d).shape.len() == p.shape.len(),
        rotated(rotated(p, d), d).color == p.color,
        forall|r: int, c: int|
            0 <= r < p.shape.len() && 0 <= c < p.shape.len() ==> #[trigger] rotated(rotated(p, d), d).shape[r][c]
                == p.shape[p.shape.len() - 1 - r][p.shape.len() - 1 - c],
{
    let n = p.shape.len() as int;
    let q = rotated(p, d);
    lemma_rotated_square(p, d);
    lemma_rotated_square(q, d);
    assert forall|r: int, c: int| 0 <= r < n && 0 <= c < n implies #[trigger] rotated(q, d).shape[r][c]
        == p.shape[n - 1 - r][n - 1 - c] by {
        match d {
            Direction::Right => assert(q.shape[n - 1 - c][r] == p.shape[n - 1 - r][n - 1 - c]),
            Direction::Left => assert(q.shape[c][n - 1 - r] == p.shape[n - 1 - r][n - 1 - c]),
        }
    }
}

/// Four quarter turns in the same direction give back the piece they started
/// from: rotation is a cyclic group of order four.
pub proof fn lemma_rotate_four_times(p: PieceView, d: Direction)
    requires
        is_square(p),
    ensures
        rotated(rotated(rotated(rotated(p, d), d), d), d) == p,
{
    let n = p.shape.len() as int;
    let h = rotated(rotated(p, d), d);
    lemma_half_turn(p, d);
    lemma_half_turn(h, d);
    let q = rotated(rotated(h, d), d);
    assert forall|r: int| 0 <= r < n implies #[trigger] q.shape[r] =~= p.shape[r] by {
        assert forall|c: int| 0 <= c < n implies #[trigger] q.shape[r][c] == p.shape[r][c] by {
            assert(q.shape[r][c] == h.shape[n - 1 - r][n - 1 - c]);
        }
    }
    assert(q.shape =~= p.shape);
}

/// Whether `a` comes before `b` in row-major order.
pub open spec fn row_major_before(a: (i32, i32), b: (i32, i32)) -> bool {
    a.0 < b.0 || (a.0 == b.0 && a.1 < b.1)
}

/// The O piece.
pub open spec fn o_view() -> PieceView {
    PieceView { color: Color::Yellow, shape: seq![seq![true, true], seq![true, true]] }
}

/// The L piece.
pub open spec fn l_view() -> PieceView {
    PieceView {
        color: Color::Orange,
        shape: seq![seq![false, false, true], seq![true, true, true], seq![false, false, false]],
    }
}

/// The J piece.
pub open spec fn j_view() -> PieceView {
    PieceView {
        color: Color::Blue,
        shape: seq![seq![true, false, false], seq![true, true, true], seq![false, false, false]],
    }
}

/// The T piece.
pub open spec fn t_view() -> PieceView {
    PieceView {
        color: Color::Purple,
        shape: seq![seq![false, true, false], seq![true, true, true], seq![false, false, false]],
    }
}

/// The S piece.
pub open spec fn s_view() -> PieceView {
    PieceView {
        color: Color::Green,
        shape: seq![seq![false, true, true], seq![true, true, false], seq![false, false, false]],
    }
}

/// The Z piece.
pub open spec fn z_view() -> PieceView {
    PieceView {
        color: Color::Red,
        shape: seq![seq![true, true, false], seq![false, true, true], seq![false, false, false]],
    }
}

/// The I piece.
pub open spec fn i_view() -> PieceView {
    PieceView {
        color: Color::Cyan,
        shape: seq![
            seq![false, false, false, false],
            seq![true, true, true, true],
            seq![false, false, false, false],
            seq![false, false, false, false],
        ],
    }
}

/// The seven canonical pieces, in the order in which a bag is stocked.
pub open spec fn canonical_pieces() -> Seq<PieceView> {
    seq![o_view(), l_view(), j_view(), t_view(), s_view(), z_view(), i_view()]
}

/// Each canonical piece has a colour of its own, so a colour names a piece
/// type.
pub proof fn lemma_colours_identify_pieces()
    ensures
        forall|i: int, j: int|
            0 <= i < 7 && 0 <= j < 7 && i != j ==> #[trigger] canonical_pieces()[i].color
                != #[trigger] canonical_pieces()[j].color,
{
    let c = canonical_pieces();
    assert(c[0].color == Color::Yellow && c[1].color == Color::Orange && c[2].color == Color::Blue
        && c[3].color == Color::Purple && c[4].color == Color::Green && c[5].color == Color::Red
        && c[6].color == Color::Cyan);
}

/// A rotatable shape with a colour.
pub struct Piece {
    color: Color,
    shape: Vec<Vec<bool>>,
}

impl View for Piece {
    type V = PieceView;

    closed spec fn view(&self) -> PieceView {
        PieceView {
            color: self.color,
            shape: Seq::new(self.shape@.len(), |r: int| self.shape@[r]@),
        }
    }
}

impl Clone for Piece {
    /// A deep copy: the clone owns its own rows.
    fn clone(&self) -> (r: Piece)
        ensures
            r@ == self@,
    {
        let mut shape: Vec<Vec<bool>> = Vec::with_capacity(self.shape.len());
        let mut i: usize = 0;
        while i < self.shape.len()
            invariant
                i <= self.shape@.len(),
                shape@.len() == i,
                forall|k: int| 0 <= k < i ==> #[trigger] shape@[k]@ == self.shape@[k]@,
            decreases self.shape@.len() - i,
        {
            let row = &self.shape[i];
            let mut copy: Vec<bool> = Vec::with_capacity(row.len());
            let mut j: usize = 0;
            while j < row.len()
                invariant
                    j <= row@.len(),
                    copy@ == row@.subrange(0, j as int),
                decreases row@.len() - j,
            {
                copy.push(row[j]);
                j += 1;
                assert(copy@ =~= row@.subrange(0, j as int));
            }
            assert(copy@ =~= row@);
            shape.push(copy);
            i += 1;
        }
        let r = Piece { color: self.color, shape };
        assert(r@.shape =~= self@.shape);
        r
    }
}

impl Piece {
    /// Whether this piece's model is a well-formed piece.
    pub open spec fn wf(&self) -> bool {
        piece_wf(self@)
    }

    /// The colour of the piece.
    pub fn color(&self) -> (r: Color)
        ensures
            r == self@.color,
    {
        self.color
    }

    /// The side length of the shape.
    pub fn size(&self) -> (r: usize)
        ensures
            r == self@.shape.len(),
    {
        self.shape.len()
    }

    /// Whether the cell at `row`, `col` of the shape is occupied.
    pub fn is_occupied(&self, row: usize, col: usize) -> (r: bool)
        requires
            self.wf(),
        ensures
            r == occupied(self@, row as int, col as int),
    {
        if row < self.shape.len() && col < self.shape.len() {
            assert(self@.shape[row as int] == self.shape@[row as int]@);
            self.shape[row][col]
        } else {
            false
        }
    }

    /// The O piece.
    pub fn new_o() -> (r: Piece)
        ensures
            r@ == o_view(),
            r.wf(),
    {
        let r = Piece { color: Color::Yellow, shape: vec![vec![true, true], vec![true, true]] };
        assert(r@.shape =~= o_view().shape);
        assert(occupied(r@, 0, 0));
        r
    }

    /// The L piece.
    pub fn new_l() -> (r: Piece)
        ensures
            r@ == l_view(),
            r.wf(),
    {
        let r = Piece {
            color: Color::Orange,
            shape: vec![vec![false, false, true], vec![true, true, true], vec![false, false, false]],
        };
        assert(r@.shape =~= l_view().shape);
        assert(occupied(r@, 1, 0));
        r
    }

    /// The J piece.
    pub fn new_j() -> (r: Piece)
        ensures
            r@ == j_view(),
            r.wf(),
    {
        let r = Piece {
            color: Color::Blue,
            shape: vec![vec![true, false, false], vec![true, true, true], vec![false, false, false]],
        };
        assert(r@.shape =~= j_view().shape);
        assert(occupied(r@, 1, 0));
        r
    }

    /// The T piece.
    pub fn new_t() -> (r: Piece)
        ensures
            r@ == t_view(),
            r.wf(),
    {
        let r = Piece {
            color: Color::Purple,
            shape: vec![vec![false, true, false], vec![true, true, true], vec![false, false, false]],
        };
        assert(r@.shape =~= t_view().shape);
        assert(occupied(r@, 1, 0));
        r
    }

    /// The S piece.
    pub fn new_s() -> (r: Piece)
        ensures
            r@ == s_view(),
            r.wf(),
    {
        let r = Piece {
            color: Color::Green,
            shape: vec![vec![false, true, true], vec![true, true, false], vec![false, false, false]],
        };
        assert(r@.shape =~= s_view().shape);
        assert(occupied(r@, 1, 0));
        r
    }

    /// The Z piece.
    pub fn new_z() -> (r: Piece)
        ensures
            r@ == z_view(),
            r.wf(),
    {
        let r = Piece {
            color: Color::Red,
            shape: vec![vec![true, true, false], vec![false, true, true], vec![false, false, false]],
        };
        assert(r@.shape =~= z_view().shape);
        assert(occupied(r@, 1, 1));
        r
    }

    /// The I piece.
    pub fn new_i() -> (r: Piece)
        ensures
            r@ == i_view(),
            r.wf(),
    {
        let r = Piece {
            color: Color::Cyan,
            shape: vec![
                vec![false, false, false, false],
                vec![true, true, true, true],
                vec![false, false, false, false],
                vec![false, false, false, false],
            ],
        };
        assert(r@.shape =~= i_view().shape);
        assert(occupied(r@, 1, 0));
        r
    }

    /// Sets the flag at `row`, `col`.
    fn set_cell(&mut self, row: usize, col: usize, v: bool)
        requires
            row < old(self)@.shape.len(),
            col < old(self)@.shape[row as int].len(),
        ensures
            final(self)@.color == old(self)@.color,
            final(self)@.shape == old(self)@.shape.update(
                row as int,
                old(self)@.shape[row as int].update(col as int, v),
            ),
    {
        self.shape[row][col] = v;
        assert(self@.shape =~= old(self)@.shape.update(
            row as int,
            old(self)@.shape[row as int].update(col as int, v),
        ));
    }

    /// The flag at `row`, `col`.
    fn cell(&self, row: usize, col: usize) -> (r: bool)
        requires
            row < self@.shape.len(),
            col < self@.shape[row as int].len(),
        ensures
            r == self@.shape[row as int][col as int],
    {
        self.shape[row][col]
    }

    /// Moves the four cells of the cycle that starts at `row`, `col` one place
    /// along it, in `direction`.
    fn rotate_cycle(&mut self, row: usize, col: usize, direction: Direction)
        requires
            is_square(old(self)@),
            2 <= old(self)@.shape.len() <= 4,
            row < old(self)@.shape.len() / 2,
            row <= col < old(self)@.shape.len() - row - 1,
        ensures
            final(self)@.color == old(self)@.color,
            final(self)@.shape.len() == old(self)@.shape.len(),
            is_square(final(self)@),
            forall|r: int, c: int|
                0 <= r < old(self)@.shape.len() && 0 <= c < old(self)@.shape.len() ==> {
                    let src = cycle_source(
                        old(self)@.shape.len() as int,
                        direction,
                        row as int,
                        col as int,
                        r,
                        c,
                    );
                    #[trigger] final(self)@.shape[r][c] == old(self)@.shape[src.0][src.1]
                },
    {
        let size = self.shape.len();
        let last = size - row - 1;
        let opp = size - col - 1;
        let t = self.cell(row, col);
        match direction {
            Direction::Left => {
                let v = self.cell(col, last);
                self.set_cell(row, col, v);
                let v = self.cell(last, opp);
                self.set_cell(col, last, v);
                let v = self.cell(opp, row);
                self.set_cell(last, opp, v);
                self.set_cell(opp, row, t);
            },
            Direction::Right => {
                let v = self.cell(opp, row);
                self.set_cell(row, col, v);
                let v = self.cell(last, opp);
                self.set_cell(opp, row, v);
                let v = self.cell(col, last);
                self.set_cell(last, opp, v);
                self.set_cell(col, last, t);
            },
        }
    }

    /// Turns the shape a quarter in `direction`, in place, one ring at a time:
    /// each step moves four cells of a ring around a cycle.
    pub fn rotate(&mut self, direction: Direction)
        requires
            old(self).wf(),
        ensures
            final(self)@ == rotated(old(self)@, direction),
            final(self).wf(),
    {
        let ghost start_view = self@;
        let ghost start = start_view.shape;
        let size = self.shape.len();
        let mut row: usize = 0;
        while row < size / 2
            invariant
                2 <= size <= 4,
                row <= size / 2,
                start.len() == size,
                is_square(start_view),
                is_square(self@),
                self@.shape.len() == size,
                self@.color == start_view.color,
                forall|r: int, c: int|
                    0 <= r < size && 0 <= c < size ==> #[trigger] self@.shape[r][c] == if ring_of(
                        size as int,
                        r,
                        c,
                    ) < row {
                        rotated_cell(start, direction, r, c)
                    } else {
                        start[r][c]
                    },
            decreases size / 2 - row,
        {
            let last = size - row - 1;
            let mut col: usize = row;
            proof {
                lemma_cycle_done_ring(size as int, row as int);
            }
            while col < last
                invariant
                    2 <= size <= 4,
                    row < size / 2,
                    last == size - row - 1,
                    row <= col <= last,
                    start.len() == size,
                    is_square(start_view),
                    is_square(self@),
                    self@.shape.len() == size,
                    self@.color == start_view.color,
                    forall|r: int, c: int|
                        0 <= r < size && 0 <= c < size ==> #[trigger] self@.shape[r][c] == if cycle_done(
                            size as int,
                            row as int,
                            col as int,
                            r,
                            c,
                        ) {
                            rotated_cell(start, direction, r, c)
                        } else {
                            start[r][c]
                        },
                decreases last - col,
            {
                let ghost before = self@.shape;
                self.rotate_cycle(row, col, direction);
                proof {
                    lemma_cycle_step(start, before, self@.shape, direction, row as int, col as int);
                }
                col += 1;
            }
            row += 1;
        }
        proof {
            lemma_center_fixed(start, direction);
            let target = rotated(start_view, direction).shape;
            assert forall|r: int| 0 <= r < size implies #[trigger] self@.shape[r] =~= target[r] by {
                assert forall|c: int| 0 <= c < size implies #[trigger] self@.shape[r][c] == target[r][c] by {
                    assert(self@.shape[r][c] == if ring_of(size as int, r, c) < row {
                        rotated_cell(start, direction, r, c)
                    } else {
                        start[r][c]
                    });
                }
            }
            assert(self@.shape =~= target);
            lemma_rotated_wf(start_view, direction);
        }
    }

    /// The `(row, col)` offsets of the occupied cells, in row-major order.
    pub fn each_point(&self) -> (r: Vec<(i32, i32)>)
        requires
            self.wf(),
        ensures
            forall|i: int| 0 <= i < r@.len() ==> occupied(self@, #[trigger] r@[i].0 as int, r@[i].1 as int),
            forall|a: int, b: int|
                occupied(self@, a, b) ==> exists|i: int| 0 <= i < r@.len() && #[trigger] r@[i] == (a as i32, b as i32),
            forall|i: int, j: int| 0 <= i < j < r@.len() ==> row_major_before(#[trigger] r@[i], #[trigger] r@[j]),
    {
        let size = self.shape.len();
        let mut points: Vec<(i32, i32)> = Vec::new();
        let mut row: usize = 0;
        while row < size
            invariant
                self.wf(),
                size == self@.shape.len(),
                row <= size,
                forall|i: int| 0 <= i < points@.len() ==> occupied(self@, #[trigger] points@[i].0 as int, points@[i].1 as int),
                forall|i: int| 0 <= i < points@.len() ==> (#[trigger] points@[i]).0 < row,
                forall|a: int, b: int|
                    occupied(self@, a, b) && a < row ==> exists|i: int| 0 <= i < points@.len() && #[trigger] points@[i] == (a as i32, b as i32),
                forall|i: int, j: int| 0 <= i < j < points@.len() ==> row_major_before(#[trigger] points@[i], #[trigger] points@[j]),
            decreases size - row,
        {
            let mut col: usize = 0;
            while col < size
                invariant
                    self.wf(),
                    size == self@.shape.len(),
                    row < size,
                    col <= size,
                    forall|i: int| 0 <= i < points@.len() ==> occupied(self@, #[trigger] points@[i].0 as int, points@[i].1 as int),
                    forall|i: int| 0 <= i < points@.len() ==> row_major_before(#[trigger] points@[i], (row as i32, col as i32)),
                    forall|a: int, b: int|
                        occupied(self@, a, b) && (a < row || (a == row && b < col)) ==> exists|i: int| 0 <= i < points@.len() && #[trigger] points@[i] == (a as i32, b as i32),
                    forall|i: int, j: int| 0 <= i < j < points@.len() ==> row_major_before(#[trigger] points@[i], #[trigger] points@[j]),
                decreases size - col,
            {
                if self.is_occupied(row, col) {
                    let ghost prev = points@;
                    points.push((row as i32, col as i32));
                    proof {
                        assert forall|a: int, b: int|
                            occupied(self@, a, b) && (a < row || (a == row && b < col + 1)) implies exists|i: int| 0 <= i < points@.len() && #[trigger] points@[i] == (a as i32, b as i32) by {
                            if a == row && b == col {
                                assert(points@[prev.len() as int] == (a as i32, b as i32));
                            } else {
                                let i = choose|i: int| 0 <= i < prev.len() && #[trigger] prev[i] == (a as i32, b as i32);
                                assert(points@[i] == prev[i]);
                            }
                        }
                    }
                }
                col += 1;
            }
            row += 1;
        }
        points
    }
}

} // verus!
