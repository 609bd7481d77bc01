//! The game: one board, one bag, the falling piece and its origin, and the
//! moves that a tick or a key press makes.
use vstd::prelude::*;
use vstd::string::StringSliceAdditionalSpecFns;

use crate::bag::{is_fresh_bag, lemma_fresh_bag_once_each, popped, PieceBag};
use crate::board::{
    board_drawn, blocked, board_wf, cleared, collides, empty_row, filled_cells, lemma_clear_without_full_rows,
    lemma_lock_adds_piece_cells, lemma_step_out_collides, locked, piece_cells_at, row_full, Board, BoardView,
};
use crate::piece::{lemma_rotate_four_times, occupied, piece_wf, rotated, Piece, PieceView};
use crate::display::{lemma_one_byte_written, same_shape, text_written, Display, Pixel};
use crate::util::{Color, Direction, Point};

verus! {

/// The number of columns of the playing field.
pub const BOARD_WIDTH: u32 = 10;

/// The number of rows of the playing field, hidden rows included.
pub const BOARD_HEIGHT: u32 = 20;

/// The number of rows at the top of the field that are not drawn; pieces
/// appear there.
pub const HIDDEN_ROWS: u32 = 2;

/// A key press, as the input side reports it.
#[derive(Debug, PartialEq, Eq, Structural, Copy, Clone)]
pub enum Key {
    Up,
    Down,
    Left,
    Right,
    Space,
    CtrlC,
    Char(char),
}

/// What wakes the game up: a key press or a tick of the clock.
#[derive(Debug, PartialEq, Eq, Structural, Copy, Clone)]
pub enum GameUpdate {
    KeyPress(Key),
    Tick,
}

/// The mathematical model of a game.
pub struct GameView {
    pub board: BoardView,
    pub bag: Seq<PieceView>,
    pub piece: PieceView,
    pub x: int,
    pub y: int,
    pub over: bool,
}

/// Every part of a game is well formed, the board has the standard size, and
/// the origin lies near the board; the falling piece may still overlap the
/// board.
pub open spec fn parts_wf(g: GameView) -> bool {
    &&& board_wf(g.board)
    &&& g.board.width == BOARD_WIDTH
    &&& g.board.cells.len() == BOARD_HEIGHT
    &&& piece_wf(g.piece)
    &&& g.bag.len() >= 1
    &&& forall|i: int| 0 <= i < g.bag.len() ==> piece_wf(#[trigger] g.bag[i])
    &&& -4 < g.x < g.board.width
    &&& -4 < g.y < g.board.cells.len()
}

/// A well-formed game: while it is not over, the falling piece fits where it
/// stands.
pub open spec fn game_wf(g: GameView) -> bool {
    &&& parts_wf(g)
    &&& !g.over ==> !collides(g.board, g.piece, g.x, g.y)
}

/// The column at which `p` appears: centred on the board.
pub open spec fn spawn_x(b: BoardView, p: PieceView) -> int {
    (b.width - p.shape.len()) / 2
}

/// The row at which `p`, dropped straight down from row `y` in column `x`,
/// comes to rest.
pub open spec fn landing_row(b: BoardView, p: PieceView, x: int, y: int) -> int
    decreases b.cells.len() - y,
{
    if y >= b.cells.len() || collides(b, p, x, y + 1) {
        y
    } else {
        landing_row(b, p, x, y + 1)
    }
}

/// `g` with the falling piece's origin moved to `(x, y)`.
pub open spec fn with_origin(g: GameView, x: int, y: int) -> GameView {
    GameView { board: g.board, bag: g.bag, piece: g.piece, x, y, over: g.over }
}

/// The move by `(dx, dy)`: made, with `r` true, when the game is on and the
/// piece fits there; otherwise nothing changes and `r` is false.
pub open spec fn move_step(g0: GameView, g1: GameView, dx: int, dy: int, r: bool) -> bool {
    let ok = !g0.over && !collides(g0.board, g0.piece, g0.x + dx, g0.y + dy);
    &&& r == ok
    &&& g1 == if ok { with_origin(g0, g0.x + dx, g0.y + dy) } else { g0 }
}

/// The quarter turn in `d` at the same origin: made when the game is on and the
/// turned piece fits there.
pub open spec fn rotate_step(g0: GameView, g1: GameView, d: Direction, r: bool) -> bool {
    let ok = !g0.over && !collides(g0.board, rotated(g0.piece, d), g0.x, g0.y);
    &&& r == ok
    &&& g1 == if ok {
        GameView { board: g0.board, bag: g0.bag, piece: rotated(g0.piece, d), x: g0.x, y: g0.y, over: g0.over }
    } else {
        g0
    }
}

/// Placing the falling piece at its spawn origin on the top row: it succeeds
/// when the piece fits there; failing ends the game and leaves the origin.
pub open spec fn spawn_step(g0: GameView, g1: GameView, r: bool) -> bool {
    let sx = spawn_x(g0.board, g0.piece);
    &&& r == !collides(g0.board, g0.piece, sx, 0)
    &&& g1 == if r {
        GameView { board: g0.board, bag: g0.bag, piece: g0.piece, x: sx, y: 0, over: false }
    } else {
        GameView { board: g0.board, bag: g0.bag, piece: g0.piece, x: g0.x, y: g0.y, over: true }
    }
}

/// Locking the falling piece where it stands, clearing full rows, taking the
/// next piece from the bag and spawning it.
pub open spec fn lock_step(g0: GameView, g1: GameView, r: bool) -> bool {
    exists|bag1: Seq<PieceView>|
        #[trigger] popped(g0.bag, bag1) && spawn_step(
            GameView {
                board: cleared(locked(g0.board, g0.piece, g0.x, g0.y)),
                bag: bag1,
                piece: g0.bag[0],
                x: g0.x,
                y: g0.y,
                over: g0.over,
            },
            g1,
            r,
        )
}

/// One step of gravity: the piece moves down a row if it can; if it cannot, it
/// locks and the next piece comes. `r` is false once the game is over.
pub open spec fn advance_step(g0: GameView, g1: GameView, r: bool) -> bool {
    if g0.over {
        !r && g1 == g0
    } else if !collides(g0.board, g0.piece, g0.x, g0.y + 1) {
        r && g1 == with_origin(g0, g0.x, g0.y + 1)
    } else {
        lock_step(g0, g1, r)
    }
}

/// The hard drop: the piece falls as far as it fits, then locks.
pub open spec fn drop_step(g0: GameView, g1: GameView, r: bool) -> bool {
    if g0.over {
        !r && g1 == g0
    } else {
        lock_step(with_origin(g0, g0.x, landing_row(g0.board, g0.piece, g0.x, g0.y)), g1, r)
    }
}

/// What a key press does.
pub open spec fn key_step(g0: GameView, g1: GameView, key: Key) -> bool {
    match key {
        Key::Left => (move_step(g0, g1, -1, 0, true) || move_step(g0, g1, -1, 0, false)),
        Key::Right => (move_step(g0, g1, 1, 0, true) || move_step(g0, g1, 1, 0, false)),
        Key::Down => (advance_step(g0, g1, true) || advance_step(g0, g1, false)),
        Key::Up => (rotate_step(g0, g1, Direction::Left, true) || rotate_step(g0, g1, Direction::Left, false)),
        Key::Space => (drop_step(g0, g1, true) || drop_step(g0, g1, false)),
        Key::Char(c) => if c == 'q' {
            (rotate_step(g0, g1, Direction::Left, true) || rotate_step(g0, g1, Direction::Left, false))
        } else if c == 'e' {
            (rotate_step(g0, g1, Direction::Right, true) || rotate_step(g0, g1, Direction::Right, false))
        } else {
            g1 == g0
        },
        Key::CtrlC => g1 == g0,
    }
}

/// Whether the key press ends the session.
pub open spec fn is_quit_key(key: Key) -> bool {
    key == Key::CtrlC || key == Key::Char('z')
}

/// A piece that fits on the board has its origin near the board.
pub proof fn lemma_fitting_origin_near(b: BoardView, p: PieceView, ox: int, oy: int)
    requires
        board_wf(b),
        piece_wf(p),
        !collides(b, p, ox, oy),
    ensures
        -4 < ox < b.width,
        -4 < oy < b.cells.len(),
{
    let (r, c) = choose|r: int, c: int| occupied(p, r, c);
    assert(!blocked(b, ox + c, oy + r));
}

/// The row at which a fitting piece lands is one where it fits and the row
/// below is blocked, and the piece fits on every row it passes.
proof fn lemma_landing_row(b: BoardView, p: PieceView, x: int, y: int)
    requires
        board_wf(b),
        piece_wf(p),
    ensures
        landing_row(b, p, x, y) >= y,
        landing_row(b, p, x, y) > y ==> !collides(b, p, x, landing_row(b, p, x, y)),
        landing_row(b, p, x, y) > y ==> collides(b, p, x, landing_row(b, p, x, y) + 1),
        y < b.cells.len() ==> collides(b, p, x, landing_row(b, p, x, y) + 1),
    decreases b.cells.len() - y,
{
    if y >= b.cells.len() || collides(b, p, x, y + 1) {
    } else {
        lemma_landing_row(b, p, x, y + 1);
        if !collides(b, p, x, y + 1) {
            lemma_fitting_origin_near(b, p, x, y + 1);
        }
    }
}

/// A piece no larger than the board fits at its spawn origin on an empty board.
proof fn lemma_spawn_on_empty(b: BoardView, p: PieceView)
    requires
        board_wf(b),
        piece_wf(p),
        p.shape.len() <= b.width,
        p.shape.len() <= b.cells.len(),
        forall|y: int| 0 <= y < b.cells.len() ==> #[trigger] b.cells[y] == empty_row(b.width),
    ensures
        !collides(b, p, spawn_x(b, p), 0),
{
    assert forall|r: int, c: int| occupied(p, r, c) implies !blocked(b, spawn_x(b, p) + c, 0 + r) by {
        assert(b.cells[r] == empty_row(b.width));
    }
}

/// A move one column to the left is refused, and changes nothing, when the
/// piece already has an occupied cell in the leftmost column.
pub proof fn lemma_move_left_at_left_edge(g0: GameView, g1: GameView, r: bool, row: int, col: int)
    requires
        game_wf(g0),
        occupied(g0.piece, row, col),
        g0.x + col == 0,
        move_step(g0, g1, -1, 0, r),
    ensures
        !r,
        g1 == g0,
{
    lemma_step_out_collides(g0.board, g0.piece, g0.x, g0.y, row, col);
}

/// Four quarter turns of the falling piece in the same direction that all
/// succeed leave the game as it was.
pub proof fn lemma_four_turns_restore(
    g0: GameView,
    g1: GameView,
    g2: GameView,
    g3: GameView,
    g4: GameView,
    d: Direction,
)
    requires
        game_wf(g0),
        rotate_step(g0, g1, d, true),
        rotate_step(g1, g2, d, true),
        rotate_step(g2, g3, d, true),
        rotate_step(g3, g4, d, true),
    ensures
        g4 == g0,
{
    lemma_rotate_four_times(g0.piece, d);
}

/// Spawning a piece where it does not fit fails and ends the game, and leaves
/// the board as it was.
pub proof fn lemma_blocked_spawn_ends_game(g0: GameView, g1: GameView, r: bool)
    requires
        spawn_step(g0, g1, r),
        collides(g0.board, g0.piece, spawn_x(g0.board, g0.piece), 0),
    ensures
        !r,
        g1.over,
        g1.board == g0.board,
{
}

/// One step of gravity: a piece that fits a row lower moves down and the
/// board keeps its cells; a piece that does not locks, and when that fills no
/// row the occupied cells grow by exactly the cells of the locked piece, the
/// next piece of the bag comes, and if it fits it stands at its spawn origin.
pub proof fn lemma_advance_occupancy(g0: GameView, g1: GameView, r: bool)
    requires
        game_wf(g0),
        !g0.over,
        advance_step(g0, g1, r),
        collides(g0.board, g0.piece, g0.x, g0.y + 1) ==> forall|y: int|
            0 <= y < g0.board.cells.len() ==> !row_full(#[trigger] locked(g0.board, g0.piece, g0.x, g0.y).cells[y]),
    ensures
        !collides(g0.board, g0.piece, g0.x, g0.y + 1) ==> r && g1.x == g0.x && g1.y == g0.y + 1 && g1.board == g0.board,
        collides(g0.board, g0.piece, g0.x, g0.y + 1) ==> {
            &&& filled_cells(g1.board) == filled_cells(g0.board).union(piece_cells_at(g0.piece, g0.x, g0.y))
            &&& filled_cells(g0.board).disjoint(piece_cells_at(g0.piece, g0.x, g0.y))
            &&& filled_cells(g1.board).len() == filled_cells(g0.board).len() + piece_cells_at(
                g0.piece,
                g0.x,
                g0.y,
            ).len()
            &&& piece_cells_at(g0.piece, g0.x, g0.y).len() > 0
            &&& g1.piece == g0.bag[0]
            &&& r == !g1.over
            &&& r ==> g1.x == spawn_x(g1.board, g1.piece) && g1.y == 0 && !collides(g1.board, g1.piece, g1.x, g1.y)
        },
{
    if collides(g0.board, g0.piece, g0.x, g0.y + 1) {
        let after = locked(g0.board, g0.piece, g0.x, g0.y);
        lemma_clear_without_full_rows(after);
        lemma_lock_adds_piece_cells(g0.board, g0.piece, g0.x, g0.y);
    }
}

/// Whether the screen pixel `(x, y)` is one of the two columns of an occupied
/// cell of `p` drawn with its top-left cell at screen column `ox`, row `oy`.
pub open spec fn piece_covers_pixel(p: PieceView, ox: int, oy: int, x: int, y: int) -> bool {
    x - ox >= 0 && occupied(p, y - oy, (x - ox) / 2)
}

/// The display `d` with `p` drawn at screen column `ox`, row `oy`.
pub open spec fn piece_drawn(p: PieceView, ox: int, oy: int, d: Seq<Seq<Pixel>>) -> Seq<Seq<Pixel>> {
    Seq::new(
        d.len(),
        |y: int|
            Seq::new(
                d[y].len(),
                |x: int|
                    if piece_covers_pixel(p, ox, oy, x, y) {
                        Pixel { c: 32, fg_color: p.color, bg_color: p.color }
                    } else {
                        d[y][x]
                    },
            ),
    )
}

/// Whether the screen pixel `(x, y)` is one of the two columns of a cell
/// `(row, col)` listed in `pts`, drawn from screen column `ox`, row `oy`.
spec fn points_cover_pixel(pts: Seq<(i32, i32)>, ox: int, oy: int, x: int, y: int) -> bool {
    exists|k: int|
        0 <= k < pts.len() && #[trigger] pts[k].0 == y - oy && (x - ox == 2 * pts[k].1 || x - ox == 2 * pts[k].1
            + 1)
}

/// The display `d` with the cells listed in `pts` drawn in `color`.
spec fn points_drawn(pts: Seq<(i32, i32)>, color: Color, ox: int, oy: int, d: Seq<Seq<Pixel>>) -> Seq<
    Seq<Pixel>,
> {
    Seq::new(
        d.len(),
        |y: int|
            Seq::new(
                d[y].len(),
                |x: int|
                    if points_cover_pixel(pts, ox, oy, x, y) {
                        Pixel { c: 32, fg_color: color, bg_color: color }
                    } else {
                        d[y][x]
                    },
            ),
    )
}

/// The falling-block game.
pub struct Game {
    board: Board,
    piece_bag: PieceBag,
    piece: Piece,
    piece_position: Point,
    over: bool,
}

impl View for Game {
    type V = GameView;

    closed spec fn view(&self) -> GameView {
        GameView {
            board: self.board@,
            bag: self.piece_bag@,
            piece: self.piece@,
            x: self.piece_position.x as int,
            y: self.piece_position.y as int,
            over: self.over,
        }
    }
}

impl Game {
    /// Whether the game's model is well formed.
    pub open spec fn wf(&self) -> bool {
        game_wf(self@)
    }

    /// A game on an empty board of the standard size, with the first piece of
    /// a fresh bag at its spawn origin.
    pub fn new() -> (r: Game)
        ensures
            r.wf(),
            !r@.over,
            r@.board.width == BOARD_WIDTH,
            r@.board.cells == Seq::new(BOARD_HEIGHT as nat, |y: int| empty_row(BOARD_WIDTH as int)),
            is_fresh_bag(seq![r@.piece] + r@.bag),
            r@.x == spawn_x(r@.board, r@.piece),
            r@.y == 0,
    {
        let mut piece_bag = PieceBag::new();
        let ghost fresh = piece_bag@;
        proof {
            lemma_fresh_bag_once_each(fresh);
        }
        let piece = piece_bag.pop();
        let mut game = Game {
            board: Board::new(BOARD_WIDTH as usize, BOARD_HEIGHT as usize),
            piece_bag,
            piece,
            piece_position: Point { x: 0, y: 0 },
            over: false,
        };
        proof {
            lemma_spawn_on_empty(game@.board, game@.piece);
            assert(seq![game@.piece] + game@.bag =~= fresh);
        }
        let placed = game.place_new_piece();
        assert(placed);
        game
    }

    /// The board.
    pub fn board(&self) -> (r: &Board)
        ensures
            r@ == self@.board,
    {
        &self.board
    }

    /// The falling piece.
    pub fn current_piece(&self) -> (r: &Piece)
        ensures
            r@ == self@.piece,
    {
        &self.piece
    }

    /// The origin of the falling piece.
    pub fn piece_position(&self) -> (r: Point)
        ensures
            r.x == self@.x,
            r.y == self@.y,
    {
        self.piece_position
    }

    /// Whether the game is over.
    pub fn is_over(&self) -> (r: bool)
        ensures
            r == self@.over,
    {
        self.over
    }

    /// A copy of the piece that comes next.
    pub fn next_piece(&self) -> (r: Piece)
        requires
            self.wf(),
        ensures
            r@ == self@.bag[0],
            r.wf(),
    {
        self.piece_bag.peek()
    }

    /// The origin at which the falling piece would come to rest if dropped:
    /// the last row, going down from its origin, before the piece would not fit.
    pub fn find_dropped_position(&self) -> (r: Point)
        requires
            self.wf(),
        ensures
            r.x == self@.x,
            r.y == landing_row(self@.board, self@.piece, self@.x, self@.y),
    {
        let mut origin = self.piece_position;
        proof {
            lemma_landing_row(self@.board, self@.piece, self@.x, self@.y);
        }
        loop
            invariant
                self.wf(),
                origin.x == self@.x,
                -4 < origin.y < self@.board.cells.len(),
                landing_row(self@.board, self@.piece, self@.x, origin.y as int) == landing_row(
                    self@.board,
                    self@.piece,
                    self@.x,
                    self@.y,
                ),
            ensures
                landing_row(self@.board, self@.piece, self@.x, origin.y as int) == origin.y,
            decreases self@.board.cells.len() - origin.y,
        {
            let below = Point { x: origin.x, y: origin.y + 1 };
            if self.board.collision_test(&self.piece, below) {
                break;
            }
            proof {
                lemma_fitting_origin_near(self@.board, self@.piece, origin.x as int, origin.y + 1);
            }
            origin = below;
        }
        origin
    }

    /// Moves the falling piece by `(x, y)` if it fits there. Returns whether it
    /// moved.
    pub fn move_piece(&mut self, x: i32, y: i32) -> (r: bool)
        requires
            old(self).wf(),
        ensures
            final(self).wf(),
            move_step(old(self)@, final(self)@, x as int, y as int, r),
    {
        if self.over {
            return false;
        }
        let nx: i64 = self.piece_position.x as i64 + x as i64;
        let ny: i64 = self.piece_position.y as i64 + y as i64;
        if nx < i32::MIN as i64 || nx > i32::MAX as i64 || ny < i32::MIN as i64 || ny > i32::MAX as i64 {
            proof {
                if !collides(self@.board, self@.piece, nx as int, ny as int) {
                    lemma_fitting_origin_near(self@.board, self@.piece, nx as int, ny as int);
                }
            }
            return false;
        }
        let new_position = Point { x: nx as i32, y: ny as i32 };
        if self.board.collision_test(&self.piece, new_position) {
            false
        } else {
            proof {
                lemma_fitting_origin_near(self@.board, self@.piece, nx as int, ny as int);
            }
            self.piece_position = new_position;
            true
        }
    }

    /// Turns the falling piece a quarter in `direction` about its origin if the
    /// turned piece fits there. Returns whether it turned.
    pub fn rotate_piece(&mut self, direction: Direction) -> (r: bool)
        requires
            old(self).wf(),
        ensures
            final(self).wf(),
            rotate_step(old(self)@, final(self)@, direction, r),
    {
        if self.over {
            return false;
        }
        let mut new_piece = self.piece.clone();
        new_piece.rotate(direction);
        if self.board.collision_test(&new_piece, self.piece_position) {
            false
        } else {
            self.piece = new_piece;
            true
        }
    }

    /// Puts the falling piece at its spawn origin, centred on the top row. If
    /// it does not fit there the game is over. Returns whether it fit.
    pub fn place_new_piece(&mut self) -> (r: bool)
        requires
            parts_wf(old(self)@),
        ensures
            final(self).wf(),
            spawn_step(old(self)@, final(self)@, r),
    {
        let origin = Point { x: ((self.board.width() - self.piece.size()) / 2) as i32, y: 0 };
        if self.board.collision_test(&self.piece, origin) {
            self.over = true;
            false
        } else {
            self.piece_position = origin;
            self.over = false;
            true
        }
    }

    /// Locks the falling piece where it stands, clears full rows, takes the
    /// next piece from the bag and spawns it. Returns whether it fit.
    fn lock_and_spawn(&mut self) -> (r: bool)
        requires
            old(self).wf(),
            !old(self)@.over,
        ensures
            final(self).wf(),
            lock_step(old(self)@, final(self)@, r),
    {
        let ghost g0 = self@;
        self.board.lock_piece(&self.piece, self.piece_position);
        self.board.clear_lines();
        self.piece = self.piece_bag.pop();
        let ghost mid = self@;
        let r = self.place_new_piece();
        proof {
            assert(popped(g0.bag, mid.bag));
            assert(mid == GameView {
                board: cleared(locked(g0.board, g0.piece, g0.x, g0.y)),
                bag: mid.bag,
                piece: g0.bag[0],
                x: g0.x,
                y: g0.y,
                over: g0.over,
            });
        }
        r
    }

    /// Moves the falling piece down a row; if it cannot move, locks it and
    /// brings the next piece. Returns false once the game is over.
    pub fn advance_game(&mut self) -> (r: bool)
        requires
            old(self).wf(),
        ensures
            final(self).wf(),
            advance_step(old(self)@, final(self)@, r),
    {
        if self.over {
            return false;
        }
        if !self.move_piece(0, 1) {
            return self.lock_and_spawn();
        }
        true
    }

    /// Drops the falling piece as far as it fits, then advances the game, which
    /// locks it. Returns false once the game is over.
    pub fn drop_piece(&mut self) -> (r: bool)
        requires
            old(self).wf(),
        ensures
            final(self).wf(),
            drop_step(old(self)@, final(self)@, r),
    {
        let ghost g0 = self@;
        while self.move_piece(0, 1)
            invariant
                self.wf(),
                self@ == with_origin(g0, g0.x, self@.y),
                g0.over ==> self@ == g0,
                !g0.over ==> landing_row(g0.board, g0.piece, g0.x, self@.y) == landing_row(
                    g0.board,
                    g0.piece,
                    g0.x,
                    g0.y,
                ),
            decreases self@.board.cells.len() - self@.y,
        {
        }
        proof {
            if !g0.over {
                assert(collides(g0.board, g0.piece, g0.x, self@.y + 1));
                assert(landing_row(g0.board, g0.piece, g0.x, self@.y) == self@.y);
                assert(self@ == with_origin(g0, g0.x, landing_row(g0.board, g0.piece, g0.x, g0.y)));
            }
        }
        let ghost mid = self@;
        let r = self.advance_game();
        proof {
            if !g0.over {
                assert(lock_step(mid, self@, r));
            }
        }
        r
    }

    /// Carries out what `key` asks for.
    pub fn keypress(&mut self, key: Key)
        requires
            old(self).wf(),
        ensures
            final(self).wf(),
            key_step(old(self)@, final(self)@, key),
    {
        match key {
            Key::Left => {
                self.move_piece(-1, 0);
            },
            Key::Right => {
                self.move_piece(1, 0);
            },
            Key::Down => {
                self.advance_game();
            },
            Key::Up => {
                self.rotate_piece(Direction::Left);
            },
            Key::Space => {
                self.drop_piece();
            },
            Key::Char('q') => {
                self.rotate_piece(Direction::Left);
            },
            Key::Char('e') => {
                self.rotate_piece(Direction::Right);
            },
            _ => {},
        }
    }

    /// Reacts to one event: a tick advances the game, a quit key ends the
    /// session, any other key goes to `keypress`. Returns whether the session
    /// goes on: false after a quit key or once the game is over.
    pub fn handle_update(&mut self, update: GameUpdate) -> (r: bool)
        requires
            old(self).wf(),
        ensures
            final(self).wf(),
            match update {
                GameUpdate::Tick => r == !final(self)@.over && (advance_step(old(self)@, final(self)@, true)
                    || advance_step(old(self)@, final(self)@, false)),
                GameUpdate::KeyPress(key) => if is_quit_key(key) {
                    !r && final(self)@ == old(self)@
                } else {
                    r == !final(self)@.over && key_step(old(self)@, final(self)@, key)
                },
            },
    {
        match update {
            GameUpdate::KeyPress(key) => {
                match key {
                    Key::Char('z') | Key::CtrlC => false,
                    k => {
                        self.keypress(k);
                        !self.over
                    },
                }
            },
            GameUpdate::Tick => {
                self.advance_game();
                !self.over
            },
        }
    }

    /// Draws `piece` into `display` with its top-left cell at `origin`, given in
    /// screen columns: each occupied cell takes two columns of its colour.
    /// What falls off the screen is left out.
    pub fn render_piece(&self, display: &mut Display, piece: &Piece, origin: Point)
        requires
            old(display).wf(),
            piece.wf(),
        ensures
            final(display).wf(),
            same_shape(final(display)@, old(display)@),
            final(display)@ == piece_drawn(piece@, origin.x as int, origin.y as int, old(display)@),
    {
        let ghost d0 = display@;
        let ghost ox = origin.x as int;
        let ghost oy = origin.y as int;
        let color = piece.color();
        let points = piece.each_point();
        proof {
            reveal_strlit(" ");
            vstd::string::is_ascii_spec_bytes(" ");
            assert(" ".spec_bytes() =~= seq![32u8]);
            assert(display@ =~~= points_drawn(points@.subrange(0, 0), color, ox, oy, d0));
        }
        let mut i: usize = 0;
        while i < points.len()
            invariant
                display.wf(),
                same_shape(display@, d0),
                i <= points@.len(),
                ox == origin.x,
                oy == origin.y,
                " ".spec_bytes() == seq![32u8],
                display@ == points_drawn(points@.subrange(0, i as int), color, ox, oy, d0),
            decreases points@.len() - i,
        {
            let (row, col) = points[i];
            let x: i64 = origin.x as i64 + 2 * col as i64;
            let y: i64 = origin.y as i64 + row as i64;
            let ghost s0 = display@;
            if 0 <= x && x <= u32::MAX as i64 && 0 <= y && y <= u32::MAX as i64 {
                display.set_text(" ", x as u32, y as u32, color, color);
                proof {
                    lemma_one_byte_written(s0, display@, 32, x as int, y as int, color, color);
                }
            }
            let ghost s1 = display@;
            if 0 <= x + 1 && x + 1 <= u32::MAX as i64 && 0 <= y && y <= u32::MAX as i64 {
                display.set_text(" ", (x + 1) as u32, y as u32, color, color);
                proof {
                    lemma_one_byte_written(s1, display@, 32, x + 1, y as int, color, color);
                }
            }
            proof {
                let before = points@.subrange(0, i as int);
                let after = points@.subrange(0, i as int + 1);
                let t = points_drawn(after, color, ox, oy, d0);
                assert forall|yy: int| 0 <= yy < display@.len() implies #[trigger] display@[yy] =~= t[yy] by {
                    assert forall|xx: int| 0 <= xx < display@[yy].len() implies #[trigger] display@[yy][xx]
                        == t[yy][xx] by {
                        let here = yy == y && (xx == x || xx == x + 1);
                        assert(after[i as int] == (row, col));
                        assert(display@[yy].len() <= u32::MAX);
                        if here {
                            assert(after[i as int].0 == yy - oy);
                            assert(points_cover_pixel(after, ox, oy, xx, yy));
                            assert(t[yy][xx] == Pixel { c: 32, fg_color: color, bg_color: color });
                        } else {
                            if points_cover_pixel(after, ox, oy, xx, yy) {
                                let k = choose|k: int|
                                    0 <= k < after.len() && #[trigger] after[k].0 == yy - oy && (xx - ox == 2
                                        * after[k].1 || xx - ox == 2 * after[k].1 + 1);
                                assert(k < i);
                                assert(before[k] == after[k]);
                                assert(points_cover_pixel(before, ox, oy, xx, yy));
                            }
                            if points_cover_pixel(before, ox, oy, xx, yy) {
                                let k = choose|k: int|
                                    0 <= k < before.len() && #[trigger] before[k].0 == yy - oy && (xx - ox == 2
                                        * before[k].1 || xx - ox == 2 * before[k].1 + 1);
                                assert(before[k] == after[k]);
                            }
                            assert(s0[yy][xx] == points_drawn(before, color, ox, oy, d0)[yy][xx]);
                        }
                    }
                }
                assert(display@ =~= t);
            }
            i += 1;
        }
        proof {
            assert(points@.subrange(0, i as int) =~= points@);
            let t = piece_drawn(piece@, ox, oy, d0);
            assert forall|yy: int| 0 <= yy < display@.len() implies #[trigger] display@[yy] =~= t[yy] by {
                assert forall|xx: int| 0 <= xx < display@[yy].len() implies #[trigger] display@[yy][xx]
                    == t[yy][xx] by {
                    if points_cover_pixel(points@, ox, oy, xx, yy) {
                        let k = choose|k: int|
                            0 <= k < points@.len() && #[trigger] points@[k].0 == yy - oy && (xx - ox == 2
                                * points@[k].1 || xx - ox == 2 * points@[k].1 + 1);
                        assert(occupied(piece@, points@[k].0 as int, points@[k].1 as int));
                        assert((xx - ox) / 2 == points@[k].1);
                    }
                    if piece_covers_pixel(piece@, ox, oy, xx, yy) {
                        let r = yy - oy;
                        let c = (xx - ox) / 2;
                        assert(occupied(piece@, r, c));
                        let k = choose|k: int| 0 <= k < points@.len() && #[trigger] points@[k] == (r as i32, c as i32);
                        assert(points@[k].0 == yy - oy);
                        assert(points_cover_pixel(points@, ox, oy, xx, yy));
                    }
                }
            }
            assert(display@ =~= t);
        }
    }

    /// Draws the game into `display`: the board, the level, the falling piece,
    /// where it would land, and the piece that comes next, in that order.
    pub fn render(&self, display: &mut Display)
        requires
            self.wf(),
            old(display).wf(),
        ensures
            final(display).wf(),
            same_shape(final(display)@, old(display)@),
            ({
                let g = self@;
                let margin = BOARD_WIDTH * 2 + 5;
                let x = 1 + 2 * g.x;
                let with_board = board_drawn(g.board, old(display)@);
                let with_level = text_written(with_board, "Level: 1".spec_bytes(), margin, 3, Color::Red, Color::Black);
                let with_piece = piece_drawn(g.piece, x, g.y, with_level);
                let with_ghost = piece_drawn(g.piece, x, landing_row(g.board, g.piece, g.x, g.y), with_piece);
                let with_label = text_written(
                    with_ghost,
                    "Next piece:".spec_bytes(),
                    margin,
                    7,
                    Color::Red,
                    Color::Black,
                );
                final(display)@ == piece_drawn(g.bag[0], margin + 2, 9, with_label)
            }),
    {
        self.board.render(display);
        let left_margin: u32 = BOARD_WIDTH * 2 + 5;
        display.set_text("Level: 1", left_margin, 3, Color::Red, Color::Black);
        let x: i32 = 1 + 2 * self.piece_position.x;
        self.render_piece(display, &self.piece, Point { x, y: self.piece_position.y });
        let ghost_position = self.find_dropped_position();
        self.render_piece(display, &self.piece, Point { x, y: ghost_position.y });
        display.set_text("Next piece:", left_margin, 7, Color::Red, Color::Black);
        let next_piece = self.piece_bag.peek();
        self.render_piece(display, &next_piece, Point { x: left_margin as i32 + 2, y: 9 });
    }
}

} // verus!
