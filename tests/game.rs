use tetris::{Board, Direction, Game, GameUpdate, Key, Piece, BOARD_HEIGHT, BOARD_WIDTH};

fn occupied_count(b: &Board) -> usize {
    let mut n = 0;
    for y in 0..b.height() {
        for x in 0..b.width() {
            if b.cell(x, y).is_some() {
                n += 1;
            }
        }
    }
    n
}

fn shape_of(p: &Piece) -> Vec<Vec<bool>> {
    let n = p.size();
    (0..n).map(|r| (0..n).map(|c| p.is_occupied(r, c)).collect()).collect()
}

fn spawn_x(p: &Piece) -> i32 {
    ((BOARD_WIDTH as usize - p.size()) / 2) as i32
}

#[test]
fn new_game_spawns_centred_on_empty_board() {
    let g = Game::new();
    assert!(!g.is_over());
    assert_eq!(g.board().width(), BOARD_WIDTH as usize);
    assert_eq!(g.board().height(), BOARD_HEIGHT as usize);
    assert_eq!(occupied_count(g.board()), 0);
    let pos = g.piece_position();
    assert_eq!(pos.x, spawn_x(g.current_piece()));
    assert_eq!(pos.y, 0);
}

#[test]
fn move_left_at_leftmost_column_is_refused() {
    let mut g = Game::new();
    let mut moves = 0;
    while g.move_piece(-1, 0) {
        moves += 1;
        assert!(moves < 10);
    }
    let pos = g.piece_position();
    let leftmost = g.current_piece().each_point().iter().map(|&(_, c)| c).min().unwrap();
    assert_eq!(pos.x + leftmost, 0);
    assert!(!g.move_piece(-1, 0));
    assert_eq!(g.piece_position(), pos);
}

#[test]
fn move_right_stops_at_right_wall() {
    let mut g = Game::new();
    while g.move_piece(1, 0) {}
    let pos = g.piece_position();
    let rightmost = g.current_piece().each_point().iter().map(|&(_, c)| c).max().unwrap();
    assert_eq!(pos.x + rightmost, BOARD_WIDTH as i32 - 1);
}

#[test]
fn advance_moves_down_then_locks_and_spawns() {
    let mut g = Game::new();
    let first = g.current_piece().clone();
    let next = g.next_piece();
    loop {
        let before = g.piece_position();
        assert!(g.advance_game());
        let after = g.piece_position();
        if after.y == before.y + 1 {
            assert_eq!(after.x, before.x);
            assert_eq!(occupied_count(g.board()), 0);
        } else {
            let lowest = first.each_point().iter().map(|&(r, _)| r).max().unwrap();
            assert_eq!(before.y + lowest, BOARD_HEIGHT as i32 - 1);
            break;
        }
    }
    assert_eq!(occupied_count(g.board()), 4);
    assert_eq!(shape_of(g.current_piece()), shape_of(&next));
    assert_eq!(g.current_piece().color(), next.color());
    assert_eq!(g.piece_position().x, spawn_x(g.current_piece()));
    assert_eq!(g.piece_position().y, 0);
}

#[test]
fn find_dropped_position_rests_on_floor() {
    let g = Game::new();
    let ghost = g.find_dropped_position();
    let lowest = g.current_piece().each_point().iter().map(|&(r, _)| r).max().unwrap();
    assert_eq!(ghost.x, g.piece_position().x);
    assert_eq!(ghost.y + lowest, BOARD_HEIGHT as i32 - 1);
    assert!(!g.board().collision_test(g.current_piece(), ghost));
}

#[test]
fn drop_piece_locks_at_landing_row() {
    let mut g = Game::new();
    let first = g.current_piece().clone();
    let x = g.piece_position().x;
    let ghost = g.find_dropped_position();
    assert!(g.drop_piece());
    assert_eq!(occupied_count(g.board()), 4);
    for (r, c) in first.each_point() {
        let bx = (x + c) as usize;
        let by = (ghost.y + r) as usize;
        assert_eq!(g.board().cell(bx, by), Some(first.color()));
    }
    assert_eq!(g.piece_position().y, 0);
}

#[test]
fn four_rotations_in_game_restore_piece() {
    let mut g = Game::new();
    for _ in 0..5 {
        assert!(g.move_piece(0, 1));
    }
    for d in [Direction::Left, Direction::Right] {
        let before = shape_of(g.current_piece());
        for _ in 0..4 {
            assert!(g.rotate_piece(d));
        }
        assert_eq!(shape_of(g.current_piece()), before);
    }
}

#[test]
fn rotation_into_wall_is_refused() {
    let mut g = Game::new();
    while g.current_piece().size() != 4 {
        g.drop_piece();
    }
    assert!(g.rotate_piece(Direction::Right));
    while g.move_piece(-1, 0) {}
    let pos = g.piece_position();
    assert_eq!(pos.x, -2);
    let before = shape_of(g.current_piece());
    assert!(!g.rotate_piece(Direction::Right));
    assert_eq!(shape_of(g.current_piece()), before);
    assert_eq!(g.piece_position(), pos);
}

#[test]
fn stacking_to_the_top_ends_the_game() {
    let mut g = Game::new();
    let mut drops = 0;
    while g.drop_piece() {
        drops += 1;
        assert!(drops < 200);
    }
    assert!(g.is_over());
    let before: Vec<Option<tetris::Color>> = (0..BOARD_HEIGHT as usize)
        .flat_map(|y| (0..BOARD_WIDTH as usize).map(move |x| (x, y)))
        .map(|(x, y)| g.board().cell(x, y))
        .collect();
    assert!(!g.place_new_piece());
    let after: Vec<Option<tetris::Color>> = (0..BOARD_HEIGHT as usize)
        .flat_map(|y| (0..BOARD_WIDTH as usize).map(move |x| (x, y)))
        .map(|(x, y)| g.board().cell(x, y))
        .collect();
    assert_eq!(before, after);
    assert!(g.is_over());
    let pos = g.piece_position();
    assert!(!g.move_piece(1, 0));
    assert!(!g.rotate_piece(Direction::Left));
    assert!(!g.advance_game());
    assert!(!g.drop_piece());
    assert_eq!(g.piece_position(), pos);
}

#[test]
fn keypress_maps_keys_to_moves() {
    let mut g = Game::new();
    let start = g.piece_position();
    g.keypress(Key::Left);
    assert_eq!(g.piece_position().x, start.x - 1);
    g.keypress(Key::Right);
    g.keypress(Key::Right);
    assert_eq!(g.piece_position().x, start.x + 1);
    g.keypress(Key::Down);
    assert_eq!(g.piece_position().y, start.y + 1);
    g.keypress(Key::Char('x'));
    assert_eq!(g.piece_position().y, start.y + 1);
    g.keypress(Key::Space);
    assert_eq!(occupied_count(g.board()), 4);
}

#[test]
fn rotate_keys_turn_piece() {
    let mut g = Game::new();
    for _ in 0..3 {
        g.move_piece(0, 1);
    }
    let mut expected = g.current_piece().clone();
    expected.rotate(Direction::Right);
    g.keypress(Key::Char('e'));
    assert_eq!(shape_of(g.current_piece()), shape_of(&expected));
    expected.rotate(Direction::Left);
    g.keypress(Key::Char('q'));
    assert_eq!(shape_of(g.current_piece()), shape_of(&expected));
    expected.rotate(Direction::Left);
    g.keypress(Key::Up);
    assert_eq!(shape_of(g.current_piece()), shape_of(&expected));
}

#[test]
fn handle_update_quits_on_quit_keys_and_ticks_advance() {
    let mut g = Game::new();
    let start = g.piece_position();
    assert!(g.handle_update(GameUpdate::Tick));
    assert_eq!(g.piece_position().y, start.y + 1);
    assert!(!g.handle_update(GameUpdate::KeyPress(Key::Char('z'))));
    assert!(!g.handle_update(GameUpdate::KeyPress(Key::CtrlC)));
    assert_eq!(g.piece_position().y, start.y + 1);
    assert!(g.handle_update(GameUpdate::KeyPress(Key::Left)));
    assert_eq!(g.piece_position().x, start.x - 1);
}

#[test]
fn handle_update_stops_session_once_game_is_over() {
    let mut g = Game::new();
    let mut ticks = 0;
    while g.handle_update(GameUpdate::Tick) {
        ticks += 1;
        assert!(ticks < 10000);
    }
    assert!(g.is_over());
    assert!(!g.handle_update(GameUpdate::KeyPress(Key::Left)));
    assert!(!g.handle_update(GameUpdate::Tick));
}
