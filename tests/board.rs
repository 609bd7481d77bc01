use tetris::{Board, Color, Piece, Point};

fn occupied_count(b: &Board) -> usize {
    let mut n = 0;
    for y in 0..b.height() {
        for x in 0..b.width() {
            if b.cell(x, y).is_some() {
                n += 1;
            }
        }
    }
    n
}

/// Fills row `y` of a board four columns wide with an I piece.
fn fill_row(b: &mut Board, y: i32) {
    b.lock_piece(&Piece::new_i(), Point { x: 0, y: y - 1 });
}

#[test]
fn new_board_is_empty() {
    let b = Board::new(10, 20);
    assert_eq!(b.width(), 10);
    assert_eq!(b.height(), 20);
    assert_eq!(occupied_count(&b), 0);
}

#[test]
fn piece_inside_bounds_does_not_collide() {
    let b = Board::new(10, 20);
    let t = Piece::new_t();
    assert!(!b.collision_test(&t, Point { x: 0, y: 0 }));
    assert!(!b.collision_test(&t, Point { x: 7, y: 18 }));
    assert!(!b.collision_test(&t, Point { x: 3, y: 5 }));
}

#[test]
fn one_step_past_each_edge_collides() {
    let b = Board::new(10, 20);
    let t = Piece::new_t();
    assert!(b.collision_test(&t, Point { x: -1, y: 5 }));
    assert!(b.collision_test(&t, Point { x: 8, y: 5 }));
    assert!(b.collision_test(&t, Point { x: 3, y: 19 }));
    assert!(b.collision_test(&t, Point { x: 3, y: -1 }));
}

#[test]
fn empty_rows_of_a_shape_may_hang_off_the_board() {
    let b = Board::new(10, 20);
    let i = Piece::new_i();
    assert!(!b.collision_test(&i, Point { x: 0, y: -1 }));
    assert!(!b.collision_test(&i, Point { x: 6, y: 17 }));
    assert!(b.collision_test(&i, Point { x: 7, y: 17 }));
}

#[test]
fn collision_with_occupied_cell() {
    let mut b = Board::new(10, 20);
    b.lock_piece(&Piece::new_o(), Point { x: 4, y: 18 });
    let t = Piece::new_t();
    assert!(b.collision_test(&t, Point { x: 3, y: 17 }));
    assert!(!b.collision_test(&t, Point { x: 3, y: 16 }));
    assert!(!b.collision_test(&t, Point { x: 0, y: 17 }));
}

#[test]
fn lock_piece_sets_covered_cells() {
    let mut b = Board::new(10, 20);
    b.lock_piece(&Piece::new_t(), Point { x: 2, y: 3 });
    assert_eq!(occupied_count(&b), 4);
    assert_eq!(b.cell(3, 3), Some(Color::Purple));
    assert_eq!(b.cell(2, 4), Some(Color::Purple));
    assert_eq!(b.cell(3, 4), Some(Color::Purple));
    assert_eq!(b.cell(4, 4), Some(Color::Purple));
    assert_eq!(b.cell(2, 3), None);
    assert_eq!(b.cell(3, 5), None);
}

#[test]
fn clear_lines_full_empty_full_full() {
    let mut b = Board::new(4, 4);
    fill_row(&mut b, 3);
    fill_row(&mut b, 1);
    fill_row(&mut b, 0);
    assert_eq!(occupied_count(&b), 12);
    assert_eq!(b.clear_lines(), 3);
    assert_eq!(occupied_count(&b), 0);
    assert_eq!(b.height(), 4);
}

#[test]
fn clear_lines_moves_kept_row_down_by_rows_cleared_below_and_above() {
    let mut b = Board::new(4, 4);
    b.lock_piece(&Piece::new_s(), Point { x: 1, y: 1 });
    fill_row(&mut b, 3);
    fill_row(&mut b, 1);
    fill_row(&mut b, 0);
    assert_eq!(b.cell(1, 2), Some(Color::Green));
    assert_eq!(b.cell(2, 2), Some(Color::Green));
    assert_eq!(b.clear_lines(), 3);
    for y in 0..3 {
        for x in 0..4 {
            assert_eq!(b.cell(x, y), None);
        }
    }
    assert_eq!(b.cell(0, 3), None);
    assert_eq!(b.cell(1, 3), Some(Color::Green));
    assert_eq!(b.cell(2, 3), Some(Color::Green));
    assert_eq!(b.cell(3, 3), None);
}

#[test]
fn clear_lines_without_full_rows_changes_nothing() {
    let mut b = Board::new(10, 20);
    b.lock_piece(&Piece::new_j(), Point { x: 0, y: 18 });
    assert_eq!(b.clear_lines(), 0);
    assert_eq!(occupied_count(&b), 4);
    assert_eq!(b.cell(0, 18), Some(Color::Blue));
    assert_eq!(b.cell(2, 19), Some(Color::Blue));
}

#[test]
fn clear_lines_keeps_rows_above_in_order() {
    let mut b = Board::new(4, 6);
    b.lock_piece(&Piece::new_t(), Point { x: 0, y: 1 });
    fill_row(&mut b, 5);
    fill_row(&mut b, 3);
    assert_eq!(b.clear_lines(), 2);
    assert_eq!(b.cell(1, 3), Some(Color::Purple));
    assert_eq!(b.cell(0, 4), Some(Color::Purple));
    assert_eq!(b.cell(1, 4), Some(Color::Purple));
    assert_eq!(b.cell(2, 4), Some(Color::Purple));
    assert_eq!(b.cell(0, 5), None);
    assert_eq!(occupied_count(&b), 4);
}

#[test]
fn clear_lines_on_completely_full_board() {
    let mut b = Board::new(4, 2);
    fill_row(&mut b, 0);
    fill_row(&mut b, 1);
    assert_eq!(occupied_count(&b), 8);
    assert_eq!(b.clear_lines(), 2);
    assert_eq!(occupied_count(&b), 0);
}

#[test]
fn clear_lines_on_board_without_rows() {
    let mut b = Board::new(4, 0);
    assert_eq!(b.clear_lines(), 0);
    assert_eq!(b.height(), 0);
}
