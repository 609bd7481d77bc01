use tetris::{Color, Direction, Piece};

fn shape_of(p: &Piece) -> Vec<Vec<bool>> {
    let n = p.size();
    (0..n).map(|r| (0..n).map(|c| p.is_occupied(r, c)).collect()).collect()
}

fn all_pieces() -> Vec<Piece> {
    vec![
        Piece::new_o(),
        Piece::new_l(),
        Piece::new_j(),
        Piece::new_t(),
        Piece::new_s(),
        Piece::new_z(),
        Piece::new_i(),
    ]
}

#[test]
fn constructors_give_canonical_shapes() {
    let t = Piece::new_t();
    assert_eq!(t.color(), Color::Purple);
    assert_eq!(
        shape_of(&t),
        vec![vec![false, true, false], vec![true, true, true], vec![false, false, false]]
    );
    let i = Piece::new_i();
    assert_eq!(i.size(), 4);
    assert_eq!(i.color(), Color::Cyan);
    assert_eq!(shape_of(&i)[1], vec![true, true, true, true]);
    let o = Piece::new_o();
    assert_eq!(o.size(), 2);
    assert_eq!(shape_of(&o), vec![vec![true, true], vec![true, true]]);
    assert_eq!(o.color(), Color::Yellow);
    assert_eq!(Piece::new_l().color(), Color::Orange);
    assert_eq!(Piece::new_j().color(), Color::Blue);
    assert_eq!(Piece::new_s().color(), Color::Green);
    assert_eq!(Piece::new_z().color(), Color::Red);
}

#[test]
fn every_piece_has_four_cells() {
    for p in all_pieces() {
        assert_eq!(p.each_point().len(), 4);
    }
}

#[test]
fn rotate_right_turns_clockwise() {
    let mut t = Piece::new_t();
    t.rotate(Direction::Right);
    assert_eq!(
        shape_of(&t),
        vec![vec![false, true, false], vec![false, true, true], vec![false, true, false]]
    );
}

#[test]
fn rotate_left_turns_counter_clockwise() {
    let mut l = Piece::new_l();
    l.rotate(Direction::Left);
    assert_eq!(
        shape_of(&l),
        vec![vec![true, true, false], vec![false, true, false], vec![false, true, false]]
    );
}

#[test]
fn rotate_i_piece_right() {
    let mut i = Piece::new_i();
    i.rotate(Direction::Right);
    let expected: Vec<Vec<bool>> = (0..4).map(|_| vec![false, false, true, false]).collect();
    assert_eq!(shape_of(&i), expected);
}

#[test]
fn four_rotations_restore_every_piece() {
    for d in [Direction::Left, Direction::Right] {
        for p in all_pieces() {
            let before = shape_of(&p);
            let mut q = p.clone();
            for _ in 0..4 {
                q.rotate(d);
            }
            assert_eq!(shape_of(&q), before);
            assert_eq!(q.color(), p.color());
        }
    }
}

#[test]
fn left_undoes_right() {
    let mut s = Piece::new_s();
    let before = shape_of(&s);
    s.rotate(Direction::Right);
    assert_ne!(shape_of(&s), before);
    s.rotate(Direction::Left);
    assert_eq!(shape_of(&s), before);
}

#[test]
fn clone_is_independent() {
    let source = Piece::new_z();
    let before = shape_of(&source);
    let mut copy = source.clone();
    copy.rotate(Direction::Right);
    assert_eq!(shape_of(&source), before);
    assert_ne!(shape_of(&copy), before);
}

#[test]
fn each_point_is_row_major() {
    let t = Piece::new_t();
    assert_eq!(t.each_point(), vec![(0, 1), (1, 0), (1, 1), (1, 2)]);
    let s = Piece::new_s();
    assert_eq!(s.each_point(), vec![(0, 1), (0, 2), (1, 0), (1, 1)]);
    assert_eq!(s.each_point(), s.each_point());
}

#[test]
fn every_piece_has_its_own_colour() {
    let pieces = all_pieces();
    for (a, p) in pieces.iter().enumerate() {
        for q in pieces.iter().skip(a + 1) {
            assert_ne!(p.color(), q.color());
        }
    }
    assert_ne!(Piece::new_o().color(), Piece::new_i().color());
}
