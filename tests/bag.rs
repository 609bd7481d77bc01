use std::collections::HashMap;
use tetris::{Piece, PieceBag};

fn signature(p: &Piece) -> String {
    let n = p.size();
    let mut s = format!("{:?}:", p.color());
    for r in 0..n {
        for c in 0..n {
            s.push(if p.is_occupied(r, c) { '#' } else { '.' });
        }
    }
    s
}

fn canonical_signatures() -> Vec<String> {
    vec![
        signature(&Piece::new_o()),
        signature(&Piece::new_l()),
        signature(&Piece::new_j()),
        signature(&Piece::new_t()),
        signature(&Piece::new_s()),
        signature(&Piece::new_z()),
        signature(&Piece::new_i()),
    ]
}

#[test]
fn fresh_bag_yields_each_piece_once() {
    let mut bag = PieceBag::new();
    let mut seen: Vec<String> = (0..7).map(|_| signature(&bag.pop())).collect();
    seen.sort();
    let mut expected = canonical_signatures();
    expected.sort();
    assert_eq!(seen, expected);
}

#[test]
fn peek_shows_what_pop_returns() {
    let mut bag = PieceBag::new();
    for _ in 0..20 {
        let next = signature(&bag.peek());
        assert_eq!(signature(&bag.pop()), next);
    }
}

#[test]
fn bag_refills_with_a_whole_set() {
    let mut bag = PieceBag::new();
    for _ in 0..7 {
        bag.pop();
    }
    let mut second: Vec<String> = (0..7).map(|_| signature(&bag.pop())).collect();
    second.sort();
    let mut expected = canonical_signatures();
    expected.sort();
    assert_eq!(second, expected);
}

#[test]
fn first_piece_frequency_is_uniform() {
    let mut counts: HashMap<String, usize> = HashMap::new();
    for _ in 0..1000 {
        let mut bag = PieceBag::new();
        *counts.entry(signature(&bag.pop())).or_insert(0) += 1;
    }
    assert_eq!(counts.len(), 7);
    for (_, n) in counts {
        assert!(n > 80 && n < 210, "count {}", n);
    }
}

fn drain_seven(bag: &mut PieceBag) -> Vec<String> {
    (0..7).map(|_| signature(&bag.pop())).collect()
}

#[test]
fn fill_bag_with_zero_draws_keeps_stock_order() {
    let mut bag = PieceBag::new();
    bag.fill_bag_with(&vec![0; 7]);
    drain_seven(&mut bag);
    assert_eq!(drain_seven(&mut bag), canonical_signatures());
}

#[test]
fn fill_bag_with_takes_draw_modulo_pieces_left() {
    let c = canonical_signatures();
    let mut bag = PieceBag::new();
    bag.fill_bag_with(&vec![6, 0, 7, 2, 100, 1, 5]);
    drain_seven(&mut bag);
    // pool O L J T S Z I: 6 -> I; O L J T S Z: 0 -> O; L J T S Z: 7 % 5 = 2 -> T;
    // L J S Z: 2 -> S; L J Z: 100 % 3 = 1 -> J; L Z: 1 -> Z; L: 5 % 1 = 0 -> L.
    let expected = vec![
        c[6].clone(),
        c[0].clone(),
        c[3].clone(),
        c[4].clone(),
        c[2].clone(),
        c[5].clone(),
        c[1].clone(),
    ];
    assert_eq!(drain_seven(&mut bag), expected);
}

#[test]
fn fill_bag_with_keeps_pieces_not_yet_taken() {
    let mut bag = PieceBag::new();
    let head = signature(&bag.peek());
    bag.fill_bag_with(&vec![3; 7]);
    assert_eq!(signature(&bag.pop()), head);
}
