use tetris::{Board, Color, Display, Game, Piece, Pixel, Point};

fn blank() -> Pixel {
    Pixel { c: b' ', fg_color: Color::Black, bg_color: Color::Black }
}

#[test]
fn new_display_is_blank() {
    let d = Display::new(3, 2);
    for y in 0..2 {
        for x in 0..3 {
            assert_eq!(d.pixel(x, y), blank());
        }
    }
}

#[test]
fn frame_of_blank_display() {
    let d = Display::new(3, 2);
    let expected: Vec<u8> = b"\x1b[2J\x1b[1;1H   \x1b[2;1H   \x1b[3;1H".to_vec();
    assert_eq!(d.frame(), expected);
}

#[test]
fn frame_emits_colour_changes_only_where_colour_changes() {
    let mut d = Display::new(3, 2);
    d.set_text("ab", 1, 0, Color::Red, Color::Black);
    let expected: Vec<u8> =
        b"\x1b[2J\x1b[1;1H \x1b[38;5;9mab\x1b[2;1H\x1b[38;5;0m   \x1b[3;1H".to_vec();
    assert_eq!(d.frame(), expected);
}

#[test]
fn set_text_writes_and_clips() {
    let mut d = Display::new(4, 2);
    d.set_text("xyz", 2, 1, Color::Green, Color::Blue);
    assert_eq!(d.pixel(2, 1), Pixel { c: b'x', fg_color: Color::Green, bg_color: Color::Blue });
    assert_eq!(d.pixel(3, 1), Pixel { c: b'y', fg_color: Color::Green, bg_color: Color::Blue });
    assert_eq!(d.pixel(1, 1), blank());
    d.set_text("q", 0, 5, Color::Red, Color::Red);
    d.clear_buffer();
    assert_eq!(d.pixel(2, 1), blank());
}

#[test]
fn escape_sequences() {
    let d = Display::new(1, 1);
    let mut out = Vec::new();
    d.set_cursor_pos(4, 9, &mut out);
    assert_eq!(out, b"\x1b[10;5H".to_vec());
    out.clear();
    d.set_fg_color(Color::Orange, &mut out);
    assert_eq!(out, b"\x1b[38;5;202m".to_vec());
    out.clear();
    d.set_bg_color(Color::Cyan, &mut out);
    assert_eq!(out, b"\x1b[48;5;44m".to_vec());
    out.clear();
    d.esc(b"2J", &mut out);
    assert_eq!(out, b"\x1b[2J".to_vec());
}

#[test]
fn colour_codes() {
    let d = Display::new(1, 1);
    assert_eq!(d.get_color_code(Color::Black), 0);
    assert_eq!(d.get_color_code(Color::Cyan), 44);
    assert_eq!(d.get_color_code(Color::Purple), 90);
    assert_eq!(d.get_color_code(Color::Green), 2);
    assert_eq!(d.get_color_code(Color::Red), 9);
    assert_eq!(d.get_color_code(Color::Blue), 21);
    assert_eq!(d.get_color_code(Color::Orange), 202);
    assert_eq!(d.get_color_code(Color::Yellow), 226);
}

#[test]
fn board_render_draws_walls_floor_and_cells() {
    let mut b = Board::new(10, 20);
    b.lock_piece(&Piece::new_o(), Point { x: 0, y: 18 });
    let mut d = Display::new(120, 22);
    b.render(&mut d);
    let wall = Pixel { c: b'|', fg_color: Color::Red, bg_color: Color::Black };
    assert_eq!(d.pixel(0, 1), blank());
    assert_eq!(d.pixel(0, 2), wall);
    assert_eq!(d.pixel(21, 19), wall);
    assert_eq!(d.pixel(5, 20), Pixel { c: b'-', fg_color: Color::Red, bg_color: Color::Black });
    let cell = Pixel { c: b' ', fg_color: Color::Yellow, bg_color: Color::Yellow };
    assert_eq!(d.pixel(1, 18), cell);
    assert_eq!(d.pixel(4, 19), cell);
    assert_eq!(d.pixel(5, 19), blank());
}

#[test]
fn game_render_draws_piece_and_labels() {
    let g = Game::new();
    let mut d = Display::new(120, 22);
    g.render(&mut d);
    assert_eq!(d.pixel(25, 3).c, b'L');
    assert_eq!(d.pixel(25, 7).c, b'N');
    let pos = g.piece_position();
    let (r, c) = g.current_piece().each_point()[0];
    let x = (1 + 2 * (pos.x + c)) as usize;
    let y = (pos.y + r) as usize;
    assert_eq!(d.pixel(x, y).bg_color, g.current_piece().color());
}
