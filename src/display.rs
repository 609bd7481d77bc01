//! A character-cell frame buffer and the terminal bytes that draw it.
use vstd::prelude::*;

use vstd::string::StringSliceAdditionalSpecFns;

use crate::util::Color;

verus! {

/// One character cell: the byte shown and its two colours.
#[derive(Debug, PartialEq, Eq, Structural, Copy, Clone)]
pub struct Pixel {
    pub c: u8,
    pub fg_color: Color,
    pub bg_color: Color,
}

/// A blank cell.
pub open spec fn blank() -> Pixel {
    Pixel { c: 32, fg_color: Color::Black, bg_color: Color::Black }
}

/// The 256-colour terminal code of a colour.
pub open spec fn color_code(color: Color) -> int {
    match color {
        Color::Cyan => 44,
        Color::Purple => 90,
        Color::Green => 2,
        Color::Red => 9,
        Color::Blue => 21,
        Color::Orange => 202,
        Color::Yellow => 226,
        Color::Black => 0,
    }
}

/// The decimal digits of `n`, in ASCII.
pub open spec fn decimal(n: nat) -> Seq<u8>
    decreases n,
{
    if n < 10 {
        seq![(48 + n) as u8]
    } else {
        decimal(n / 10).push((48 + n % 10) as u8)
    }
}

/// The control sequence introducer: escape, then `[`.
pub open spec fn csi() -> Seq<u8> {
    seq![27u8, 91u8]
}

/// The sequence that clears the screen.
pub open spec fn clear_screen_code() -> Seq<u8> {
    csi() + seq![50u8, 74u8]
}

/// The sequence that puts the cursor at column `x`, row `y`, both counted from
/// zero; the terminal counts from one.
pub open spec fn cursor_code(x: nat, y: nat) -> Seq<u8> {
    csi() + decimal(y + 1) + seq![59u8] + decimal(x + 1) + seq![72u8]
}

/// The sequence that sets the foreground colour.
pub open spec fn fg_code(color: Color) -> Seq<u8> {
    csi() + seq![51u8, 56u8, 59u8, 53u8, 59u8] + decimal(color_code(color) as nat) + seq![109u8]
}

/// The sequence that sets the background colour.
pub open spec fn bg_code(color: Color) -> Seq<u8> {
    csi() + seq![52u8, 56u8, 59u8, 53u8, 59u8] + decimal(color_code(color) as nat) + seq![109u8]
}

/// The bytes that draw pixel `p` when the terminal's colours are `fg` and
/// `bg`: a colour change only where the colour differs, then the byte.
pub open spec fn pixel_bytes(p: Pixel, fg: Color, bg: Color) -> Seq<u8> {
    (if p.fg_color != fg {
        fg_code(p.fg_color)
    } else {
        Seq::empty()
    }) + (if p.bg_color != bg {
        bg_code(p.bg_color)
    } else {
        Seq::empty()
    }) + seq![p.c]
}

/// The foreground colour after drawing `row` from foreground `fg`.
pub open spec fn fg_after(row: Seq<Pixel>, fg: Color) -> Color {
    if row.len() == 0 {
        fg
    } else {
        row.last().fg_color
    }
}

/// The background colour after drawing `row` from background `bg`.
pub open spec fn bg_after(row: Seq<Pixel>, bg: Color) -> Color {
    if row.len() == 0 {
        bg
    } else {
        row.last().bg_color
    }
}

/// The bytes that draw `row` from colours `fg` and `bg`.
pub open spec fn row_bytes(row: Seq<Pixel>, fg: Color, bg: Color) -> Seq<u8>
    decreases row.len(),
{
    if row.len() == 0 {
        Seq::empty()
    } else {
        pixel_bytes(row[0], fg, bg) + row_bytes(row.drop_first(), row[0].fg_color, row[0].bg_color)
    }
}

/// The bytes that draw `rows`, the first of them being row `y` of the screen,
/// from colours `fg` and `bg`; each row is followed by a move of the cursor to
/// the start of the next.
pub open spec fn rows_bytes(rows: Seq<Seq<Pixel>>, fg: Color, bg: Color, y: nat) -> Seq<u8>
    decreases rows.len(),
{
    if rows.len() == 0 {
        Seq::empty()
    } else {
        row_bytes(rows[0], fg, bg) + cursor_code(0, y + 1) + rows_bytes(
            rows.drop_first(),
            fg_after(rows[0], fg),
            bg_after(rows[0], bg),
            y + 1,
        )
    }
}

/// The bytes that draw the whole buffer on a cleared screen.
pub open spec fn frame_bytes(rows: Seq<Seq<Pixel>>) -> Seq<u8> {
    clear_screen_code() + cursor_code(0, 0) + rows_bytes(rows, Color::Black, Color::Black, 0)
}

/// `row` with the bytes of `text` written from column `x` on, as far as the
/// row reaches.
pub open spec fn written(row: Seq<Pixel>, text: Seq<u8>, x: int, fg: Color, bg: Color) -> Seq<Pixel> {
    Seq::new(
        row.len(),
        |i: int|
            if x <= i < x + text.len() {
                Pixel { c: text[i - x], fg_color: fg, bg_color: bg }
            } else {
                row[i]
            },
    )
}

/// The buffer `d` with the bytes `text` written into row `y` from column `x`
/// on, as far as the buffer reaches.
pub open spec fn text_written(d: Seq<Seq<Pixel>>, text: Seq<u8>, x: int, y: int, fg: Color, bg: Color) -> Seq<
    Seq<Pixel>,
> {
    if 0 <= y < d.len() {
        d.update(y, written(d[y], text, x, fg, bg))
    } else {
        d
    }
}

/// Whether two buffers have the same number of rows and each row the same
/// width.
pub open spec fn same_shape(a: Seq<Seq<Pixel>>, b: Seq<Seq<Pixel>>) -> bool {
    &&& a.len() == b.len()
    &&& forall|y: int| 0 <= y < a.len() ==> #[trigger] a[y].len() == b[y].len()
}

/// Writing a one-byte text changes the one pixel it lands on, if any.
pub proof fn lemma_one_byte_written(
    d0: Seq<Seq<Pixel>>,
    d1: Seq<Seq<Pixel>>,
    c: u8,
    x: int,
    y: int,
    fg: Color,
    bg: Color,
)
    requires
        0 <= x,
        0 <= y,
        d1 == text_written(d0, seq![c], x, y, fg, bg),
    ensures
        d1.len() == d0.len(),
        forall|yy: int| 0 <= yy < d0.len() ==> #[trigger] d1[yy].len() == d0[yy].len(),
        forall|yy: int, xx: int|
            0 <= yy < d0.len() && 0 <= xx < d0[yy].len() ==> #[trigger] d1[yy][xx] == if yy == y && xx == x {
                Pixel { c, fg_color: fg, bg_color: bg }
            } else {
                d0[yy][xx]
            },
{
}

/// Appends the decimal digits of `n`.
fn push_decimal(out: &mut Vec<u8>, n: u64)
    ensures
        final(out)@ == old(out)@ + decimal(n as nat),
    decreases n,
{
    if n < 10 {
        out.push(48 + n as u8);
        assert(final(out)@ =~= old(out)@ + decimal(n as nat)) by {
            assert(out@ =~= old(out)@ + decimal(n as nat));
        }
    } else {
        push_decimal(out, n / 10);
        out.push(48 + (n % 10) as u8);
        assert(out@ =~= old(out)@ + decimal(n as nat));
    }
}

/// Appends the control sequence introducer.
fn push_csi(out: &mut Vec<u8>)
    ensures
        final(out)@ == old(out)@ + csi(),
{
    out.push(27);
    out.push(91);
    assert(out@ =~= old(out)@ + csi());
}

/// A frame buffer of character cells.
pub struct Display {
    buffer: Vec<Vec<Pixel>>,
}

impl View for Display {
    type V = Seq<Seq<Pixel>>;

    closed spec fn view(&self) -> Seq<Seq<Pixel>> {
        Seq::new(self.buffer@.len(), |y: int| self.buffer@[y]@)
    }
}

impl Display {
    /// Whether every row of the buffer has the width of the first.
    pub open spec fn wf(&self) -> bool {
        &&& self@.len() <= u32::MAX
        &&& forall|y: int| 0 <= y < self@.len() ==> #[trigger] self@[y].len() == self@[0].len()
        &&& forall|y: int| 0 <= y < self@.len() ==> #[trigger] self@[y].len() <= u32::MAX
    }

    /// A blank buffer of `width` columns and `height` rows.
    pub fn new(width: u32, height: u32) -> (r: Display)
        ensures
            r.wf(),
            r@ == Seq::new(height as nat, |y: int| Seq::new(width as nat, |x: int| blank())),
    {
        let mut rows: Vec<Vec<Pixel>> = Vec::with_capacity(height as usize);
        let mut y: u32 = 0;
        while y < height
            invariant
                y <= height,
                rows@.len() == y,
                forall|k: int| 0 <= k < y ==> #[trigger] rows@[k]@ == Seq::new(width as nat, |x: int| blank()),
            decreases height - y,
        {
            let mut row: Vec<Pixel> = Vec::with_capacity(width as usize);
            let mut x: u32 = 0;
            while x < width
                invariant
                    x <= width,
                    row@ == Seq::new(x as nat, |i: int| blank()),
                decreases width - x,
            {
                row.push(Pixel { c: 32, fg_color: Color::Black, bg_color: Color::Black });
                x += 1;
                assert(row@ =~= Seq::new(x as nat, |i: int| blank()));
            }
            rows.push(row);
            y += 1;
        }
        let r = Display { buffer: rows };
        assert(r@ =~= Seq::new(height as nat, |y: int| Seq::new(width as nat, |x: int| blank())));
        r
    }

    /// The cell in column `x` of row `y`.
    pub fn pixel(&self, x: usize, y: usize) -> (r: Pixel)
        requires
            y < self@.len(),
            x < self@[y as int].len(),
        ensures
            r == self@[y as int][x as int],
    {
        assert(self@[y as int] == self.buffer@[y as int]@);
        self.buffer[y][x]
    }

    /// Sets the cell in column `x` of row `y`.
    fn set_pixel(&mut self, x: usize, y: usize, p: Pixel)
        requires
            y < old(self)@.len(),
            x < old(self)@[y as int].len(),
        ensures
            final(self)@ == old(self)@.update(y as int, old(self)@[y as int].update(x as int, p)),
    {
        assert(self@[y as int] == self.buffer@[y as int]@);
        self.buffer[y][x] = p;
        assert(self@ =~= old(self)@.update(y as int, old(self)@[y as int].update(x as int, p)));
    }

    /// Writes the bytes of `text` into row `y` from column `x` on, with the
    /// given colours. What falls outside the buffer is left out.
    pub fn set_text(&mut self, text: &str, x: u32, y: u32, fg_color: Color, bg_color: Color)
        requires
            old(self).wf(),
        ensures
            final(self).wf(),
            same_shape(final(self)@, old(self)@),
            final(self)@ == text_written(old(self)@, text.spec_bytes(), x as int, y as int, fg_color, bg_color),
    {
        if y as usize >= self.buffer.len() {
            return;
        }
        let bytes = text.as_bytes();
        let ghost start = self@;
        let ghost row0 = start[y as int];
        let yy = y as usize;
        let width = self.buffer[yy].len();
        assert(width == row0.len());
        let mut i: usize = 0;
        while i < bytes.len()
            invariant
                yy == y,
                yy < start.len(),
                width == row0.len(),
                row0 == start[y as int],
                start.len() == self@.len(),
                forall|k: int| 0 <= k < start.len() && k != yy ==> #[trigger] self@[k] == start[k],
                self@[yy as int] == written(row0, bytes@.subrange(0, i as int), x as int, fg_color, bg_color),
                i <= bytes@.len(),
            decreases bytes@.len() - i,
        {
            if (x as usize) < width && i < width - x as usize {
                self.set_pixel(x as usize + i, yy, Pixel { c: bytes[i], fg_color, bg_color });
            }
            i += 1;
            assert(self@[yy as int] =~= written(row0, bytes@.subrange(0, i as int), x as int, fg_color, bg_color));
        }
        assert(bytes@.subrange(0, i as int) =~= bytes@);
        assert(self@ =~= start.update(y as int, written(row0, text.spec_bytes(), x as int, fg_color, bg_color)));
    }

    /// Makes every cell blank.
    pub fn clear_buffer(&mut self)
        requires
            old(self).wf(),
        ensures
            final(self).wf(),
            final(self)@.len() == old(self)@.len(),
            forall|y: int|
                0 <= y < old(self)@.len() ==> #[trigger] final(self)@[y] == Seq::new(
                    old(self)@[y].len(),
                    |x: int| blank(),
                ),
    {
        let ghost start = self@;
        let mut row: usize = 0;
        while row < self.buffer.len()
            invariant
                self@.len() == start.len(),
                row <= start.len(),
                forall|k: int| 0 <= k < start.len() ==> #[trigger] self@[k].len() == start[k].len(),
                forall|k: int| 0 <= k < row ==> #[trigger] self@[k] == Seq::new(start[k].len(), |x: int| blank()),
            decreases start.len() - row,
        {
            let mut col: usize = 0;
            while col < self.buffer[row].len()
                invariant
                    self@.len() == start.len(),
                    row < start.len(),
                    col <= start[row as int].len(),
                    forall|k: int| 0 <= k < start.len() ==> #[trigger] self@[k].len() == start[k].len(),
                    forall|k: int| 0 <= k < row ==> #[trigger] self@[k] == Seq::new(start[k].len(), |x: int| blank()),
                    forall|i: int| 0 <= i < col ==> #[trigger] self@[row as int][i] == blank(),
                decreases start[row as int].len() - col,
            {
                self.set_pixel(col, row, Pixel { c: 32, fg_color: Color::Black, bg_color: Color::Black });
                col += 1;
            }
            assert(self@[row as int] =~= Seq::new(start[row as int].len(), |x: int| blank()));
            row += 1;
        }
    }

    /// The 256-colour terminal code of `color`.
    pub fn get_color_code(&self, color: Color) -> (r: i32)
        ensures
            r == color_code(color),
    {
        match color {
            Color::Cyan => 44,
            Color::Purple => 90,
            Color::Green => 2,
            Color::Red => 9,
            Color::Blue => 21,
            Color::Orange => 202,
            Color::Yellow => 226,
            Color::Black => 0,
        }
    }

    /// Appends the control sequence introducer and then `text`.
    pub fn esc(&self, text: &[u8], out: &mut Vec<u8>)
        ensures
            final(out)@ == old(out)@ + csi() + text@,
    {
        push_csi(out);
        let mut i: usize = 0;
        let ghost mid = out@;
        while i < text.len()
            invariant
                i <= text@.len(),
                out@ == mid + text@.subrange(0, i as int),
            decreases text@.len() - i,
        {
            out.push(text[i]);
            i += 1;
            assert(out@ =~= mid + text@.subrange(0, i as int));
        }
        assert(text@.subrange(0, i as int) =~= text@);
    }

    /// Appends the sequence that puts the cursor at column `x`, row `y`.
    pub fn set_cursor_pos(&self, x: u32, y: u32, out: &mut Vec<u8>)
        ensures
            final(out)@ == old(out)@ + cursor_code(x as nat, y as nat),
    {
        push_csi(out);
        push_decimal(out, y as u64 + 1);
        out.push(59);
        push_decimal(out, x as u64 + 1);
        out.push(72);
        assert(out@ =~= old(out)@ + cursor_code(x as nat, y as nat));
    }

    /// Appends the sequence that sets the foreground colour.
    pub fn set_fg_color(&self, color: Color, out: &mut Vec<u8>)
        ensures
            final(out)@ == old(out)@ + fg_code(color),
    {
        push_csi(out);
        out.push(51);
        out.push(56);
        out.push(59);
        out.push(53);
        out.push(59);
        push_decimal(out, self.get_color_code(color) as u64);
        out.push(109);
        assert(out@ =~= old(out)@ + fg_code(color));
    }

    /// Appends the sequence that sets the background colour.
    pub fn set_bg_color(&self, color: Color, out: &mut Vec<u8>)
        ensures
            final(out)@ == old(out)@ + bg_code(color),
    {
        push_csi(out);
        out.push(52);
        out.push(56);
        out.push(59);
        out.push(53);
        out.push(59);
        push_decimal(out, self.get_color_code(color) as u64);
        out.push(109);
        assert(out@ =~= old(out)@ + bg_code(color));
    }

    /// Appends the bytes that draw one pixel when the terminal's colours are
    /// `*fg` and `*bg`, and records the colours it leaves.
    fn push_pixel(&self, p: Pixel, fg: &mut Color, bg: &mut Color, out: &mut Vec<u8>)
        ensures
            final(out)@ == old(out)@ + pixel_bytes(p, *old(fg), *old(bg)),
            *final(fg) == p.fg_color,
            *final(bg) == p.bg_color,
    {
        if p.fg_color != *fg {
            *fg = p.fg_color;
            self.set_fg_color(p.fg_color, out);
        }
        let ghost mid = out@;
        if p.bg_color != *bg {
            *bg = p.bg_color;
            self.set_bg_color(p.bg_color, out);
        }
        let ghost mid2 = out@;
        out.push(p.c);
        assert(out@ =~= old(out)@ + pixel_bytes(p, *old(fg), *old(bg))) by {
            assert(out@ =~= mid2.push(p.c));
        }
    }

    /// Appends the bytes that draw `row` from colours `*fg` and `*bg`, and
    /// records the colours it leaves.
    fn push_row(&self, row: &Vec<Pixel>, fg: &mut Color, bg: &mut Color, out: &mut Vec<u8>)
        ensures
            final(out)@ == old(out)@ + row_bytes(row@, *old(fg), *old(bg)),
            *final(fg) == fg_after(row@, *old(fg)),
            *final(bg) == bg_after(row@, *old(bg)),
    {
        let ghost fg0 = *fg;
        let ghost bg0 = *bg;
        let ghost start = out@;
        let n = row.len();
        assert(row@.subrange(0, n as int) =~= row@);
        let mut x: usize = 0;
        while x < n
            invariant
                n == row@.len(),
                x <= n,
                out@ + row_bytes(row@.subrange(x as int, n as int), *fg, *bg) == start + row_bytes(row@, fg0, bg0),
                fg_after(row@.subrange(x as int, n as int), *fg) == fg_after(row@, fg0),
                bg_after(row@.subrange(x as int, n as int), *bg) == bg_after(row@, bg0),
            decreases n - x,
        {
            let p = row[x];
            let ghost prev = out@;
            let ghost fgp = *fg;
            let ghost bgp = *bg;
            self.push_pixel(p, fg, bg, out);
            proof {
                let sub = row@.subrange(x as int, n as int);
                assert(sub.drop_first() =~= row@.subrange(x as int + 1, n as int));
                assert(sub[0] == p);
                assert(out@ + row_bytes(row@.subrange(x as int + 1, n as int), *fg, *bg) =~= prev + row_bytes(
                    sub,
                    fgp,
                    bgp,
                ));
            }
            x += 1;
        }
        assert(row@.subrange(n as int, n as int) =~= Seq::<Pixel>::empty());
        assert(out@ =~= start + row_bytes(row@, fg0, bg0));
    }

    /// The bytes that clear the screen and draw the buffer: each pixel's byte,
    /// preceded by a colour change where its colour differs from the last one
    /// drawn, and a cursor move to the start of the next row after each row.
    pub fn frame(&self) -> (r: Vec<u8>)
        requires
            self.wf(),
        ensures
            r@ == frame_bytes(self@),
    {
        let ghost rows = self@;
        let ghost total = frame_bytes(rows);
        let mut out: Vec<u8> = Vec::new();
        push_csi(&mut out);
        out.push(50);
        out.push(74);
        self.set_cursor_pos(0, 0, &mut out);
        let mut fg = Color::Black;
        let mut bg = Color::Black;
        let height = self.buffer.len();
        assert(rows.subrange(0, height as int) =~= rows);
        assert(out@ =~= clear_screen_code() + cursor_code(0, 0));
        let mut y: usize = 0;
        while y < height
            invariant
                self.wf(),
                rows == self@,
                height == rows.len(),
                total == frame_bytes(rows),
                y <= height,
                out@ + rows_bytes(rows.subrange(y as int, height as int), fg, bg, y as nat) == total,
            decreases height - y,
        {
            let row = &self.buffer[y];
            assert(row@ == rows[y as int]);
            let ghost fg0 = fg;
            let ghost bg0 = bg;
            let ghost rest = rows.subrange(y as int + 1, height as int);
            let ghost before = out@;
            assert(rows.subrange(y as int, height as int).drop_first() =~= rest);
            assert(rows.subrange(y as int, height as int)[0] == row@);
            self.push_row(row, &mut fg, &mut bg, &mut out);
            let ghost prev = out@;
            self.set_cursor_pos(0, (y + 1) as u32, &mut out);
            y += 1;
            proof {
                assert(out@ + rows_bytes(rows.subrange(y as int, height as int), fg, bg, y as nat) =~= before
                    + rows_bytes(rows.subrange(y as int - 1, height as int), fg0, bg0, (y - 1) as nat));
            }
        }
        assert(rows.subrange(height as int, height as int) =~= Seq::<Seq<Pixel>>::empty());
        assert(out@ =~= total);
        out
    }
}

} // verus!
