//! The frame-rate readout: a label and a number drawn with 5 by 5 glyphs.

use vstd::prelude::*;
use crate::color::Color;
use crate::framebuffer::Framebuffer;

verus! {

/// Rows and columns of a glyph.
pub const GLYPH_SIZE: usize = 5;

/// Screen pixels per glyph dot, in each direction.
pub const GLYPH_SCALE: usize = 2;

/// The five rows of the glyph of `digit`, top row first, each row a mask of
/// five bits with the leftmost dot in the highest bit. Characters without a
/// glyph are blank.
pub open spec fn glyph(digit: char) -> Seq<u8> {
    if digit == '0' {
        seq![0b01110u8, 0b10001u8, 0b10001u8, 0b10001u8, 0b01110u8]
    } else if digit == '1' {
        seq![0b00100u8, 0b01100u8, 0b00100u8, 0b00100u8, 0b01110u8]
    } else if digit == '2' {
        seq![0b01110u8, 0b10001u8, 0b00110u8, 0b01000u8, 0b11111u8]
    } else if digit == '3' {
        seq![0b01110u8, 0b10001u8, 0b00110u8, 0b10001u8, 0b01110u8]
    } else if digit == '4' {
        seq![0b10001u8, 0b10001u8, 0b11111u8, 0b00001u8, 0b00001u8]
    } else if digit == '5' {
        seq![0b11111u8, 0b10000u8, 0b11110u8, 0b00001u8, 0b11110u8]
    } else if digit == '6' {
        seq![0b01110u8, 0b10000u8, 0b11110u8, 0b10001u8, 0b01110u8]
    } else if digit == '7' {
        seq![0b11111u8, 0b00001u8, 0b00010u8, 0b00100u8, 0b01000u8]
    } else if digit == '8' {
        seq![0b01110u8, 0b10001u8, 0b01110u8, 0b10001u8, 0b01110u8]
    } else if digit == '9' {
        seq![0b01110u8, 0b10001u8, 0b01111u8, 0b00001u8, 0b01110u8]
    } else if digit == '.' {
        seq![0b00000u8, 0b00000u8, 0b00000u8, 0b00110u8, 0b00110u8]
    } else if digit == 'F' {
        seq![0b11111u8, 0b10000u8, 0b11111u8, 0b10000u8, 0b10000u8]
    } else if digit == 'P' {
        seq![0b11110u8, 0b10001u8, 0b11110u8, 0b10000u8, 0b10000u8]
    } else if digit == 'S' {
        seq![0b01111u8, 0b10000u8, 0b01110u8, 0b00001u8, 0b11110u8]
    } else {
        seq![0b00000u8, 0b00000u8, 0b00000u8, 0b00000u8, 0b00000u8]
    }
}

/// The value of the bit of column `col` in a row mask.
pub open spec fn column_weight(col: int) -> int {
    if col == 0 {
        16
    } else if col == 1 {
        8
    } else if col == 2 {
        4
    } else if col == 3 {
        2
    } else {
        1
    }
}

/// Whether the glyph of `digit` has a dot in row `row`, column `col`.
pub open spec fn glyph_dot(digit: char, row: int, col: int) -> bool {
    &&& 0 <= row < GLYPH_SIZE
    &&& 0 <= col < GLYPH_SIZE
    &&& (glyph(digit)[row] as int / column_weight(col)) % 2 == 1
}

/// Whether the glyph of `digit`, drawn at some corner, covers the pixel at
/// offset `(ox, oy)` from that corner: each dot is a square of `GLYPH_SCALE`
/// pixels.
pub open spec fn glyph_covers(digit: char, ox: int, oy: int) -> bool {
    0 <= ox && 0 <= oy && glyph_dot(digit, oy / (GLYPH_SCALE as int), ox / (GLYPH_SCALE as int))
}

/// The rows of the glyph of `digit`.
fn glyph_rows(digit: char) -> (rows: [u8; 5])
    ensures
        rows@ == glyph(digit),
{
    let rows: [u8; 5] = match digit {
        '0' => [0b01110, 0b10001, 0b10001, 0b10001, 0b01110],
        '1' => [0b00100, 0b01100, 0b00100, 0b00100, 0b01110],
        '2' => [0b01110, 0b10001, 0b00110, 0b01000, 0b11111],
        '3' => [0b01110, 0b10001, 0b00110, 0b10001, 0b01110],
        '4' => [0b10001, 0b10001, 0b11111, 0b00001, 0b00001],
        '5' => [0b11111, 0b10000, 0b11110, 0b00001, 0b11110],
        '6' => [0b01110, 0b10000, 0b11110, 0b10001, 0b01110],
        '7' => [0b11111, 0b00001, 0b00010, 0b00100, 0b01000],
        '8' => [0b01110, 0b10001, 0b01110, 0b10001, 0b01110],
        '9' => [0b01110, 0b10001, 0b01111, 0b00001, 0b01110],
        '.' => [0b00000, 0b00000, 0b00000, 0b00110, 0b00110],
        'F' => [0b11111, 0b10000, 0b11111, 0b10000, 0b10000],
        'P' => [0b11110, 0b10001, 0b11110, 0b10000, 0b10000],
        'S' => [0b01111, 0b10000, 0b01110, 0b00001, 0b11110],
        _ => [0b00000, 0b00000, 0b00000, 0b00000, 0b00000],
    };
    assert(rows@ =~= glyph(digit));
    rows
}

/// Whether a row mask has its bit for column `col` set.
fn has_dot(mask: u8, col: usize) -> (dot: bool)
    requires
        col < GLYPH_SIZE,
    ensures
        dot == ((mask as int / column_weight(col as int)) % 2 == 1),
{
    let weight: u8 = if col == 0 {
        16
    } else if col == 1 {
        8
    } else if col == 2 {
        4
    } else if col == 3 {
        2
    } else {
        1
    };
    (mask / weight) % 2 == 1
}

/// Draws the glyph of `digit` in the current color with its top left corner
/// at `(x, y)`.
pub fn draw_digit(framebuffer: &mut Framebuffer, x: usize, y: usize, digit: char)
    requires
        old(framebuffer).wf(),
    ensures
        final(framebuffer).wf(),
        final(framebuffer).same_shape(old(framebuffer)),
        forall|px: int, py: int|
            old(framebuffer).in_frame(px, py) ==> #[trigger] final(framebuffer).pixel(px, py) == (
            if glyph_covers(digit, px - x, py - y) {
                old(framebuffer).current_color.hex()
            } else {
                old(framebuffer).pixel(px, py)
            }),
{
    let rows: [u8; 5] = glyph_rows(digit);
    let hex: u32 = framebuffer.current_color.to_hex();
    let mut row: usize = 0;
    while row < GLYPH_SIZE
        invariant
            row <= GLYPH_SIZE,
            rows@ == glyph(digit),
            hex == old(framebuffer).current_color.hex(),
            framebuffer.wf(),
            framebuffer.same_shape(old(framebuffer)),
            forall|px: int, py: int|
                old(framebuffer).in_frame(px, py) ==> #[trigger] framebuffer.pixel(px, py) == (
                if glyph_covers(digit, px - x, py - y) && (py - y) / 2 < row {
                    hex
                } else {
                    old(framebuffer).pixel(px, py)
                }),
        decreases GLYPH_SIZE - row,
    {
        let mask: u8 = rows[row];
        let mut col: usize = 0;
        while col < GLYPH_SIZE
            invariant
                row < GLYPH_SIZE,
                col <= GLYPH_SIZE,
                rows@ == glyph(digit),
                mask == glyph(digit)[row as int],
                hex == old(framebuffer).current_color.hex(),
                framebuffer.wf(),
                framebuffer.same_shape(old(framebuffer)),
                forall|px: int, py: int|
                    old(framebuffer).in_frame(px, py) ==> #[trigger] framebuffer.pixel(px, py)
                        == (if glyph_covers(digit, px - x, py - y) && ((py - y) / 2 < row || ((py
                        - y) / 2 == row && (px - x) / 2 < col)) {
                        hex
                    } else {
                        old(framebuffer).pixel(px, py)
                    }),
            decreases GLYPH_SIZE - col,
        {
            if has_dot(mask, col) {
                match (x.checked_add(col * GLYPH_SCALE), y.checked_add(row * GLYPH_SCALE)) {
                    (Some(xo), Some(yo)) => {
                        framebuffer.fill_rect(xo, yo, GLYPH_SCALE, GLYPH_SCALE, hex);
                    },
                    _ => {},
                }
            }
            col += 1;
        }
        row += 1;
    }
}

/// Pixels from one glyph of the readout to the next.
pub const GLYPH_PITCH: usize = 15;

/// The height of the readout's box, and its distance from the top and from
/// the right edge of the screen.
pub const BOX_HEIGHT: usize = 40;

pub const BOX_MARGIN: usize = 10;

/// The color of the readout's box.
pub open spec fn box_color() -> Color {
    Color { r: 0, g: 0, b: 255 }
}

/// The color of the readout's glyphs.
pub open spec fn text_color() -> Color {
    Color { r: 255, g: 255, b: 0 }
}

/// The character of a decimal digit.
pub open spec fn digit_char(d: int) -> char {
    (48 + d) as char
}

/// The decimal digits of `n`, most significant first.
pub open spec fn decimal(n: nat) -> Seq<char>
    decreases n,
{
    if n < 10 {
        seq![digit_char(n as int)]
    } else {
        decimal(n / 10).push(digit_char((n % 10) as int))
    }
}

/// The text of the readout for a frame rate given in hundredths of a frame
/// per second: the label, the whole frames, a point and two decimals.
pub open spec fn fps_text(hundredths: nat) -> Seq<char> {
    seq!['F', 'P', 'S', ':', ' '] + decimal(hundredths / 100) + seq![
        '.',
        digit_char((hundredths / 10 % 10) as int),
        digit_char((hundredths % 10) as int),
    ]
}

/// The width in pixels of the box around a text of `len` characters.
pub open spec fn box_width(len: int) -> int {
    len * GLYPH_PITCH + 20
}

/// What the readout shows at pixel `(x, y)` of a screen `width` pixels wide,
/// over a pixel that was `before`: a glyph of the text, else the box.
pub open spec fn readout_pixel(before: u32, text: Seq<char>, width: int, x: int, y: int) -> u32 {
    let left = width - box_width(text.len() as int) - BOX_MARGIN;
    let ox = x - (left + 10);
    let oy = y - (BOX_MARGIN + 15);
    if ox >= 0 && ox / (GLYPH_PITCH as int) < text.len() && glyph_covers(
        text[ox / (GLYPH_PITCH as int)],
        ox % (GLYPH_PITCH as int),
        oy,
    ) {
        text_color().hex()
    } else if left <= x < left + box_width(text.len() as int) && BOX_MARGIN <= y < BOX_MARGIN
        + BOX_HEIGHT {
        box_color().hex()
    } else {
        before
    }
}

/// The character of the decimal digit `d`.
fn digit_to_char(d: u64) -> (c: char)
    requires
        d < 10,
    ensures
        c == digit_char(d as int),
{
    (48u8 + d as u8) as char
}

/// Appends the decimal digits of `n` to `out`.
fn push_decimal(out: &mut Vec<char>, n: u64)
    ensures
        final(out)@ == old(out)@ + decimal(n as nat),
    decreases n,
{
    if n >= 10 {
        push_decimal(out, n / 10);
    }
    out.push(digit_to_char(n % 10));
    assert(out@ =~= old(out)@ + decimal(n as nat));
}

/// The text of the readout for a frame rate given in hundredths.
pub fn fps_label(hundredths: u64) -> (text: Vec<char>)
    ensures
        text@ == fps_text(hundredths as nat),
{
    let mut text: Vec<char> = Vec::new();
    text.push('F');
    text.push('P');
    text.push('S');
    text.push(':');
    text.push(' ');
    assert(text@ =~= seq!['F', 'P', 'S', ':', ' ']);
    push_decimal(&mut text, hundredths / 100);
    let ghost head = text@;
    text.push('.');
    text.push(digit_to_char(hundredths / 10 % 10));
    text.push(digit_to_char(hundredths % 10));
    assert(text@ =~= head + seq![
        '.',
        digit_char((hundredths / 10 % 10) as int),
        digit_char((hundredths % 10) as int),
    ]);
    text
}

/// Whether a screen `width` pixels wide has room for the readout of
/// `fps_hundredths` and its margin.
pub fn readout_fits(width: usize, fps_hundredths: u64) -> (ok: bool)
    ensures
        ok == (box_width(fps_text(fps_hundredths as nat).len() as int) + BOX_MARGIN <= width),
{
    let count: usize = fps_label(fps_hundredths).len();
    match count.checked_mul(GLYPH_PITCH) {
        Some(glyphs) => match glyphs.checked_add(20 + BOX_MARGIN) {
            Some(needed) => needed <= width,
            None => false,
        },
        None => false,
    }
}

/// Draws the frame-rate readout in the top right corner: a box, and in it
/// the text for `fps_hundredths`, one glyph every `GLYPH_PITCH` pixels.
pub fn render_fps(framebuffer: &mut Framebuffer, fps_hundredths: u64)
    requires
        old(framebuffer).wf(),
        box_width(fps_text(fps_hundredths as nat).len() as int) + BOX_MARGIN <= old(
            framebuffer,
        ).width,
    ensures
        final(framebuffer).wf(),
        final(framebuffer).width == old(framebuffer).width,
        final(framebuffer).height == old(framebuffer).height,
        final(framebuffer).background_color == old(framebuffer).background_color,
        final(framebuffer).current_color == text_color(),
        forall|x: int, y: int|
            old(framebuffer).in_frame(x, y) ==> #[trigger] final(framebuffer).pixel(x, y)
                == readout_pixel(
                old(framebuffer).pixel(x, y),
                fps_text(fps_hundredths as nat),
                old(framebuffer).width as int,
                x,
                y,
            ),
{
    let background = Color::new(0, 0, 255);
    let paint = Color::new(255, 255, 0);
    let text: Vec<char> = fps_label(fps_hundredths);
    let count: usize = text.len();
    let width: usize = count * GLYPH_PITCH + 20;
    let height: usize = BOX_HEIGHT;
    let start_x: usize = framebuffer.width - width - BOX_MARGIN;
    let start_y: usize = BOX_MARGIN;
    framebuffer.fill_rect(start_x, start_y, width, height, background.to_hex());
    let ghost filled = *framebuffer;
    framebuffer.set_current_color(paint);
    let ghost boxed = *framebuffer;
    assert forall|x: int, y: int| old(framebuffer).in_frame(x, y) implies #[trigger] boxed.pixel(
        x,
        y,
    ) == filled.pixel(x, y) by {}
    let mut i: usize = 0;
    while i < count
        invariant
            i <= count,
            count == text@.len(),
            text@ == fps_text(fps_hundredths as nat),
            width == box_width(count as int),
            start_x == old(framebuffer).width - width - BOX_MARGIN,
            start_y == BOX_MARGIN,
            framebuffer.wf(),
            framebuffer.width == old(framebuffer).width,
            framebuffer.height == old(framebuffer).height,
            framebuffer.background_color == old(framebuffer).background_color,
            framebuffer.current_color == text_color(),
            boxed.width == old(framebuffer).width,
            boxed.height == old(framebuffer).height,
            forall|x: int, y: int|
                old(framebuffer).in_frame(x, y) ==> #[trigger] framebuffer.pixel(x, y) == (if x
                    - (start_x + 10) >= 0 && (x - (start_x + 10)) / 15 < i && glyph_covers(
                    text@[(x - (start_x + 10)) / 15],
                    (x - (start_x + 10)) % 15,
                    y - 25,
                ) {
                    text_color().hex()
                } else {
                    boxed.pixel(x, y)
                }),
        decreases count - i,
    {
        let ch: char = text[i];
        let ghost before = *framebuffer;
        draw_digit(framebuffer, start_x + 10 + i * GLYPH_PITCH, start_y + 15, ch);
        proof {
            assert forall|x: int, y: int| old(framebuffer).in_frame(x, y) implies #[trigger] framebuffer.pixel(
                x,
                y,
            ) == (if x - (start_x + 10) >= 0 && (x - (start_x + 10)) / 15 < i + 1 && glyph_covers(
                text@[(x - (start_x + 10)) / 15],
                (x - (start_x + 10)) % 15,
                y - 25,
            ) {
                text_color().hex()
            } else {
                boxed.pixel(x, y)
            }) by {
                let ox = x - (start_x + 10);
                assert(framebuffer.pixel(x, y) == (if glyph_covers(ch, ox - i * 15, y - 25) {
                    text_color().hex()
                } else {
                    before.pixel(x, y)
                }));
            }
        }
        i += 1;
    }
}

} // verus!
