//! The minimap: the whole maze scaled into a square in the lower left corner
//! of the screen.

use vstd::prelude::*;
use crate::color::Color;
use crate::framebuffer::Framebuffer;
use crate::maze::{cell, has_cell};
use crate::player::{Player, SCALE};
use crate::topdown::lemma_tile_of_pixel;

verus! {

/// The distance in pixels of the minimap from the left edge of the screen,
/// and of its lower edge from the bottom of the screen.
pub const MINIMAP_MARGIN: usize = 10;

/// The color of a cell on the minimap.
pub open spec fn minimap_cell_color(c: char) -> Color {
    if c == '+' || c == '-' || c == '|' {
        Color { r: 100, g: 100, b: 100 }
    } else if c == 'p' {
        Color { r: 255, g: 0, b: 0 }
    } else if c == 'g' {
        Color { r: 0, g: 255, b: 0 }
    } else {
        Color { r: 200, g: 200, b: 200 }
    }
}

/// The color of the dot that marks the camera on the minimap.
pub open spec fn minimap_marker_color() -> Color {
    Color { r: 0, g: 0, b: 255 }
}

/// The side in pixels of one cell on the minimap: the minimap's side divided
/// by the larger of the number of rows and the length of the first row.
pub open spec fn minimap_scale(maze: Seq<Vec<char>>, minimap_size: int) -> int {
    if maze.len() >= maze[0]@.len() {
        minimap_size / (maze.len() as int)
    } else {
        minimap_size / (maze[0]@.len() as int)
    }
}

/// How far, in minimap pixels, the fixed-point world coordinate `f` is from
/// the minimap's corner: `f` in cells, times the side of a minimap cell,
/// rounded down; 0 for a negative coordinate.
pub open spec fn minimap_offset(f: int, block_size: int, scale: int) -> int {
    if f < 0 {
        0
    } else {
        f * scale / (SCALE * block_size)
    }
}

/// What the minimap shows at pixel `(x, y)` over a pixel that was `before`:
/// the camera's dot, else the cell of the maze that covers the pixel, if one
/// does.
pub open spec fn minimap_pixel(
    before: u32,
    player: Player,
    maze: Seq<Vec<char>>,
    framebuffer_height: int,
    minimap_size: int,
    block_size: int,
    x: int,
    y: int,
) -> u32 {
    let scale = minimap_scale(maze, minimap_size);
    let left = MINIMAP_MARGIN as int;
    let top = framebuffer_height - minimap_size - MINIMAP_MARGIN;
    if x == left + minimap_offset(player.x as int, block_size, scale) && y == top + minimap_offset(
        player.y as int,
        block_size,
        scale,
    ) {
        minimap_marker_color().hex()
    } else if scale > 0 && x >= left && y >= top && has_cell(
        maze,
        (y - top) / scale,
        (x - left) / scale,
    ) {
        minimap_cell_color(cell(maze, (y - top) / scale, (x - left) / scale)).hex()
    } else {
        before
    }
}

/// Computes `minimap_offset`, or nothing when it does not fit in a `usize`.
fn marker_offset(f: i64, block_size: usize, scale: usize) -> (r: Option<usize>)
    requires
        block_size > 0,
    ensures
        match r {
            Some(offset) => offset == minimap_offset(f as int, block_size as int, scale as int),
            None => minimap_offset(f as int, block_size as int, scale as int) > usize::MAX,
        },
{
    if f < 0 {
        return Some(0);
    }
    let wide_f: u128 = f as u128;
    let wide_scale: u128 = scale as u128;
    let wide_block: u128 = block_size as u128;
    assert(wide_f * wide_scale <= 0x7FFF_FFFF_FFFF_FFFF * 0xFFFF_FFFF_FFFF_FFFF) by (nonlinear_arith)
        requires
            wide_f <= 0x7FFF_FFFF_FFFF_FFFF,
            wide_scale <= 0xFFFF_FFFF_FFFF_FFFF,
    ;
    let offset: u128 = wide_f * wide_scale / (65536 * wide_block);
    if offset <= usize::MAX as u128 {
        Some(offset as usize)
    } else {
        None
    }
}

/// The corner of cell `index` on an axis of the minimap that starts at
/// `origin`, or nothing when it is beyond every screen.
fn cell_corner(origin: usize, index: usize, scale: usize) -> (r: Option<usize>)
    ensures
        match r {
            Some(corner) => corner == origin + index * scale,
            None => origin + index * scale > usize::MAX,
        },
{
    assert(0 <= index * scale) by (nonlinear_arith)
        requires
            0 <= index,
            0 <= scale,
    ;
    match index.checked_mul(scale) {
        Some(span) => origin.checked_add(span),
        None => None,
    }
}

/// Picks the minimap color of a cell.
fn minimap_color(c: char) -> (color: Color)
    ensures
        color == minimap_cell_color(c),
{
    match c {
        '+' | '-' | '|' => Color::new(100, 100, 100),
        'p' => Color::new(255, 0, 0),
        'g' => Color::new(0, 255, 0),
        _ => Color::new(200, 200, 200),
    }
}

/// Draws the minimap: every cell of the maze as a flat square, then the
/// camera as one dot. The squares start `MINIMAP_MARGIN` pixels from the left
/// edge, and `minimap_size + MINIMAP_MARGIN` pixels above row
/// `framebuffer_height`.
pub fn render_minimap(
    framebuffer: &mut Framebuffer,
    player: &Player,
    maze: &Vec<Vec<char>>,
    framebuffer_width: usize,
    framebuffer_height: usize,
    minimap_size: usize,
    block_size: usize,
)
    requires
        old(framebuffer).wf(),
        maze@.len() > 0,
        block_size > 0,
        minimap_size + MINIMAP_MARGIN <= framebuffer_height,
    ensures
        final(framebuffer).wf(),
        final(framebuffer).width == old(framebuffer).width,
        final(framebuffer).height == old(framebuffer).height,
        final(framebuffer).background_color == old(framebuffer).background_color,
        final(framebuffer).current_color == minimap_marker_color(),
        forall|x: int, y: int|
            old(framebuffer).in_frame(x, y) ==> #[trigger] final(framebuffer).pixel(x, y)
                == minimap_pixel(
                old(framebuffer).pixel(x, y),
                *player,
                maze@,
                framebuffer_height as int,
                minimap_size as int,
                block_size as int,
                x,
                y,
            ),
{
    let rows: usize = maze.len();
    let first_cols: usize = maze[0].len();
    let longest: usize = if rows >= first_cols {
        rows
    } else {
        first_cols
    };
    let scale: usize = minimap_size / longest;
    let left: usize = MINIMAP_MARGIN;
    let top: usize = framebuffer_height - minimap_size - MINIMAP_MARGIN;
    let mut row: usize = 0;
    while row < rows
        invariant
            row <= rows,
            rows == maze@.len(),
            scale == minimap_scale(maze@, minimap_size as int),
            left == MINIMAP_MARGIN,
            top == framebuffer_height - minimap_size - MINIMAP_MARGIN,
            framebuffer.wf(),
            framebuffer.width == old(framebuffer).width,
            framebuffer.height == old(framebuffer).height,
            framebuffer.background_color == old(framebuffer).background_color,
            forall|x: int, y: int|
                old(framebuffer).in_frame(x, y) ==> #[trigger] framebuffer.pixel(x, y) == (
                if scale > 0 && x >= left && y >= top && (y - top) / (scale as int) < row
                    && has_cell(maze@, (y - top) / (scale as int), (x - left) / (scale as int)) {
                    minimap_cell_color(
                        cell(maze@, (y - top) / (scale as int), (x - left) / (scale as int)),
                    ).hex()
                } else {
                    old(framebuffer).pixel(x, y)
                }),
        decreases rows - row,
    {
        let cols: usize = maze[row].len();
        let y0: Option<usize> = cell_corner(top, row, scale);
        let mut col: usize = 0;
        while col < cols
            invariant
                row < rows,
                col <= cols,
                rows == maze@.len(),
                cols == maze@[row as int]@.len(),
                scale == minimap_scale(maze@, minimap_size as int),
                left == MINIMAP_MARGIN,
                top == framebuffer_height - minimap_size - MINIMAP_MARGIN,
                match y0 {
                    Some(corner) => corner == top + row * scale,
                    None => top + row * scale > usize::MAX,
                },
                framebuffer.wf(),
                framebuffer.width == old(framebuffer).width,
                framebuffer.height == old(framebuffer).height,
                framebuffer.background_color == old(framebuffer).background_color,
                forall|x: int, y: int|
                    old(framebuffer).in_frame(x, y) ==> #[trigger] framebuffer.pixel(x, y) == (
                    if scale > 0 && x >= left && y >= top && ((y - top) / (scale as int) < row
                        || ((y - top) / (scale as int) == row && (x - left) / (scale as int)
                        < col)) && has_cell(
                        maze@,
                        (y - top) / (scale as int),
                        (x - left) / (scale as int),
                    ) {
                        minimap_cell_color(
                            cell(maze@, (y - top) / (scale as int), (x - left) / (scale as int)),
                        ).hex()
                    } else {
                        old(framebuffer).pixel(x, y)
                    }),
            decreases cols - col,
        {
            let c: char = maze[row][col];
            let color = minimap_color(c);
            let ghost head = *framebuffer;
            framebuffer.set_current_color(color);
            let ghost before = *framebuffer;
            let x0: Option<usize> = cell_corner(left, col, scale);
            match (x0, y0) {
                (Some(xo), Some(yo)) => {
                    framebuffer.fill_rect(xo, yo, scale, scale, color.to_hex());
                },
                _ => {},
            }
            proof {
                assert forall|x: int, y: int| old(framebuffer).in_frame(x, y) implies #[trigger] framebuffer.pixel(
                    x,
                    y,
                ) == (if scale > 0 && x >= left && y >= top && ((y - top) / (scale as int) < row
                    || ((y - top) / (scale as int) == row && (x - left) / (scale as int) < col
                    + 1)) && has_cell(
                    maze@,
                    (y - top) / (scale as int),
                    (x - left) / (scale as int),
                ) {
                    minimap_cell_color(
                        cell(maze@, (y - top) / (scale as int), (x - left) / (scale as int)),
                    ).hex()
                } else {
                    old(framebuffer).pixel(x, y)
                }) by {
                    let xo = left + col * scale;
                    let yo = top + row * scale;
                    let in_block = xo <= x < xo + scale && yo <= y < yo + scale;
                    assert(0 <= col * scale && 0 <= row * scale) by (nonlinear_arith)
                        requires
                            0 <= col,
                            0 <= row,
                            0 <= scale,
                    ;
                    if scale > 0 && x >= left && y >= top {
                        lemma_tile_of_pixel(x - left, col as int, scale as int);
                        lemma_tile_of_pixel(y - top, row as int, scale as int);
                        assert(in_block <==> ((x - left) / (scale as int) == col && (y - top) / (
                        scale as int) == row));
                    } else {
                        assert(!in_block);
                    }
                    assert(framebuffer.pixel(x, y) == (if in_block {
                        color.hex()
                    } else {
                        before.pixel(x, y)
                    }));
                    assert(before.pixel(x, y) == head.pixel(x, y));
                    if in_block {
                        assert(has_cell(maze@, row as int, col as int));
                        assert(cell(maze@, row as int, col as int) == c);
                    }
                }
            }
            col += 1;
        }
        proof {
            assert forall|x: int, y: int| old(framebuffer).in_frame(x, y) implies #[trigger] framebuffer.pixel(
                x,
                y,
            ) == (if scale > 0 && x >= left && y >= top && (y - top) / (scale as int) < row + 1
                && has_cell(maze@, (y - top) / (scale as int), (x - left) / (scale as int)) {
                minimap_cell_color(
                    cell(maze@, (y - top) / (scale as int), (x - left) / (scale as int)),
                ).hex()
            } else {
                old(framebuffer).pixel(x, y)
            }) by {}
        }
        row += 1;
    }
    let ghost tiled = *framebuffer;
    let marker = Color::new(0, 0, 255);
    framebuffer.set_current_color(marker);
    let ghost colored = *framebuffer;
    match (
        marker_offset(player.x, block_size, scale),
        marker_offset(player.y, block_size, scale),
    ) {
        (Some(dx), Some(dy)) => {
            framebuffer.point_offset(left, dx, top, dy, marker.to_hex());
        },
        _ => {},
    }
    proof {
        assert forall|x: int, y: int| old(framebuffer).in_frame(x, y) implies #[trigger] framebuffer.pixel(
            x,
            y,
        ) == minimap_pixel(
            old(framebuffer).pixel(x, y),
            *player,
            maze@,
            framebuffer_height as int,
            minimap_size as int,
            block_size as int,
            x,
            y,
        ) by {
            assert(colored.pixel(x, y) == tiled.pixel(x, y));
        }
    }
}

} // verus!
