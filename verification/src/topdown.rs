//! The top-down view: the maze as tiles, the camera as a dot, and the paths of
//! a few rays.

use vstd::prelude::*;
use crate::cast_ray::{cast_ray, on_path, ray_color, ray_stops, stop_index};
use crate::color::Color;
use crate::framebuffer::Framebuffer;
use crate::maze::{cell, fits, has_cell, MAX_EXTENT};
use crate::player::{pixel_of, to_pixel, Direction, Player};
use crate::texture::{sample, stretch, stretch_index, texel};

verus! {

/// The flat color of a cell in the top-down view.
pub open spec fn cell_color(cell: char) -> Color {
    if cell == '+' || cell == '-' || cell == '|' {
        Color { r: 0, g: 0, b: 0 }
    } else if cell == ' ' {
        Color { r: 87, g: 35, b: 100 }
    } else if cell == 'p' {
        Color { r: 0, g: 255, b: 0 }
    } else if cell == 'g' {
        Color { r: 255, g: 0, b: 0 }
    } else {
        Color { r: 255, g: 255, b: 255 }
    }
}

/// Picks the flat color of a cell: black for the three wall characters, and
/// a color of its own for open space, for the start, for the goal and for
/// everything else.
pub fn cell_to_color(cell: char) -> (color: Color)
    ensures
        color == cell_color(cell),
{
    match cell {
        '+' | '-' | '|' => Color::new(0, 0, 0),
        ' ' => Color::new(87, 35, 100),
        'p' => Color::new(0, 255, 0),
        'g' => Color::new(255, 0, 0),
        _ => Color::new(255, 255, 255),
    }
}

/// The texel shown at offset `(ox, oy)` inside a tile of `block_size` pixels:
/// the offset stretched onto the texture's dimensions.
pub open spec fn tile_texel(
    texture: Seq<u32>,
    tw: int,
    th: int,
    block_size: int,
    ox: int,
    oy: int,
) -> Option<u32> {
    texel(texture, tw, th, stretch(ox, tw, block_size), stretch(oy, th, block_size))
}

/// `pixel` painted over by `texel` if there is one.
pub open spec fn over(before: u32, texel: Option<u32>) -> u32 {
    match texel {
        Some(color) => color,
        None => before,
    }
}

/// Draws `texture`, stretched to `block_size` by `block_size` pixels, with
/// its top left corner at `(xo, yo)`. Pixels whose texel does not exist are
/// left as they were.
pub fn draw_cell_with_texture(
    framebuffer: &mut Framebuffer,
    xo: usize,
    yo: usize,
    block_size: usize,
    texture: &[u32],
    texture_width: usize,
    texture_height: usize,
)
    requires
        old(framebuffer).wf(),
    ensures
        final(framebuffer).wf(),
        final(framebuffer).same_shape(old(framebuffer)),
        forall|px: int, py: int|
            old(framebuffer).in_frame(px, py) ==> #[trigger] final(framebuffer).pixel(px, py) == (
            if xo <= px < xo + block_size && yo <= py < yo + block_size {
                over(
                    old(framebuffer).pixel(px, py),
                    tile_texel(
                        texture@,
                        texture_width as int,
                        texture_height as int,
                        block_size as int,
                        px - xo,
                        py - yo,
                    ),
                )
            } else {
                old(framebuffer).pixel(px, py)
            }),
{
    let mut x: usize = 0;
    while x < block_size
        invariant
            x <= block_size,
            framebuffer.wf(),
            framebuffer.same_shape(old(framebuffer)),
            forall|px: int, py: int|
                old(framebuffer).in_frame(px, py) ==> #[trigger] framebuffer.pixel(px, py) == (
                if xo <= px < xo + x && yo <= py < yo + block_size {
                    over(
                        old(framebuffer).pixel(px, py),
                        tile_texel(
                            texture@,
                            texture_width as int,
                            texture_height as int,
                            block_size as int,
                            px - xo,
                            py - yo,
                        ),
                    )
                } else {
                    old(framebuffer).pixel(px, py)
                }),
        decreases block_size - x,
    {
        let tx: usize = stretch_index(x, texture_width, block_size);
        let mut y: usize = 0;
        while y < block_size
            invariant
                x < block_size,
                y <= block_size,
                tx == stretch(x as int, texture_width as int, block_size as int),
                framebuffer.wf(),
                framebuffer.same_shape(old(framebuffer)),
                forall|px: int, py: int|
                    old(framebuffer).in_frame(px, py) ==> #[trigger] framebuffer.pixel(px, py)
                        == (if yo <= py < yo + block_size && (xo <= px < xo + x || (px == xo + x
                        && py < yo + y)) {
                        over(
                            old(framebuffer).pixel(px, py),
                            tile_texel(
                                texture@,
                                texture_width as int,
                                texture_height as int,
                                block_size as int,
                                px - xo,
                                py - yo,
                            ),
                        )
                    } else {
                        old(framebuffer).pixel(px, py)
                    }),
            decreases block_size - y,
        {
            let ty: usize = stretch_index(y, texture_height, block_size);
            match sample(texture, texture_width, texture_height, tx, ty) {
                Some(color) => {
                    framebuffer.point_offset(xo, x, yo, y, color);
                },
                None => {},
            }
            y += 1;
        }
        x += 1;
    }
}

/// Pixel coordinate `x` lies in tile `c` exactly when `x / block_size` is `c`.
pub proof fn lemma_tile_of_pixel(x: int, c: int, block_size: int)
    requires
        0 <= x,
        0 <= c,
        block_size > 0,
    ensures
        (c * block_size <= x < c * block_size + block_size) <==> x / block_size == c,
{
    let q = x / block_size;
    assert(q * block_size <= x < q * block_size + block_size && 0 <= q) by (nonlinear_arith)
        requires
            q == x / block_size,
            0 <= x,
            block_size > 0,
    ;
    if c < q {
        assert(c * block_size + block_size <= q * block_size) by (nonlinear_arith)
            requires
                c + 1 <= q,
                block_size > 0,
        ;
    } else if q < c {
        assert(q * block_size + block_size <= c * block_size) by (nonlinear_arith)
            requires
                q + 1 <= c,
                block_size > 0,
        ;
    }
}

/// What a tile of character `c` shows at offset `(ox, oy)` over a pixel that
/// was `before`: the three wall characters are textured, and every other
/// cell, open space included, is filled with its flat color.
pub open spec fn cell_pixel(
    before: u32,
    c: char,
    block_size: int,
    wall_texture_1: Seq<u32>,
    wall_texture_2: Seq<u32>,
    wall_texture_3: Seq<u32>,
    tw: int,
    th: int,
    ox: int,
    oy: int,
) -> u32 {
    if c == '+' {
        over(before, tile_texel(wall_texture_1, tw, th, block_size, ox, oy))
    } else if c == '-' {
        over(before, tile_texel(wall_texture_2, tw, th, block_size, ox, oy))
    } else if c == '|' {
        over(before, tile_texel(wall_texture_3, tw, th, block_size, ox, oy))
    } else {
        cell_color(c).hex()
    }
}

/// What the tiles of the maze show at pixel `(x, y)`: the cell in row
/// `y / block_size` and column `x / block_size`, if the maze has one.
pub open spec fn tile_pixel(
    before: u32,
    maze: Seq<Vec<char>>,
    block_size: int,
    wall_texture_1: Seq<u32>,
    wall_texture_2: Seq<u32>,
    wall_texture_3: Seq<u32>,
    tw: int,
    th: int,
    x: int,
    y: int,
) -> u32 {
    let row = y / block_size;
    let col = x / block_size;
    if has_cell(maze, row, col) {
        cell_pixel(
            before,
            cell(maze, row, col),
            block_size,
            wall_texture_1,
            wall_texture_2,
            wall_texture_3,
            tw,
            th,
            x - col * block_size,
            y - row * block_size,
        )
    } else {
        before
    }
}

/// Draws every cell of the maze as a tile of `block_size` by `block_size`
/// pixels, the cell in row `r` and column `c` at `(c * block_size,
/// r * block_size)`.
pub fn draw_tiles(
    framebuffer: &mut Framebuffer,
    maze: &Vec<Vec<char>>,
    block_size: usize,
    wall_texture_1: &[u32],
    wall_texture_2: &[u32],
    wall_texture_3: &[u32],
    texture_width: usize,
    texture_height: usize,
)
    requires
        old(framebuffer).wf(),
        block_size > 0,
        fits(maze@, block_size as int),
    ensures
        final(framebuffer).wf(),
        final(framebuffer).same_shape(old(framebuffer)),
        forall|x: int, y: int|
            old(framebuffer).in_frame(x, y) ==> #[trigger] final(framebuffer).pixel(x, y)
                == tile_pixel(
                old(framebuffer).pixel(x, y),
                maze@,
                block_size as int,
                wall_texture_1@,
                wall_texture_2@,
                wall_texture_3@,
                texture_width as int,
                texture_height as int,
                x,
                y,
            ),
{
    let rows: usize = maze.len();
    let mut row: usize = 0;
    while row < rows
        invariant
            row <= rows,
            rows == maze@.len(),
            block_size > 0,
            fits(maze@, block_size as int),
            framebuffer.wf(),
            framebuffer.same_shape(old(framebuffer)),
            forall|x: int, y: int|
                old(framebuffer).in_frame(x, y) ==> #[trigger] framebuffer.pixel(x, y) == (if y
                    / (block_size as int) < row {
                    tile_pixel(
                        old(framebuffer).pixel(x, y),
                        maze@,
                        block_size as int,
                        wall_texture_1@,
                        wall_texture_2@,
                        wall_texture_3@,
                        texture_width as int,
                        texture_height as int,
                        x,
                        y,
                    )
                } else {
                    old(framebuffer).pixel(x, y)
                }),
        decreases rows - row,
    {
        let cols: usize = maze[row].len();
        let mut col: usize = 0;
        assert(rows * block_size <= MAX_EXTENT);
        assert(row * block_size <= rows * block_size) by (nonlinear_arith)
            requires
                row <= rows,
                block_size >= 0,
        ;
        let yo: usize = row * block_size;
        while col < cols
            invariant
                row < rows,
                col <= cols,
                rows == maze@.len(),
                cols == maze@[row as int]@.len(),
                cols * block_size <= MAX_EXTENT,
                yo == row * block_size,
                block_size > 0,
                framebuffer.wf(),
                framebuffer.same_shape(old(framebuffer)),
                forall|x: int, y: int|
                    old(framebuffer).in_frame(x, y) ==> #[trigger] framebuffer.pixel(x, y) == (
                    if y / (block_size as int) < row || (y / (block_size as int) == row && x / (
                    block_size as int) < col) {
                        tile_pixel(
                            old(framebuffer).pixel(x, y),
                            maze@,
                            block_size as int,
                            wall_texture_1@,
                            wall_texture_2@,
                            wall_texture_3@,
                            texture_width as int,
                            texture_height as int,
                            x,
                            y,
                        )
                    } else {
                        old(framebuffer).pixel(x, y)
                    }),
            decreases cols - col,
        {
            let c: char = maze[row][col];
            assert(col * block_size <= cols * block_size) by (nonlinear_arith)
                requires
                    col <= cols,
                    block_size >= 0,
            ;
            let xo: usize = col * block_size;
            let ghost before = *framebuffer;
            if c == '+' {
                draw_cell_with_texture(
                    framebuffer,
                    xo,
                    yo,
                    block_size,
                    wall_texture_1,
                    texture_width,
                    texture_height,
                );
            } else if c == '-' {
                draw_cell_with_texture(
                    framebuffer,
                    xo,
                    yo,
                    block_size,
                    wall_texture_2,
                    texture_width,
                    texture_height,
                );
            } else if c == '|' {
                draw_cell_with_texture(
                    framebuffer,
                    xo,
                    yo,
                    block_size,
                    wall_texture_3,
                    texture_width,
                    texture_height,
                );
            } else {
                let hex: u32 = cell_to_color(c).to_hex();
                framebuffer.fill_rect(xo, yo, block_size, block_size, hex);
            }
            proof {
                assert forall|x: int, y: int| old(framebuffer).in_frame(x, y) implies #[trigger] framebuffer.pixel(
                    x,
                    y,
                ) == (if y / (block_size as int) < row || (y / (block_size as int) == row && x / (
                block_size as int) < col + 1) {
                    tile_pixel(
                        old(framebuffer).pixel(x, y),
                        maze@,
                        block_size as int,
                        wall_texture_1@,
                        wall_texture_2@,
                        wall_texture_3@,
                        texture_width as int,
                        texture_height as int,
                        x,
                        y,
                    )
                } else {
                    old(framebuffer).pixel(x, y)
                }) by {
                    lemma_tile_of_pixel(x, col as int, block_size as int);
                    lemma_tile_of_pixel(y, row as int, block_size as int);
                    let bs = block_size as int;
                    let in_block = xo <= x < xo + bs && yo <= y < yo + bs;
                    assert(in_block <==> (x / bs == col && y / bs == row));
                    if in_block {
                        assert(has_cell(maze@, row as int, col as int));
                        assert(cell(maze@, row as int, col as int) == c);
                        assert(before.pixel(x, y) == old(framebuffer).pixel(x, y));
                        assert(framebuffer.pixel(x, y) == cell_pixel(
                            old(framebuffer).pixel(x, y),
                            c,
                            bs,
                            wall_texture_1@,
                            wall_texture_2@,
                            wall_texture_3@,
                            texture_width as int,
                            texture_height as int,
                            x - xo,
                            y - yo,
                        ));
                    } else {
                        assert(framebuffer.pixel(x, y) == before.pixel(x, y));
                    }
                }
            }
            col += 1;
        }
        proof {
            assert forall|x: int, y: int| old(framebuffer).in_frame(x, y) implies #[trigger] framebuffer.pixel(
                x,
                y,
            ) == (if y / (block_size as int) < row + 1 {
                tile_pixel(
                    old(framebuffer).pixel(x, y),
                    maze@,
                    block_size as int,
                    wall_texture_1@,
                    wall_texture_2@,
                    wall_texture_3@,
                    texture_width as int,
                    texture_height as int,
                    x,
                    y,
                )
            } else {
                old(framebuffer).pixel(x, y)
            }) by {
                assert(0 <= x / (block_size as int)) by (nonlinear_arith)
                    requires
                        0 <= x,
                        block_size > 0,
                ;
            }
        }
        row += 1;
    }
    proof {
        assert forall|x: int, y: int| old(framebuffer).in_frame(x, y) implies #[trigger] framebuffer.pixel(
            x,
            y,
        ) == tile_pixel(
            old(framebuffer).pixel(x, y),
            maze@,
            block_size as int,
            wall_texture_1@,
            wall_texture_2@,
            wall_texture_3@,
            texture_width as int,
            texture_height as int,
            x,
            y,
        ) by {
            assert(0 <= x / (block_size as int)) by (nonlinear_arith)
                requires
                    0 <= x,
                    block_size > 0,
            ;
            assert(0 <= y / (block_size as int)) by (nonlinear_arith)
                requires
                    0 <= y,
                    block_size > 0,
            ;
        }
    }
}

/// The number of rays whose paths the top-down view is meant to show.
pub const DEBUG_RAYS: usize = 5;

/// The color of the dot that marks the camera in the top-down view.
pub open spec fn marker_color() -> Color {
    Color { r: 255, g: 255, b: 0 }
}

/// Whether pixel `(x, y)` lies on the painted path of ray `r`: it is one of
/// the samples before the one at which the ray stops.
pub open spec fn ray_paints(
    maze: Seq<Vec<char>>,
    player: Player,
    rays: Seq<Direction>,
    block_size: int,
    r: int,
    x: int,
    y: int,
) -> bool {
    on_path(player, rays[r], stop_index(maze, player, rays[r], block_size), x, y)
}

/// Whether pixel `(x, y)` lies on the painted path of one of the first `n`
/// rays.
pub open spec fn on_any_path(
    maze: Seq<Vec<char>>,
    player: Player,
    rays: Seq<Direction>,
    block_size: int,
    n: int,
    x: int,
    y: int,
) -> bool {
    exists|r: int| 0 <= r < n && #[trigger] ray_paints(maze, player, rays, block_size, r, x, y)
}

/// What the top-down view shows at pixel `(x, y)`: the path of a ray, else
/// the camera's dot, else the tile of the maze.
pub open spec fn top_down_pixel(
    before: u32,
    player: Player,
    rays: Seq<Direction>,
    maze: Seq<Vec<char>>,
    block_size: int,
    wall_texture_1: Seq<u32>,
    wall_texture_2: Seq<u32>,
    wall_texture_3: Seq<u32>,
    tw: int,
    th: int,
    x: int,
    y: int,
) -> u32 {
    if on_any_path(maze, player, rays, block_size, rays.len() as int, x, y) {
        ray_color().hex()
    } else if x == to_pixel(player.x as int) && y == to_pixel(player.y as int) {
        marker_color().hex()
    } else {
        tile_pixel(
            before,
            maze,
            block_size,
            wall_texture_1,
            wall_texture_2,
            wall_texture_3,
            tw,
            th,
            x,
            y,
        )
    }
}

/// Draws the top-down view: the tiles of the maze, then the camera as one
/// dot, then the path of every ray in `rays` from the camera to the cell that
/// stops it. Callers pass `DEBUG_RAYS` rays spread over the field of view.
pub fn render2d(
    framebuffer: &mut Framebuffer,
    player: &Player,
    rays: &Vec<Direction>,
    maze: &Vec<Vec<char>>,
    block_size: usize,
    wall_texture_1: &[u32],
    wall_texture_2: &[u32],
    wall_texture_3: &[u32],
    texture_width: usize,
    texture_height: usize,
)
    requires
        old(framebuffer).wf(),
        block_size > 0,
        fits(maze@, block_size as int),
        forall|i: int|
            0 <= i < rays@.len() ==> (#[trigger] rays@[i]).wf() && ray_stops(
                maze@,
                *player,
                rays@[i],
                block_size as int,
            ),
    ensures
        final(framebuffer).wf(),
        final(framebuffer).width == old(framebuffer).width,
        final(framebuffer).height == old(framebuffer).height,
        final(framebuffer).background_color == old(framebuffer).background_color,
        final(framebuffer).current_color == (if rays@.len() == 0 {
            marker_color()
        } else {
            ray_color()
        }),
        forall|x: int, y: int|
            old(framebuffer).in_frame(x, y) ==> #[trigger] final(framebuffer).pixel(x, y)
                == top_down_pixel(
                old(framebuffer).pixel(x, y),
                *player,
                rays@,
                maze@,
                block_size as int,
                wall_texture_1@,
                wall_texture_2@,
                wall_texture_3@,
                texture_width as int,
                texture_height as int,
                x,
                y,
            ),
{
    draw_tiles(
        framebuffer,
        maze,
        block_size,
        wall_texture_1,
        wall_texture_2,
        wall_texture_3,
        texture_width,
        texture_height,
    );
    let ghost drawn = *framebuffer;
    let marker = Color::new(255, 255, 0);
    framebuffer.set_current_color(marker);
    let px: u64 = pixel_of(player.x);
    let py: u64 = pixel_of(player.y);
    let ghost tiled = *framebuffer;
    if px <= usize::MAX as u64 && py <= usize::MAX as u64 {
        framebuffer.point(px as usize, py as usize, marker.to_hex());
    }
    let ghost marked = *framebuffer;
    assert forall|x: int, y: int| old(framebuffer).in_frame(x, y) implies #[trigger] marked.pixel(
        x,
        y,
    ) == (if x == to_pixel(player.x as int) && y == to_pixel(player.y as int) {
        marker_color().hex()
    } else {
        tile_pixel(
            old(framebuffer).pixel(x, y),
            maze@,
            block_size as int,
            wall_texture_1@,
            wall_texture_2@,
            wall_texture_3@,
            texture_width as int,
            texture_height as int,
            x,
            y,
        )
    }) by {
        assert(tiled.pixel(x, y) == drawn.pixel(x, y));
    }
    let num_rays: usize = rays.len();
    let mut i: usize = 0;
    while i < num_rays
        invariant
            i <= num_rays,
            num_rays == rays@.len(),
            block_size > 0,
            fits(maze@, block_size as int),
            forall|r: int|
                0 <= r < rays@.len() ==> (#[trigger] rays@[r]).wf() && ray_stops(
                    maze@,
                    *player,
                    rays@[r],
                    block_size as int,
                ),
            framebuffer.wf(),
            framebuffer.width == old(framebuffer).width,
            framebuffer.height == old(framebuffer).height,
            framebuffer.background_color == old(framebuffer).background_color,
            framebuffer.current_color == (if i == 0 {
                marker_color()
            } else {
                ray_color()
            }),
            marked.width == old(framebuffer).width,
            marked.height == old(framebuffer).height,
            forall|x: int, y: int|
                old(framebuffer).in_frame(x, y) ==> #[trigger] framebuffer.pixel(x, y) == (
                if on_any_path(maze@, *player, rays@, block_size as int, i as int, x, y) {
                    ray_color().hex()
                } else {
                    marked.pixel(x, y)
                }),
        decreases num_rays - i,
    {
        let ray: Direction = rays[i];
        let ghost before = *framebuffer;
        cast_ray(framebuffer, maze, player, ray, block_size, true);
        proof {
            assert forall|x: int, y: int| old(framebuffer).in_frame(x, y) implies #[trigger] framebuffer.pixel(
                x,
                y,
            ) == (if on_any_path(maze@, *player, rays@, block_size as int, i + 1, x, y) {
                ray_color().hex()
            } else {
                marked.pixel(x, y)
            }) by {
                let here = ray_paints(maze@, *player, rays@, block_size as int, i as int, x, y);
                assert(framebuffer.pixel(x, y) == (if here {
                    ray_color().hex()
                } else {
                    before.pixel(x, y)
                }));
                if on_any_path(maze@, *player, rays@, block_size as int, i as int, x, y) {
                    let r = choose|r: int|
                        0 <= r < i && #[trigger] ray_paints(
                            maze@,
                            *player,
                            rays@,
                            block_size as int,
                            r,
                            x,
                            y,
                        );
                    assert(0 <= r < i + 1 && ray_paints(
                        maze@,
                        *player,
                        rays@,
                        block_size as int,
                        r,
                        x,
                        y,
                    ));
                }
                if here {
                    assert(0 <= i < i + 1 && ray_paints(
                        maze@,
                        *player,
                        rays@,
                        block_size as int,
                        i as int,
                        x,
                        y,
                    ));
                }
                if on_any_path(maze@, *player, rays@, block_size as int, i + 1, x, y) {
                    let r = choose|r: int|
                        0 <= r < i + 1 && #[trigger] ray_paints(
                            maze@,
                            *player,
                            rays@,
                            block_size as int,
                            r,
                            x,
                            y,
                        );
                    if r < i {
                        assert(on_any_path(maze@, *player, rays@, block_size as int, i as int, x, y));
                    }
                }
            }
        }
        i += 1;
    }
}

} // verus!
