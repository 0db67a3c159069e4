//! The first-person view: one vertical slice of wall per ray.

use vstd::prelude::*;
use crate::cast_ray::{cast_ray, ray_color, ray_hit, ray_stops, Intersect};
use crate::color::Color;
use crate::framebuffer::Framebuffer;
use crate::maze::fits;
use crate::player::{Direction, Player};
use crate::texture::{sample, stretch, stretch_index, texel};

verus! {

/// The distance from the eye to the plane that walls are projected onto.
pub const PROJECTION_PLANE_DISTANCE: u64 = 60;

/// Distances up to this bound can be projected without overflow.
pub const MAX_DISTANCE: u64 = 0x4000_0000_0000_0000;

/// The height in pixels of a wall at distance `d` seen on a screen of height
/// `h` through a projection plane at distance `p`: half the screen height,
/// divided by `d`, times `p`, rounded down.
pub open spec fn stake_height(h: int, d: int, p: int) -> int {
    h * p / (2 * d)
}

/// The first row of the slice: half the stake height above mid-screen, not
/// above row 0, rounded down. A wall at distance 0 fills the column.
pub open spec fn stake_top(h: int, d: int, p: int) -> int {
    if 2 * d <= p {
        0
    } else {
        h * (2 * d - p) / (4 * d)
    }
}

/// The row after the last row of the slice: half the stake height below
/// mid-screen, not below the screen, rounded down.
pub open spec fn stake_bottom(h: int, d: int, p: int) -> int {
    if d == 0 || h * (2 * d + p) / (4 * d) > h {
        h
    } else {
        h * (2 * d + p) / (4 * d)
    }
}

/// Of two fractions with positive denominators, the one that is smaller as a
/// rational is not larger when rounded down.
pub proof fn lemma_floor_order(a1: int, b1: int, a2: int, b2: int)
    requires
        0 < b1,
        0 < b2,
        a1 * b2 <= a2 * b1,
    ensures
        a1 / b1 <= a2 / b2,
{
    let q1 = a1 / b1;
    let q2 = a2 / b2;
    assert(q1 * b1 <= a1 && a2 < (q2 + 1) * b2) by (nonlinear_arith)
        requires
            q1 == a1 / b1,
            q2 == a2 / b2,
            0 < b1,
            0 < b2,
    ;
    assert(q1 < q2 + 1) by (nonlinear_arith)
        requires
            q1 * b1 <= a1,
            a2 < (q2 + 1) * b2,
            a1 * b2 <= a2 * b1,
            0 < b1,
            0 < b2,
    {
        if q1 >= q2 + 1 {
            assert(q1 * b1 * b2 >= (q2 + 1) * b2 * b1);
            assert(a1 * b2 >= q1 * b1 * b2);
            assert(a2 * b1 < (q2 + 1) * b2 * b1);
        }
    }
}

/// The nearer of two walls is drawn at least as tall: its stake is at least
/// as high, starts no lower and ends no higher on the screen, so that every
/// row of the farther wall's slice is a row of the nearer wall's slice.
pub proof fn lemma_nearer_wall_is_taller(h: int, d1: int, d2: int, p: int)
    requires
        0 <= h,
        0 <= p,
        0 < d1 < d2,
    ensures
        stake_height(h, d1, p) >= stake_height(h, d2, p),
        stake_top(h, d1, p) <= stake_top(h, d2, p),
        stake_bottom(h, d1, p) >= stake_bottom(h, d2, p),
        stake_bottom(h, d1, p) - stake_top(h, d1, p) >= stake_bottom(h, d2, p) - stake_top(
            h,
            d2,
            p,
        ),
        forall|y: int| in_stake(h, d2, p, y) ==> in_stake(h, d1, p, y),
{
    assert((h * p) * (2 * d1) <= (h * p) * (2 * d2)) by (nonlinear_arith)
        requires
            0 <= h,
            0 <= p,
            0 < d1 < d2,
    ;
    lemma_floor_order(h * p, 2 * d2, h * p, 2 * d1);
    if 2 * d1 > p {
        assert((h * (2 * d1 - p)) * (4 * d2) <= (h * (2 * d2 - p)) * (4 * d1)) by (nonlinear_arith)
            requires
                0 <= h,
                0 <= p,
                0 < d1 < d2,
        ;
        lemma_floor_order(h * (2 * d1 - p), 4 * d1, h * (2 * d2 - p), 4 * d2);
    } else if 2 * d2 > p {
        assert(0 <= h * (2 * d2 - p) / (4 * d2)) by (nonlinear_arith)
            requires
                0 <= h,
                2 * d2 > p,
                0 < d2,
        ;
    }
    assert((h * (2 * d2 + p)) * (4 * d1) <= (h * (2 * d1 + p)) * (4 * d2)) by (nonlinear_arith)
        requires
            0 <= h,
            0 <= p,
            0 < d1 < d2,
    ;
    lemma_floor_order(h * (2 * d2 + p), 4 * d2, h * (2 * d1 + p), 4 * d1);
}

/// The slice lies on the screen: `0 <= top <= bottom <= h`.
pub proof fn lemma_stake_on_screen(h: int, d: int, p: int)
    requires
        0 <= h,
        0 <= p,
        0 <= d,
    ensures
        0 <= stake_top(h, d, p) <= stake_bottom(h, d, p) <= h,
{
    if d > 0 {
        if 2 * d > p {
            assert(0 <= h * (2 * d - p)) by (nonlinear_arith)
                requires
                    0 <= h,
                    2 * d > p,
            ;
            assert((h * (2 * d - p)) * (4 * d) <= (h * (2 * d + p)) * (4 * d)) by (nonlinear_arith)
                requires
                    0 <= h,
                    0 <= p,
                    0 < d,
            ;
            lemma_floor_order(h * (2 * d - p), 4 * d, h * (2 * d + p), 4 * d);
            assert((h * (2 * d - p)) * 1 <= h * (4 * d)) by (nonlinear_arith)
                requires
                    0 <= h,
                    0 <= p,
                    0 < d,
            ;
            lemma_floor_order(h * (2 * d - p), 4 * d, h, 1);
            lemma_floor_order(0, 1, h * (2 * d - p), 4 * d);
        } else {
            assert(0 <= h * (2 * d + p)) by (nonlinear_arith)
                requires
                    0 <= h,
                    0 <= p,
                    0 < d,
            ;
            lemma_floor_order(0, 1, h * (2 * d + p), 4 * d);
        }
    }
}

/// The rows `top..bottom` that a wall at distance `distance_to_wall` takes up
/// on a screen of `height` rows.
pub fn stake_extent(height: usize, distance_to_wall: u64, distance_to_projection_plane: u64) -> (rows:
    (usize, usize))
    requires
        distance_to_wall <= MAX_DISTANCE,
        distance_to_projection_plane <= MAX_DISTANCE,
    ensures
        rows.0 == stake_top(
            height as int,
            distance_to_wall as int,
            distance_to_projection_plane as int,
        ),
        rows.1 == stake_bottom(
            height as int,
            distance_to_wall as int,
            distance_to_projection_plane as int,
        ),
        rows.0 <= rows.1 <= height,
{
    proof {
        lemma_stake_on_screen(
            height as int,
            distance_to_wall as int,
            distance_to_projection_plane as int,
        );
    }
    if distance_to_wall == 0 {
        return (0, height);
    }
    let h: u128 = height as u128;
    let d: u128 = distance_to_wall as u128;
    let p: u128 = distance_to_projection_plane as u128;
    let quad: u128 = 4 * d;
    assert(h * (2 * d + p) <= 0x1_0000_0000_0000_0000 * 0xC000_0000_0000_0000) by (nonlinear_arith)
        requires
            h <= 0x1_0000_0000_0000_0000,
            2 * d + p <= 0xC000_0000_0000_0000,
    ;
    let top: usize = if 2 * d <= p {
        0
    } else {
        assert(h * (2 * d - p) <= h * (2 * d + p)) by (nonlinear_arith)
            requires
                0 <= h,
                0 <= p,
                p < 2 * d,
        ;
        (h * (2 * d - p) / quad) as usize
    };
    let raw: u128 = h * (2 * d + p) / quad;
    let bottom: usize = if raw > h {
        height
    } else {
        raw as usize
    };
    (top, bottom)
}

/// Whether row `y` belongs to the slice of a wall at distance `d`.
pub open spec fn in_stake(h: int, d: int, p: int, y: int) -> bool {
    stake_top(h, d, p) <= y < stake_bottom(h, d, p)
}

/// The texel shown at row `y` of the slice in screen column `i`: the texture
/// column is the screen column stretched onto the texture's width, the
/// texture row is the row within the slice stretched onto its height.
pub open spec fn slice_texel(
    texture: Seq<u32>,
    tw: int,
    th: int,
    width: int,
    top: int,
    bottom: int,
    i: int,
    y: int,
) -> Option<u32> {
    texel(texture, tw, th, stretch(i, tw, width), stretch(y - top, th, bottom - top))
}

/// Paints the slice of a wall at distance `distance_to_wall` into column `i`
/// in the current color.
pub fn draw_stake(
    framebuffer: &mut Framebuffer,
    i: usize,
    distance_to_wall: u64,
    distance_to_projection_plane: u64,
)
    requires
        old(framebuffer).wf(),
        distance_to_wall <= MAX_DISTANCE,
        distance_to_projection_plane <= MAX_DISTANCE,
    ensures
        final(framebuffer).wf(),
        final(framebuffer).same_shape(old(framebuffer)),
        forall|x: int, y: int|
            old(framebuffer).in_frame(x, y) ==> #[trigger] final(framebuffer).pixel(x, y) == (
            if x == i && in_stake(
                old(framebuffer).height as int,
                distance_to_wall as int,
                distance_to_projection_plane as int,
                y,
            ) {
                old(framebuffer).current_color.hex()
            } else {
                old(framebuffer).pixel(x, y)
            }),
{
    let (top, bottom) = stake_extent(
        framebuffer.height,
        distance_to_wall,
        distance_to_projection_plane,
    );
    let hex: u32 = framebuffer.current_color.to_hex();
    let mut y: usize = top;
    while y < bottom
        invariant
            top <= y <= bottom,
            framebuffer.wf(),
            framebuffer.same_shape(old(framebuffer)),
            forall|px: int, py: int|
                old(framebuffer).in_frame(px, py) ==> #[trigger] framebuffer.pixel(px, py) == (
                if px == i && top <= py < y {
                    hex
                } else {
                    old(framebuffer).pixel(px, py)
                }),
        decreases bottom - y,
    {
        framebuffer.point(i, y, hex);
        y += 1;
    }
}

/// Paints the slice of a wall at distance `distance_to_wall` into column `i`
/// from `texture`. Rows whose texel does not exist are left as they were.
pub fn apply_texture(
    framebuffer: &mut Framebuffer,
    i: usize,
    distance_to_wall: u64,
    distance_to_projection_plane: u64,
    texture: &[u32],
    texture_width: usize,
    texture_height: usize,
)
    requires
        old(framebuffer).wf(),
        distance_to_wall <= MAX_DISTANCE,
        distance_to_projection_plane <= MAX_DISTANCE,
    ensures
        final(framebuffer).wf(),
        final(framebuffer).same_shape(old(framebuffer)),
        forall|x: int, y: int|
            old(framebuffer).in_frame(x, y) ==> #[trigger] final(framebuffer).pixel(x, y) == (
            if x == i && in_stake(
                old(framebuffer).height as int,
                distance_to_wall as int,
                distance_to_projection_plane as int,
                y,
            ) {
                match slice_texel(
                    texture@,
                    texture_width as int,
                    texture_height as int,
                    old(framebuffer).width as int,
                    stake_top(
                        old(framebuffer).height as int,
                        distance_to_wall as int,
                        distance_to_projection_plane as int,
                    ),
                    stake_bottom(
                        old(framebuffer).height as int,
                        distance_to_wall as int,
                        distance_to_projection_plane as int,
                    ),
                    x,
                    y,
                ) {
                    Some(color) => color,
                    None => old(framebuffer).pixel(x, y),
                }
            } else {
                old(framebuffer).pixel(x, y)
            }),
{
    if i >= framebuffer.width {
        return ;
    }
    let (top, bottom) = stake_extent(
        framebuffer.height,
        distance_to_wall,
        distance_to_projection_plane,
    );
    let tex_x: usize = stretch_index(i, texture_width, framebuffer.width);
    let mut y: usize = top;
    while y < bottom
        invariant
            top <= y <= bottom,
            i < framebuffer.width,
            tex_x == stretch(i as int, texture_width as int, framebuffer.width as int),
            framebuffer.wf(),
            framebuffer.same_shape(old(framebuffer)),
            forall|px: int, py: int|
                old(framebuffer).in_frame(px, py) ==> #[trigger] framebuffer.pixel(px, py) == (
                if px == i && top <= py < y {
                    match slice_texel(
                        texture@,
                        texture_width as int,
                        texture_height as int,
                        framebuffer.width as int,
                        top as int,
                        bottom as int,
                        px,
                        py,
                    ) {
                        Some(color) => color,
                        None => old(framebuffer).pixel(px, py),
                    }
                } else {
                    old(framebuffer).pixel(px, py)
                }),
        decreases bottom - y,
    {
        let tex_y: usize = stretch_index(y - top, texture_height, bottom - top);
        match sample(texture, texture_width, texture_height, tex_x, tex_y) {
            Some(color) => {
                framebuffer.point(i, y, color);
            },
            None => {},
        }
        y += 1;
    }
}

/// The color of start cells seen as walls.
pub open spec fn start_color() -> Color {
    Color { r: 0, g: 255, b: 0 }
}

/// The color of goal cells seen as walls.
pub open spec fn goal_color() -> Color {
    Color { r: 255, g: 0, b: 0 }
}

/// What the first-person view shows at row `y` of column `x`, whose ray hit
/// `hit`, over a pixel that was `before`. A hit at distance 0 draws nothing.
/// The three wall characters are textured, start and goal cells are flat
/// colored, and any other character draws nothing.
pub open spec fn slice_pixel(
    before: u32,
    hit: Intersect,
    width: int,
    height: int,
    x: int,
    y: int,
    wall_texture_1: Seq<u32>,
    wall_texture_2: Seq<u32>,
    wall_texture_3: Seq<u32>,
    tw: int,
    th: int,
) -> u32 {
    let d = hit.distance as int;
    let p = PROJECTION_PLANE_DISTANCE as int;
    let top = stake_top(height, d, p);
    let bottom = stake_bottom(height, d, p);
    if d == 0 || !in_stake(height, d, p, y) {
        before
    } else if hit.impact == '+' {
        match slice_texel(wall_texture_1, tw, th, width, top, bottom, x, y) {
            Some(color) => color,
            None => before,
        }
    } else if hit.impact == '-' {
        match slice_texel(wall_texture_2, tw, th, width, top, bottom, x, y) {
            Some(color) => color,
            None => before,
        }
    } else if hit.impact == '|' {
        match slice_texel(wall_texture_3, tw, th, width, top, bottom, x, y) {
            Some(color) => color,
            None => before,
        }
    } else if hit.impact == 'p' {
        start_color().hex()
    } else if hit.impact == 'g' {
        goal_color().hex()
    } else {
        before
    }
}

/// The current color after a column whose ray hit `hit` has been drawn.
pub open spec fn color_after_slice(hit: Intersect) -> Color {
    if hit.distance != 0 && hit.impact == 'p' {
        start_color()
    } else if hit.distance != 0 && hit.impact == 'g' {
        goal_color()
    } else {
        ray_color()
    }
}

/// Draws the first-person view: for each ray `i`, casts it from the camera
/// and paints the slice of what it hit into screen column `i`. Rays beyond
/// the last screen column draw nothing.
pub fn render3d(
    framebuffer: &mut Framebuffer,
    player: &Player,
    rays: &Vec<Direction>,
    maze: &Vec<Vec<char>>,
    block_size: usize,
    wall_texture_1: &[u32],
    wall_texture_2: &[u32],
    wall_texture_3: &[u32],
    texture_width: usize,
    texture_height: usize,
)
    requires
        old(framebuffer).wf(),
        block_size > 0,
        fits(maze@, block_size as int),
        forall|i: int|
            0 <= i < rays@.len() ==> (#[trigger] rays@[i]).wf() && ray_stops(
                maze@,
                *player,
                rays@[i],
                block_size as int,
            ),
    ensures
        final(framebuffer).wf(),
        final(framebuffer).width == old(framebuffer).width,
        final(framebuffer).height == old(framebuffer).height,
        final(framebuffer).background_color == old(framebuffer).background_color,
        final(framebuffer).current_color == (if rays@.len() == 0 {
            old(framebuffer).current_color
        } else {
            color_after_slice(ray_hit(maze@, *player, rays@[rays@.len() - 1], block_size as int))
        }),
        forall|x: int, y: int|
            old(framebuffer).in_frame(x, y) ==> #[trigger] final(framebuffer).pixel(x, y) == (
            if x < rays@.len() {
                slice_pixel(
                    old(framebuffer).pixel(x, y),
                    ray_hit(maze@, *player, rays@[x], block_size as int),
                    old(framebuffer).width as int,
                    old(framebuffer).height as int,
                    x,
                    y,
                    wall_texture_1@,
                    wall_texture_2@,
                    wall_texture_3@,
                    texture_width as int,
                    texture_height as int,
                )
            } else {
                old(framebuffer).pixel(x, y)
            }),
{
    let num_rays: usize = rays.len();
    let mut i: usize = 0;
    while i < num_rays
        invariant
            i <= num_rays,
            num_rays == rays@.len(),
            block_size > 0,
            fits(maze@, block_size as int),
            forall|r: int|
                0 <= r < rays@.len() ==> (#[trigger] rays@[r]).wf() && ray_stops(
                    maze@,
                    *player,
                    rays@[r],
                    block_size as int,
                ),
            framebuffer.wf(),
            framebuffer.width == old(framebuffer).width,
            framebuffer.height == old(framebuffer).height,
            framebuffer.background_color == old(framebuffer).background_color,
            framebuffer.current_color == (if i == 0 {
                old(framebuffer).current_color
            } else {
                color_after_slice(ray_hit(maze@, *player, rays@[i - 1], block_size as int))
            }),
            forall|x: int, y: int|
                old(framebuffer).in_frame(x, y) ==> #[trigger] framebuffer.pixel(x, y) == (if x
                    < i {
                    slice_pixel(
                        old(framebuffer).pixel(x, y),
                        ray_hit(maze@, *player, rays@[x], block_size as int),
                        old(framebuffer).width as int,
                        old(framebuffer).height as int,
                        x,
                        y,
                        wall_texture_1@,
                        wall_texture_2@,
                        wall_texture_3@,
                        texture_width as int,
                        texture_height as int,
                    )
                } else {
                    old(framebuffer).pixel(x, y)
                }),
        decreases num_rays - i,
    {
        let ray: Direction = rays[i];
        let ghost before = *framebuffer;
        let intersect = cast_ray(framebuffer, maze, player, ray, block_size, false);
        let ghost cast = *framebuffer;
        let distance_to_wall: u64 = intersect.distance;
        assert(intersect == ray_hit(maze@, *player, rays@[i as int], block_size as int));
        assert forall|x: int, y: int| old(framebuffer).in_frame(x, y) implies #[trigger] cast.pixel(
            x,
            y,
        ) == before.pixel(x, y) by {}
        if distance_to_wall != 0 {
            if intersect.impact == '+' {
                apply_texture(
                    framebuffer,
                    i,
                    distance_to_wall,
                    PROJECTION_PLANE_DISTANCE,
                    wall_texture_1,
                    texture_width,
                    texture_height,
                );
            } else if intersect.impact == '-' {
                apply_texture(
                    framebuffer,
                    i,
                    distance_to_wall,
                    PROJECTION_PLANE_DISTANCE,
                    wall_texture_2,
                    texture_width,
                    texture_height,
                );
            } else if intersect.impact == '|' {
                apply_texture(
                    framebuffer,
                    i,
                    distance_to_wall,
                    PROJECTION_PLANE_DISTANCE,
                    wall_texture_3,
                    texture_width,
                    texture_height,
                );
            } else if intersect.impact == 'p' {
                framebuffer.set_current_color(Color::new(0, 255, 0));
                draw_stake(framebuffer, i, distance_to_wall, PROJECTION_PLANE_DISTANCE);
            } else if intersect.impact == 'g' {
                framebuffer.set_current_color(Color::new(255, 0, 0));
                draw_stake(framebuffer, i, distance_to_wall, PROJECTION_PLANE_DISTANCE);
            }
        }
        assert forall|x: int, y: int| old(framebuffer).in_frame(x, y) implies #[trigger] framebuffer.pixel(
            x,
            y,
        ) == (if x == i {
            slice_pixel(
                old(framebuffer).pixel(x, y),
                intersect,
                old(framebuffer).width as int,
                old(framebuffer).height as int,
                x,
                y,
                wall_texture_1@,
                wall_texture_2@,
                wall_texture_3@,
                texture_width as int,
                texture_height as int,
            )
        } else {
            before.pixel(x, y)
        }) by {
            assert(cast.pixel(x, y) == before.pixel(x, y));
        }
        i += 1;
    }
}

} // verus!
