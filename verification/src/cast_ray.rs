//! Marching a ray through the maze in fixed steps until it meets a cell that
//! is not open.

use vstd::prelude::*;
use crate::color::Color;
use crate::framebuffer::Framebuffer;
use crate::maze::{
    cell_of, cell_under, fits, has_cell, in_grid, is_enclosed, maze_fits, point_in_grid,
    MAX_EXTENT, OPEN,
};
use crate::player::{Direction, Player, SCALE};

verus! {

/// World units between two samples of a ray.
pub const STEP: u64 = 10;

/// Where a ray stopped: how far it travelled, in world units, and the
/// character of the cell that stopped it.
#[derive(Clone, Copy, Debug, PartialEq, Eq, Structural)]
pub struct Intersect {
    pub distance: u64,
    pub impact: char,
}

/// The color in which a ray's path is painted.
pub open spec fn ray_color() -> Color {
    Color { r: 255, g: 221, b: 221 }
}

/// The fixed-point x coordinate of the `k`-th sample of a ray.
pub open spec fn sample_fx(player: Player, ray: Direction, k: int) -> int {
    player.x + k * (STEP * ray.dx)
}

/// The fixed-point y coordinate of the `k`-th sample of a ray.
pub open spec fn sample_fy(player: Player, ray: Direction, k: int) -> int {
    player.y + k * (STEP * ray.dy)
}

/// The pixel column of the `k`-th sample.
pub open spec fn sample_px(player: Player, ray: Direction, k: int) -> int {
    sample_fx(player, ray, k) / (SCALE as int)
}

/// The pixel row of the `k`-th sample.
pub open spec fn sample_py(player: Player, ray: Direction, k: int) -> int {
    sample_fy(player, ray, k) / (SCALE as int)
}

/// Whether the `k`-th sample lies in a cell of the maze.
pub open spec fn sample_in_grid(
    maze: Seq<Vec<char>>,
    player: Player,
    ray: Direction,
    block_size: int,
    k: int,
) -> bool {
    in_grid(maze, block_size, sample_fx(player, ray, k), sample_fy(player, ray, k))
}

/// The character of the cell under the `k`-th sample.
pub open spec fn sample_cell(
    maze: Seq<Vec<char>>,
    player: Player,
    ray: Direction,
    block_size: int,
    k: int,
) -> char {
    cell_under(maze, block_size, sample_fx(player, ray, k), sample_fy(player, ray, k))
}

/// The ray stops at sample `k`: samples `0..=k` lie in the maze, samples
/// `0..k` are in open cells, and sample `k` is not.
pub open spec fn stops_at(
    maze: Seq<Vec<char>>,
    player: Player,
    ray: Direction,
    block_size: int,
    k: int,
) -> bool {
    &&& 0 <= k
    &&& forall|j: int| 0 <= j <= k ==> #[trigger] sample_in_grid(maze, player, ray, block_size, j)
    &&& forall|j: int| 0 <= j < k ==> #[trigger] sample_cell(maze, player, ray, block_size, j) == OPEN
    &&& sample_cell(maze, player, ray, block_size, k) != OPEN
}

/// The ray meets a cell that is not open before it leaves the maze.
pub open spec fn ray_stops(
    maze: Seq<Vec<char>>,
    player: Player,
    ray: Direction,
    block_size: int,
) -> bool {
    exists|k: int| stops_at(maze, player, ray, block_size, k)
}

/// The sample at which the ray stops, for a ray that does.
pub open spec fn stop_index(
    maze: Seq<Vec<char>>,
    player: Player,
    ray: Direction,
    block_size: int,
) -> int {
    choose|k: int| stops_at(maze, player, ray, block_size, k)
}

/// What a ray that stops has hit: `STEP` world units per sample up to the
/// stopping sample, and the character of the cell under that sample.
pub open spec fn ray_hit(
    maze: Seq<Vec<char>>,
    player: Player,
    ray: Direction,
    block_size: int,
) -> Intersect {
    Intersect {
        distance: (STEP * stop_index(maze, player, ray, block_size)) as u64,
        impact: sample_cell(
            maze,
            player,
            ray,
            block_size,
            stop_index(maze, player, ray, block_size),
        ),
    }
}

/// Whether pixel `(x, y)` is one of the first `k` samples of the ray.
pub open spec fn on_path(player: Player, ray: Direction, k: int, x: int, y: int) -> bool {
    exists|j: int|
        0 <= j < k && #[trigger] sample_px(player, ray, j) == x && sample_py(player, ray, j) == y
}

/// A ray stops at one sample only.
pub proof fn lemma_stop_unique(
    maze: Seq<Vec<char>>,
    player: Player,
    ray: Direction,
    block_size: int,
    k1: int,
    k2: int,
)
    requires
        stops_at(maze, player, ray, block_size, k1),
        stops_at(maze, player, ray, block_size, k2),
    ensures
        k1 == k2,
{
    if k1 < k2 {
        assert(sample_cell(maze, player, ray, block_size, k1) == OPEN);
    } else if k2 < k1 {
        assert(sample_cell(maze, player, ray, block_size, k2) == OPEN);
    }
}

/// A point in a maze that fits has coordinates below `MAX_EXTENT` world units.
pub proof fn lemma_in_grid_bound(maze: Seq<Vec<char>>, block_size: int, fx: int, fy: int)
    requires
        block_size > 0,
        fits(maze, block_size),
        in_grid(maze, block_size, fx, fy),
    ensures
        0 <= fx < MAX_EXTENT * SCALE,
        0 <= fy < MAX_EXTENT * SCALE,
        0 <= fx / (SCALE as int) < MAX_EXTENT,
        0 <= fy / (SCALE as int) < MAX_EXTENT,
{
    let row = cell_of(fy, block_size);
    let col = cell_of(fx, block_size);
    let cols = maze[row]@.len() as int;
    let rows = maze.len() as int;
    let qx = fx / (SCALE as int);
    let qy = fy / (SCALE as int);
    assert(cols * block_size <= MAX_EXTENT);
    assert(qx < cols * block_size) by (nonlinear_arith)
        requires
            qx / block_size < cols,
            block_size > 0,
    ;
    assert(qy < rows * block_size) by (nonlinear_arith)
        requires
            qy / block_size < rows,
            block_size > 0,
    ;
}

/// The sample after `k` lies one stride further along the ray.
pub proof fn lemma_next_sample(player: Player, ray: Direction, k: int)
    ensures
        sample_fx(player, ray, k + 1) == sample_fx(player, ray, k) + STEP * ray.dx,
        sample_fy(player, ray, k + 1) == sample_fy(player, ray, k) + STEP * ray.dy,
{
    let sx = STEP * ray.dx;
    let sy = STEP * ray.dy;
    assert((k + 1) * sx == k * sx + sx) by (nonlinear_arith);
    assert((k + 1) * sy == k * sy + sy) by (nonlinear_arith);
}

/// A ray that stops has travelled less than `MAX_EXTENT * SCALE` world units.
pub proof fn lemma_stop_distance_bound(
    maze: Seq<Vec<char>>,
    player: Player,
    ray: Direction,
    block_size: int,
    k: int,
)
    requires
        block_size > 0,
        ray.wf(),
        fits(maze, block_size),
        stops_at(maze, player, ray, block_size, k),
    ensures
        STEP * k < MAX_EXTENT * SCALE,
{
    assert(sample_in_grid(maze, player, ray, block_size, 0));
    assert(sample_in_grid(maze, player, ray, block_size, k));
    lemma_in_grid_bound(maze, block_size, sample_fx(player, ray, 0), sample_fy(player, ray, 0));
    lemma_in_grid_bound(maze, block_size, sample_fx(player, ray, k), sample_fy(player, ray, k));
    let bound = MAX_EXTENT * SCALE;
    let sx = STEP * ray.dx;
    let sy = STEP * ray.dy;
    assert(sample_fx(player, ray, 0) == player.x);
    assert(sample_fy(player, ray, 0) == player.y);
    if ray.dx > 0 {
        assert(k * sx >= STEP * k) by (nonlinear_arith)
            requires
                sx >= STEP,
                k >= 0,
        ;
    } else if ray.dx < 0 {
        assert(k * sx <= -(STEP * k)) by (nonlinear_arith)
            requires
                sx <= -STEP,
                k >= 0,
        ;
    } else if ray.dy > 0 {
        assert(k * sy >= STEP * k) by (nonlinear_arith)
            requires
                sy >= STEP,
                k >= 0,
        ;
    } else {
        assert(k * sy <= -(STEP * k)) by (nonlinear_arith)
            requires
                sy <= -STEP,
                k >= 0,
        ;
    }
}

/// A coordinate in cell `c` lies between the cell's two edges.
pub proof fn lemma_cell_edges(f: int, block_size: int)
    requires
        0 <= f,
        block_size > 0,
    ensures
        0 <= cell_of(f, block_size),
        cell_of(f, block_size) * block_size * SCALE <= f,
        f < (cell_of(f, block_size) + 1) * block_size * SCALE,
{
    let q = f / (SCALE as int);
    let c = q / block_size;
    assert(c * block_size <= q < (c + 1) * block_size && 0 <= c) by (nonlinear_arith)
        requires
            c == q / block_size,
            0 <= q,
            block_size > 0,
    ;
    assert(c * block_size * SCALE <= f) by (nonlinear_arith)
        requires
            c * block_size <= q,
            q * SCALE <= f,
    ;
    assert(f < (c + 1) * block_size * SCALE) by (nonlinear_arith)
        requires
            q + 1 <= (c + 1) * block_size,
            f < (q + 1) * SCALE,
    ;
}

/// A coordinate between the edges of cell `c` lies in cell `c`.
pub proof fn lemma_cell_between(f: int, block_size: int, lo: int, hi: int)
    requires
        block_size > 0,
        0 <= lo,
        lo * block_size * SCALE <= f < hi * block_size * SCALE,
    ensures
        0 <= f,
        lo <= cell_of(f, block_size) < hi,
{
    assert(0 <= lo * block_size * SCALE) by (nonlinear_arith)
        requires
            0 <= lo,
            block_size > 0,
    ;
    lemma_cell_edges(f, block_size);
    let c = cell_of(f, block_size);
    assert(c < hi) by (nonlinear_arith)
        requires
            c * block_size * SCALE <= f,
            f < hi * block_size * SCALE,
            block_size > 0,
    ;
    assert(lo <= c) by (nonlinear_arith)
        requires
            lo * block_size * SCALE <= f,
            f < (c + 1) * block_size * SCALE,
            block_size > 0,
    ;
}

/// One stride from a cell that is not at the edge of a row of `n` cells ends
/// in a cell of that row, when a cell is at least one step wide.
proof fn lemma_stride_stays(f: int, d: int, block_size: int, n: int)
    requires
        block_size >= STEP,
        -SCALE <= d <= SCALE,
        0 <= f,
        1 <= cell_of(f, block_size) <= n - 2,
    ensures
        0 <= f + STEP * d,
        0 <= cell_of(f + STEP * d, block_size) < n,
{
    lemma_cell_edges(f, block_size);
    let c = cell_of(f, block_size);
    let edge = block_size * SCALE;
    assert((c - 1) * block_size * SCALE == c * block_size * SCALE - edge) by (nonlinear_arith)
        requires
            edge == block_size * SCALE,
    ;
    assert((c + 2) * block_size * SCALE == (c + 1) * block_size * SCALE + edge)
        by (nonlinear_arith)
        requires
            edge == block_size * SCALE,
    ;
    assert(STEP * SCALE <= edge) by (nonlinear_arith)
        requires
            edge == block_size * SCALE,
            block_size >= STEP,
    ;
    lemma_cell_between(f + STEP * d, block_size, c - 1, c + 2);
}

/// How far the `k`-th sample is from the side of the maze it is heading for.
spec fn remaining(
    maze: Seq<Vec<char>>,
    player: Player,
    ray: Direction,
    block_size: int,
    k: int,
) -> int {
    if ray.dx > 0 {
        maze[0]@.len() * block_size * SCALE - sample_fx(player, ray, k)
    } else if ray.dx < 0 {
        sample_fx(player, ray, k)
    } else if ray.dy > 0 {
        maze.len() * block_size * SCALE - sample_fy(player, ray, k)
    } else {
        sample_fy(player, ray, k)
    }
}

/// A ray whose first `k` samples are in open cells of an enclosed maze stops
/// at sample `k` or later.
proof fn lemma_walk_stops(
    maze: Seq<Vec<char>>,
    player: Player,
    ray: Direction,
    block_size: int,
    k: int,
)
    requires
        is_enclosed(maze),
        block_size >= STEP,
        ray.wf(),
        0 <= k,
        forall|j: int| 0 <= j <= k ==> #[trigger] sample_in_grid(maze, player, ray, block_size, j),
        forall|j: int|
            0 <= j < k ==> #[trigger] sample_cell(maze, player, ray, block_size, j) == OPEN,
    ensures
        ray_stops(maze, player, ray, block_size),
    decreases remaining(maze, player, ray, block_size, k),
{
    if sample_cell(maze, player, ray, block_size, k) != OPEN {
        assert(stops_at(maze, player, ray, block_size, k));
    } else {
        let fx = sample_fx(player, ray, k);
        let fy = sample_fy(player, ray, k);
        let rows = maze.len() as int;
        let cols = maze[0]@.len() as int;
        let row = cell_of(fy, block_size);
        let col = cell_of(fx, block_size);
        assert(sample_in_grid(maze, player, ray, block_size, k));
        assert(has_cell(maze, row, col));
        assert(maze[row]@.len() == cols);
        assert(crate::maze::cell(maze, row, col) == OPEN);
        assert(1 <= row <= rows - 2 && 1 <= col <= cols - 2);
        lemma_next_sample(player, ray, k);
        lemma_stride_stays(fx, ray.dx as int, block_size, cols);
        lemma_stride_stays(fy, ray.dy as int, block_size, rows);
        let nx = sample_fx(player, ray, k + 1);
        let ny = sample_fy(player, ray, k + 1);
        let nrow = cell_of(ny, block_size);
        assert(maze[nrow]@.len() == cols);
        assert(sample_in_grid(maze, player, ray, block_size, k + 1));
        lemma_cell_edges(nx, block_size);
        lemma_cell_edges(ny, block_size);
        assert((cell_of(nx, block_size) + 1) * block_size * SCALE <= cols * block_size * SCALE)
            by (nonlinear_arith)
            requires
                cell_of(nx, block_size) + 1 <= cols,
                block_size > 0,
        ;
        assert((cell_of(ny, block_size) + 1) * block_size * SCALE <= rows * block_size * SCALE)
            by (nonlinear_arith)
            requires
                cell_of(ny, block_size) + 1 <= rows,
                block_size > 0,
        ;
        assert forall|j: int| 0 <= j <= k + 1 implies #[trigger] sample_in_grid(
            maze,
            player,
            ray,
            block_size,
            j,
        ) by {}
        assert forall|j: int| 0 <= j < k + 1 implies #[trigger] sample_cell(
            maze,
            player,
            ray,
            block_size,
            j,
        ) == OPEN by {}
        lemma_walk_stops(maze, player, ray, block_size, k + 1);
    }
}

/// In an enclosed maze whose cells are at least one step wide, a ray cast
/// from any point of the maze in any direction stops, after a number of
/// steps that is not negative, in a cell of the maze that is not open.
pub proof fn lemma_enclosed_maze_stops_ray(
    maze: Seq<Vec<char>>,
    player: Player,
    ray: Direction,
    block_size: int,
)
    requires
        is_enclosed(maze),
        block_size >= STEP,
        ray.wf(),
        in_grid(maze, block_size, player.x as int, player.y as int),
    ensures
        ray_stops(maze, player, ray, block_size),
        stops_at(maze, player, ray, block_size, stop_index(maze, player, ray, block_size)),
        0 <= stop_index(maze, player, ray, block_size),
        ray_hit(maze, player, ray, block_size).impact != OPEN,
        exists|row: int, col: int|
            has_cell(maze, row, col) && #[trigger] crate::maze::cell(maze, row, col) == ray_hit(
                maze,
                player,
                ray,
                block_size,
            ).impact,
{
    assert(sample_fx(player, ray, 0) == player.x);
    assert(sample_fy(player, ray, 0) == player.y);
    lemma_walk_stops(maze, player, ray, block_size, 0);
    let k = stop_index(maze, player, ray, block_size);
    assert(sample_in_grid(maze, player, ray, block_size, k));
    let row = cell_of(sample_fy(player, ray, k), block_size);
    let col = cell_of(sample_fx(player, ray, k), block_size);
    assert(has_cell(maze, row, col) && crate::maze::cell(maze, row, col) == ray_hit(
        maze,
        player,
        ray,
        block_size,
    ).impact);
}

/// Marches from the camera along `ray`, one sample every `STEP` world units,
/// and returns the first sample whose cell is not open: its distance from the
/// camera and the cell's character. With `draw_line`, every sample before
/// that one is painted in the ray color. The current color becomes the ray
/// color either way.
pub fn cast_ray(
    framebuffer: &mut Framebuffer,
    maze: &Vec<Vec<char>>,
    player: &Player,
    ray: Direction,
    block_size: usize,
    draw_line: bool,
) -> (hit: Intersect)
    requires
        old(framebuffer).wf(),
        block_size > 0,
        ray.wf(),
        fits(maze@, block_size as int),
        ray_stops(maze@, *player, ray, block_size as int),
    ensures
        hit == ray_hit(maze@, *player, ray, block_size as int),
        hit.distance == STEP * stop_index(maze@, *player, ray, block_size as int),
        hit.distance < MAX_EXTENT * SCALE,
        hit.impact != OPEN,
        stops_at(
            maze@,
            *player,
            ray,
            block_size as int,
            stop_index(maze@, *player, ray, block_size as int),
        ),
        final(framebuffer).wf(),
        final(framebuffer).width == old(framebuffer).width,
        final(framebuffer).height == old(framebuffer).height,
        final(framebuffer).background_color == old(framebuffer).background_color,
        final(framebuffer).current_color == ray_color(),
        !draw_line ==> final(framebuffer).buffer@ == old(framebuffer).buffer@,
        forall|x: int, y: int|
            old(framebuffer).in_frame(x, y) ==> #[trigger] final(framebuffer).pixel(x, y) == (
            if draw_line && on_path(
                *player,
                ray,
                stop_index(maze@, *player, ray, block_size as int),
                x,
                y,
            ) {
                ray_color().hex()
            } else {
                old(framebuffer).pixel(x, y)
            }),
{
    let paint = Color::new(255, 221, 221);
    framebuffer.set_current_color(paint);
    let hex: u32 = paint.to_hex();
    let ghost last: int = stop_index(maze@, *player, ray, block_size as int);
    let stride_x: i64 = (STEP as i64) * ray.dx;
    let stride_y: i64 = (STEP as i64) * ray.dy;
    let mut d: u64 = 0;
    let mut fx: i64 = player.x;
    let mut fy: i64 = player.y;
    let ghost mut k: int = 0;
    proof {
        lemma_stop_distance_bound(maze@, *player, ray, block_size as int, last);
    }
    loop
        invariant
            block_size > 0,
            ray.wf(),
            fits(maze@, block_size as int),
            stops_at(maze@, *player, ray, block_size as int, last),
            STEP * last < MAX_EXTENT * SCALE,
            stride_x == STEP * ray.dx,
            stride_y == STEP * ray.dy,
            0 <= k <= last,
            d == STEP * k,
            fx == sample_fx(*player, ray, k),
            fy == sample_fy(*player, ray, k),
            forall|j: int|
                0 <= j < k ==> #[trigger] sample_cell(maze@, *player, ray, block_size as int, j)
                    == OPEN,
            hex == ray_color().hex(),
            framebuffer.wf(),
            framebuffer.width == old(framebuffer).width,
            framebuffer.height == old(framebuffer).height,
            framebuffer.background_color == old(framebuffer).background_color,
            framebuffer.current_color == ray_color(),
            !draw_line ==> framebuffer.buffer@ == old(framebuffer).buffer@,
            forall|x: int, y: int|
                old(framebuffer).in_frame(x, y) ==> #[trigger] framebuffer.pixel(x, y) == (
                if draw_line && on_path(*player, ray, k, x, y) {
                    hex
                } else {
                    old(framebuffer).pixel(x, y)
                }),
        decreases last - k,
    {
        proof {
            assert(sample_in_grid(maze@, *player, ray, block_size as int, k));
            lemma_in_grid_bound(maze@, block_size as int, fx as int, fy as int);
        }
        let x: usize = (fx / SCALE) as usize;
        let y: usize = (fy / SCALE) as usize;
        let i: usize = x / block_size;
        let j: usize = y / block_size;
        let c: char = maze[j][i];
        assert(c == sample_cell(maze@, *player, ray, block_size as int, k));
        if c != ' ' {
            proof {
                if k < last {
                    assert(sample_cell(maze@, *player, ray, block_size as int, k) == OPEN);
                }
            }
            return Intersect { distance: d, impact: c };
        }
        if draw_line {
            framebuffer.point(x, y, hex);
        }
        proof {
            lemma_next_sample(*player, ray, k);
            assert forall|px: int, py: int| old(framebuffer).in_frame(px, py) implies #[trigger] framebuffer.pixel(
                px,
                py,
            ) == (if draw_line && on_path(*player, ray, k + 1, px, py) {
                hex
            } else {
                old(framebuffer).pixel(px, py)
            }) by {
                let here = px == x && py == y;
                if on_path(*player, ray, k, px, py) {
                    let w = choose|w: int|
                        0 <= w < k && #[trigger] sample_px(*player, ray, w) == px && sample_py(
                            *player,
                            ray,
                            w,
                        ) == py;
                    assert(0 <= w < k + 1 && sample_px(*player, ray, w) == px && sample_py(
                        *player,
                        ray,
                        w,
                    ) == py);
                }
                if here {
                    assert(0 <= k < k + 1 && sample_px(*player, ray, k) == px && sample_py(
                        *player,
                        ray,
                        k,
                    ) == py);
                }
                if on_path(*player, ray, k + 1, px, py) {
                    let w = choose|w: int|
                        0 <= w < k + 1 && #[trigger] sample_px(*player, ray, w) == px && sample_py(
                            *player,
                            ray,
                            w,
                        ) == py;
                    if w < k {
                        assert(on_path(*player, ray, k, px, py));
                    } else {
                        assert(here);
                    }
                }
            }
        }
        d = d + STEP;
        fx = fx + stride_x;
        fy = fy + stride_y;
        proof {
            k = k + 1;
        }
    }
}

/// Whether a ray can be cast from the camera: the cells have a size, the ray
/// is a direction, the maze fits, and the ray stops.
pub open spec fn castable(
    maze: Seq<Vec<char>>,
    player: Player,
    ray: Direction,
    block_size: int,
) -> bool {
    &&& block_size > 0
    &&& ray.wf()
    &&& fits(maze, block_size)
    &&& ray_stops(maze, player, ray, block_size)
}

/// How far a sample in a maze that fits can still go the way the ray goes.
spec fn headroom(ray: Direction, fx: int, fy: int) -> int {
    if ray.dx > 0 {
        MAX_EXTENT * SCALE - fx
    } else if ray.dx < 0 {
        fx
    } else if ray.dy > 0 {
        MAX_EXTENT * SCALE - fy
    } else {
        fy
    }
}

/// Decides `ray_stops` by marching: the ray stops if a sample meets a cell
/// that is not open, and does not if a sample leaves the maze first.
fn marches_to_a_stop(
    maze: &Vec<Vec<char>>,
    player: &Player,
    ray: Direction,
    block_size: usize,
) -> (ok: bool)
    requires
        block_size > 0,
        ray.wf(),
        fits(maze@, block_size as int),
    ensures
        ok == ray_stops(maze@, *player, ray, block_size as int),
{
    if !point_in_grid(maze, block_size, player.x, player.y) {
        assert forall|n: int| !stops_at(maze@, *player, ray, block_size as int, n) by {
            if stops_at(maze@, *player, ray, block_size as int, n) {
                assert(sample_in_grid(maze@, *player, ray, block_size as int, 0));
            }
        }
        return false;
    }
    let stride_x: i64 = (STEP as i64) * ray.dx;
    let stride_y: i64 = (STEP as i64) * ray.dy;
    let mut fx: i64 = player.x;
    let mut fy: i64 = player.y;
    let ghost mut k: int = 0;
    loop
        invariant
            block_size > 0,
            ray.wf(),
            fits(maze@, block_size as int),
            stride_x == STEP * ray.dx,
            stride_y == STEP * ray.dy,
            0 <= k,
            fx == sample_fx(*player, ray, k),
            fy == sample_fy(*player, ray, k),
            forall|j: int|
                0 <= j <= k ==> #[trigger] sample_in_grid(maze@, *player, ray, block_size as int, j),
            forall|j: int|
                0 <= j < k ==> #[trigger] sample_cell(maze@, *player, ray, block_size as int, j)
                    == OPEN,
        decreases headroom(ray, fx as int, fy as int),
    {
        proof {
            assert(sample_in_grid(maze@, *player, ray, block_size as int, k));
            lemma_in_grid_bound(maze@, block_size as int, fx as int, fy as int);
            assert(maze.len() == maze@.len());
        }
        let i: usize = ((fx / SCALE) as u64 / (block_size as u64)) as usize;
        let j: usize = ((fy / SCALE) as u64 / (block_size as u64)) as usize;
        let c: char = maze[j][i];
        assert(c == sample_cell(maze@, *player, ray, block_size as int, k));
        if c != ' ' {
            assert(stops_at(maze@, *player, ray, block_size as int, k));
            return true;
        }
        fx = fx + stride_x;
        fy = fy + stride_y;
        proof {
            lemma_next_sample(*player, ray, k);
            k = k + 1;
        }
        if !point_in_grid(maze, block_size, fx, fy) {
            assert forall|n: int| !stops_at(maze@, *player, ray, block_size as int, n) by {
                if stops_at(maze@, *player, ray, block_size as int, n) {
                    if n < k {
                        assert(sample_cell(maze@, *player, ray, block_size as int, n) == OPEN);
                    } else {
                        assert(sample_in_grid(maze@, *player, ray, block_size as int, k));
                    }
                }
            }
            return false;
        }
        proof {
            lemma_in_grid_bound(maze@, block_size as int, fx as int, fy as int);
            assert forall|j: int| 0 <= j <= k implies #[trigger] sample_in_grid(
                maze@,
                *player,
                ray,
                block_size as int,
                j,
            ) by {}
            assert forall|j: int| 0 <= j < k implies #[trigger] sample_cell(
                maze@,
                *player,
                ray,
                block_size as int,
                j,
            ) == OPEN by {}
        }
    }
}

/// Decides `castable`: whether `cast_ray` may be called with these
/// arguments.
pub fn can_cast_ray(
    maze: &Vec<Vec<char>>,
    player: &Player,
    ray: Direction,
    block_size: usize,
) -> (ok: bool)
    ensures
        ok == castable(maze@, *player, ray, block_size as int),
{
    if block_size == 0 || !ray.is_valid() || !maze_fits(maze, block_size) {
        return false;
    }
    marches_to_a_stop(maze, player, ray, block_size)
}

/// Whether every ray of `rays` can be cast from the camera: the cells have a
/// size, the maze fits, and every ray is a direction and stops.
pub fn can_cast_rays(
    maze: &Vec<Vec<char>>,
    player: &Player,
    rays: &Vec<Direction>,
    block_size: usize,
) -> (ok: bool)
    ensures
        ok == (block_size > 0 && fits(maze@, block_size as int) && forall|i: int|
            0 <= i < rays@.len() ==> (#[trigger] rays@[i]).wf() && ray_stops(
                maze@,
                *player,
                rays@[i],
                block_size as int,
            )),
{
    if block_size == 0 || !maze_fits(maze, block_size) {
        return false;
    }
    let mut i: usize = 0;
    while i < rays.len()
        invariant
            i <= rays@.len(),
            block_size > 0,
            fits(maze@, block_size as int),
            forall|k: int|
                0 <= k < i ==> (#[trigger] rays@[k]).wf() && ray_stops(
                    maze@,
                    *player,
                    rays@[k],
                    block_size as int,
                ),
        decreases rays@.len() - i,
    {
        let ray: Direction = rays[i];
        if !ray.is_valid() || !marches_to_a_stop(maze, player, ray, block_size) {
            assert(!(rays@[i as int].wf() && ray_stops(
                maze@,
                *player,
                rays@[i as int],
                block_size as int,
            )));
            return false;
        }
        i += 1;
    }
    true
}

} // verus!
