//! How far a ray that faces a wall squarely travels: at least the distance
//! to the face of the wall, and at most one step more.

use vstd::prelude::*;
use crate::cast_ray::{
    lemma_cell_between, lemma_cell_edges, lemma_stop_unique, ray_hit, ray_stops, sample_cell,
    sample_fx, sample_fy, sample_in_grid, stop_index, stops_at, STEP,
};
use crate::maze::{cell, cell_of, has_cell, in_grid, OPEN};
use crate::player::{Direction, Player, SCALE};

verus! {

/// The direction along the x axis, toward larger x.
pub open spec fn east() -> Direction {
    Direction { dx: SCALE, dy: 0 }
}

/// The direction along the x axis, toward smaller x.
pub open spec fn west() -> Direction {
    Direction { dx: (-SCALE) as i64, dy: 0 }
}

/// The direction along the y axis, toward larger y.
pub open spec fn south() -> Direction {
    Direction { dx: 0, dy: SCALE }
}

/// The direction along the y axis, toward smaller y.
pub open spec fn north() -> Direction {
    Direction { dx: 0, dy: (-SCALE) as i64 }
}

/// One step in fixed point.
pub open spec fn stride() -> int {
    STEP * SCALE
}

/// The coordinate `j` strides up from `from`.
pub open spec fn up(from: int, j: int) -> int {
    from + j * stride()
}

/// The coordinate `j` strides down from `from`.
pub open spec fn down(from: int, j: int) -> int {
    from - j * stride()
}

/// The near face of cell `wall` for a ray that comes up the axis.
pub open spec fn low_face(wall: int, block_size: int) -> int {
    wall * block_size * SCALE
}

/// The near face of cell `wall` for a ray that comes down the axis.
pub open spec fn high_face(wall: int, block_size: int) -> int {
    (wall + 1) * block_size * SCALE
}

/// The number of strides up from `from` that first reach `to` or pass it.
pub open spec fn strides_to_reach(from: int, to: int) -> int {
    (to - from + stride() - 1) / stride()
}

/// The number of strides down from `from` that first fall below `to`.
pub open spec fn strides_to_pass(from: int, to: int) -> int {
    (from - to) / stride() + 1
}

/// Marching up an axis from a cell below cell `wall`: the samples before
/// sample `strides_to_reach` lie in the cells from the first up to `wall`,
/// that sample lies in cell `wall`, and it lies less than one stride beyond
/// the face of the cell.
proof fn lemma_march_up(from: int, block_size: int, wall: int)
    requires
        block_size >= STEP,
        0 <= from,
        cell_of(from, block_size) < wall,
    ensures
        ({
            let k = strides_to_reach(from, low_face(wall, block_size));
            &&& k >= 1
            &&& forall|j: int|
                0 <= j < k ==> 0 <= #[trigger] up(from, j) && cell_of(from, block_size) <= cell_of(
                    up(from, j),
                    block_size,
                ) < wall
            &&& 0 <= up(from, k)
            &&& cell_of(up(from, k), block_size) == wall
            &&& 0 <= k * stride() - (low_face(wall, block_size) - from) < stride()
        }),
{
    let s = stride();
    let face = low_face(wall, block_size);
    let first = cell_of(from, block_size);
    let k = strides_to_reach(from, face);
    lemma_cell_edges(from, block_size);
    assert((first + 1) * block_size * SCALE <= face) by (nonlinear_arith)
        requires
            first + 1 <= wall,
            face == wall * block_size * SCALE,
            block_size > 0,
    ;
    assert(k * s <= face - from + s - 1 < k * s + s) by (nonlinear_arith)
        requires
            k == (face - from + s - 1) / s,
            s > 0,
    ;
    assert(k >= 1) by (nonlinear_arith)
        requires
            face - from + s - 1 < k * s + s,
            from < face,
            s > 0,
    ;
    assert forall|j: int| 0 <= j < k implies 0 <= #[trigger] up(from, j) && first <= cell_of(
        up(from, j),
        block_size,
    ) < wall by {
        assert(0 <= j * s <= (k - 1) * s && (k - 1) * s == k * s - s) by (nonlinear_arith)
            requires
                0 <= j <= k - 1,
                s > 0,
        ;
        lemma_cell_between(up(from, j), block_size, first, wall);
    }
    assert((wall + 1) * block_size * SCALE == face + block_size * SCALE && s <= block_size
        * SCALE) by (nonlinear_arith)
        requires
            face == wall * block_size * SCALE,
            s == STEP * SCALE,
            block_size >= STEP,
    ;
    lemma_cell_between(up(from, k), block_size, wall, wall + 1);
}

/// Marching down an axis from a cell above cell `wall`: the samples before
/// sample `strides_to_pass` lie in the cells from the first down to `wall`,
/// that sample lies in cell `wall`, and it lies at most one stride beyond the
/// face of the cell.
proof fn lemma_march_down(from: int, block_size: int, wall: int)
    requires
        block_size >= STEP,
        0 <= from,
        0 <= wall < cell_of(from, block_size),
    ensures
        ({
            let k = strides_to_pass(from, high_face(wall, block_size));
            &&& k >= 1
            &&& forall|j: int|
                0 <= j < k ==> 0 <= #[trigger] down(from, j) && wall < cell_of(
                    down(from, j),
                    block_size,
                ) <= cell_of(from, block_size)
            &&& 0 <= down(from, k)
            &&& cell_of(down(from, k), block_size) == wall
            &&& 0 < k * stride() - (from - high_face(wall, block_size)) <= stride()
        }),
{
    let s = stride();
    let face = high_face(wall, block_size);
    let first = cell_of(from, block_size);
    let k = strides_to_pass(from, face);
    let q = (from - face) / s;
    lemma_cell_edges(from, block_size);
    assert(face <= first * block_size * SCALE) by (nonlinear_arith)
        requires
            wall + 1 <= first,
            face == (wall + 1) * block_size * SCALE,
            block_size > 0,
    ;
    assert(q * s <= from - face < q * s + s && 0 <= q && (q + 1) * s == q * s + s)
        by (nonlinear_arith)
        requires
            q == (from - face) / s,
            0 <= from - face,
            s > 0,
    ;
    assert forall|j: int| 0 <= j < k implies 0 <= #[trigger] down(from, j) && wall < cell_of(
        down(from, j),
        block_size,
    ) <= first by {
        assert(0 <= j * s <= q * s) by (nonlinear_arith)
            requires
                0 <= j <= q,
                s > 0,
        ;
        lemma_cell_between(down(from, j), block_size, wall + 1, first + 1);
    }
    assert(wall * block_size * SCALE == face - block_size * SCALE && s <= block_size * SCALE
        && 0 <= wall * block_size * SCALE) by (nonlinear_arith)
        requires
            face == (wall + 1) * block_size * SCALE,
            s == STEP * SCALE,
            block_size >= STEP,
            0 <= wall,
    ;
    lemma_cell_between(down(from, k), block_size, wall, wall + 1);
}

/// The samples of a ray along an axis: one coordinate stays, the other moves
/// by whole strides.
proof fn lemma_axis_samples(player: Player, ray: Direction, j: int)
    ensures
        ray.dx == 0 ==> sample_fx(player, ray, j) == player.x,
        ray.dy == 0 ==> sample_fy(player, ray, j) == player.y,
        ray.dx == SCALE ==> sample_fx(player, ray, j) == up(player.x as int, j),
        ray.dy == SCALE ==> sample_fy(player, ray, j) == up(player.y as int, j),
        ray.dx == -SCALE ==> sample_fx(player, ray, j) == down(player.x as int, j),
        ray.dy == -SCALE ==> sample_fy(player, ray, j) == down(player.y as int, j),
        STEP * j * SCALE == j * stride(),
{
    assert(j * (STEP * 0) == 0) by (nonlinear_arith);
    assert(j * (STEP * (-SCALE)) == -(j * stride())) by (nonlinear_arith);
    assert(STEP * j * SCALE == j * stride()) by (nonlinear_arith);
}

/// Whether the `j`-th sample lies in an open cell of the maze.
spec fn in_open_cell(
    maze: Seq<Vec<char>>,
    player: Player,
    ray: Direction,
    block_size: int,
    j: int,
) -> bool {
    sample_in_grid(maze, player, ray, block_size, j) && sample_cell(
        maze,
        player,
        ray,
        block_size,
        j,
    ) == OPEN
}

/// A ray whose first `k` samples lie in open cells and whose next sample
/// lies in a cell that is not open stops at that sample.
proof fn lemma_stops_here(
    maze: Seq<Vec<char>>,
    player: Player,
    ray: Direction,
    block_size: int,
    k: int,
)
    requires
        0 <= k,
        forall|j: int| 0 <= j < k ==> in_open_cell(maze, player, ray, block_size, j),
        sample_in_grid(maze, player, ray, block_size, k),
        sample_cell(maze, player, ray, block_size, k) != OPEN,
    ensures
        ray_stops(maze, player, ray, block_size),
        stop_index(maze, player, ray, block_size) == k,
        ray_hit(maze, player, ray, block_size).impact == sample_cell(
            maze,
            player,
            ray,
            block_size,
            k,
        ),
{
    assert forall|j: int| 0 <= j <= k implies #[trigger] sample_in_grid(
        maze,
        player,
        ray,
        block_size,
        j,
    ) by {
        if j < k {
            assert(in_open_cell(maze, player, ray, block_size, j));
        }
    }
    assert forall|j: int| 0 <= j < k implies #[trigger] sample_cell(
        maze,
        player,
        ray,
        block_size,
        j,
    ) == OPEN by {
        assert(in_open_cell(maze, player, ray, block_size, j));
    }
    assert(stops_at(maze, player, ray, block_size, k));
    lemma_stop_unique(maze, player, ray, block_size, k, stop_index(maze, player, ray, block_size));
}

/// A camera that looks east along a row of open cells at a cell that is not
/// open: the ray stops in that cell, and the distance it reports is at least
/// the distance from the camera to the near face of that cell and less than
/// one step more. For a camera in the middle of its cell and a wall `n`
/// cells away, the distance to the face is `n` cells less half a cell.
pub proof fn lemma_wall_to_the_east(
    maze: Seq<Vec<char>>,
    player: Player,
    block_size: int,
    wall_col: int,
)
    requires
        block_size >= STEP,
        in_grid(maze, block_size, player.x as int, player.y as int),
        cell_of(player.x as int, block_size) < wall_col,
        forall|c: int|
            cell_of(player.x as int, block_size) <= c < wall_col ==> has_cell(
                maze,
                cell_of(player.y as int, block_size),
                c,
            ) && #[trigger] cell(maze, cell_of(player.y as int, block_size), c) == OPEN,
        has_cell(maze, cell_of(player.y as int, block_size), wall_col),
        cell(maze, cell_of(player.y as int, block_size), wall_col) != OPEN,
    ensures
        ray_stops(maze, player, east(), block_size),
        ray_hit(maze, player, east(), block_size).impact == cell(
            maze,
            cell_of(player.y as int, block_size),
            wall_col,
        ),
        0 <= STEP * stop_index(maze, player, east(), block_size) * SCALE - (low_face(
            wall_col,
            block_size,
        ) - player.x) < STEP * SCALE,
{
    let row = cell_of(player.y as int, block_size);
    let k = strides_to_reach(player.x as int, low_face(wall_col, block_size));
    lemma_march_up(player.x as int, block_size, wall_col);
    assert forall|j: int| 0 <= j < k implies in_open_cell(maze, player, east(), block_size, j) by {
        lemma_axis_samples(player, east(), j);
        assert(cell(maze, row, cell_of(up(player.x as int, j), block_size)) == OPEN);
    }
    lemma_axis_samples(player, east(), k);
    lemma_stops_here(maze, player, east(), block_size, k);
}

/// A camera that looks west along a row of open cells at a cell that is not
/// open: the ray stops in that cell, and the distance it reports is more than
/// the distance from the camera to the near face of that cell and at most one
/// step more.
pub proof fn lemma_wall_to_the_west(
    maze: Seq<Vec<char>>,
    player: Player,
    block_size: int,
    wall_col: int,
)
    requires
        block_size >= STEP,
        in_grid(maze, block_size, player.x as int, player.y as int),
        0 <= wall_col < cell_of(player.x as int, block_size),
        forall|c: int|
            wall_col < c <= cell_of(player.x as int, block_size) ==> #[trigger] cell(
                maze,
                cell_of(player.y as int, block_size),
                c,
            ) == OPEN,
        cell(maze, cell_of(player.y as int, block_size), wall_col) != OPEN,
    ensures
        ray_stops(maze, player, west(), block_size),
        ray_hit(maze, player, west(), block_size).impact == cell(
            maze,
            cell_of(player.y as int, block_size),
            wall_col,
        ),
        0 < STEP * stop_index(maze, player, west(), block_size) * SCALE - (player.x - high_face(
            wall_col,
            block_size,
        )) <= STEP * SCALE,
{
    let row = cell_of(player.y as int, block_size);
    let k = strides_to_pass(player.x as int, high_face(wall_col, block_size));
    lemma_march_down(player.x as int, block_size, wall_col);
    assert forall|j: int| 0 <= j < k implies in_open_cell(maze, player, west(), block_size, j) by {
        lemma_axis_samples(player, west(), j);
        assert(cell(maze, row, cell_of(down(player.x as int, j), block_size)) == OPEN);
    }
    lemma_axis_samples(player, west(), k);
    lemma_stops_here(maze, player, west(), block_size, k);
}

/// A camera that looks south along a column of open cells at a cell that is
/// not open: the ray stops in that cell, and the distance it reports is at
/// least the distance from the camera to the near face of that cell and less
/// than one step more.
pub proof fn lemma_wall_to_the_south(
    maze: Seq<Vec<char>>,
    player: Player,
    block_size: int,
    wall_row: int,
)
    requires
        block_size >= STEP,
        in_grid(maze, block_size, player.x as int, player.y as int),
        cell_of(player.y as int, block_size) < wall_row,
        forall|r: int|
            cell_of(player.y as int, block_size) <= r < wall_row ==> has_cell(
                maze,
                r,
                cell_of(player.x as int, block_size),
            ) && #[trigger] cell(maze, r, cell_of(player.x as int, block_size)) == OPEN,
        has_cell(maze, wall_row, cell_of(player.x as int, block_size)),
        cell(maze, wall_row, cell_of(player.x as int, block_size)) != OPEN,
    ensures
        ray_stops(maze, player, south(), block_size),
        ray_hit(maze, player, south(), block_size).impact == cell(
            maze,
            wall_row,
            cell_of(player.x as int, block_size),
        ),
        0 <= STEP * stop_index(maze, player, south(), block_size) * SCALE - (low_face(
            wall_row,
            block_size,
        ) - player.y) < STEP * SCALE,
{
    let col = cell_of(player.x as int, block_size);
    let k = strides_to_reach(player.y as int, low_face(wall_row, block_size));
    lemma_march_up(player.y as int, block_size, wall_row);
    assert forall|j: int| 0 <= j < k implies in_open_cell(maze, player, south(), block_size, j) by {
        lemma_axis_samples(player, south(), j);
        assert(cell(maze, cell_of(up(player.y as int, j), block_size), col) == OPEN);
    }
    lemma_axis_samples(player, south(), k);
    lemma_stops_here(maze, player, south(), block_size, k);
}

/// A camera that looks north along a column of open cells at a cell that is
/// not open: the ray stops in that cell, and the distance it reports is more
/// than the distance from the camera to the near face of that cell and at
/// most one step more.
pub proof fn lemma_wall_to_the_north(
    maze: Seq<Vec<char>>,
    player: Player,
    block_size: int,
    wall_row: int,
)
    requires
        block_size >= STEP,
        in_grid(maze, block_size, player.x as int, player.y as int),
        0 <= wall_row < cell_of(player.y as int, block_size),
        forall|r: int|
            wall_row < r <= cell_of(player.y as int, block_size) ==> has_cell(
                maze,
                r,
                cell_of(player.x as int, block_size),
            ) && #[trigger] cell(maze, r, cell_of(player.x as int, block_size)) == OPEN,
        has_cell(maze, wall_row, cell_of(player.x as int, block_size)),
        cell(maze, wall_row, cell_of(player.x as int, block_size)) != OPEN,
    ensures
        ray_stops(maze, player, north(), block_size),
        ray_hit(maze, player, north(), block_size).impact == cell(
            maze,
            wall_row,
            cell_of(player.x as int, block_size),
        ),
        0 < STEP * stop_index(maze, player, north(), block_size) * SCALE - (player.y - high_face(
            wall_row,
            block_size,
        )) <= STEP * SCALE,
{
    let col = cell_of(player.x as int, block_size);
    let k = strides_to_pass(player.y as int, high_face(wall_row, block_size));
    lemma_march_down(player.y as int, block_size, wall_row);
    assert forall|j: int| 0 <= j < k implies in_open_cell(maze, player, north(), block_size, j) by {
        lemma_axis_samples(player, north(), j);
        assert(cell(maze, cell_of(down(player.y as int, j), block_size), col) == OPEN);
    }
    lemma_axis_samples(player, north(), k);
    lemma_stops_here(maze, player, north(), block_size, k);
}

} // verus!
