//! Straight lines between integer points.

use vstd::prelude::*;
use crate::color::Color;
use crate::framebuffer::Framebuffer;

verus! {

/// A point of the screen plane; it need not lie on the screen.
#[derive(Clone, Copy, Debug, PartialEq, Eq, Structural)]
pub struct Vertex {
    pub x: isize,
    pub y: isize,
}

/// The pen that traces a line: where it is, and the error term that decides
/// its next move.
pub struct Pen {
    pub x: int,
    pub y: int,
    pub err: int,
}

/// The distance between `a` and `b`.
pub open spec fn span(a: int, b: int) -> int {
    if a < b {
        b - a
    } else {
        a - b
    }
}

/// One step from `a` towards `b`, and one step down when `a` is not below
/// `b`.
pub open spec fn toward(a: int, b: int) -> int {
    if a < b {
        1
    } else {
        -1
    }
}

/// The pen on the first point of the line from `v1` to `v2`.
pub open spec fn pen_start(v1: Vertex, v2: Vertex) -> Pen {
    Pen {
        x: v1.x as int,
        y: v1.y as int,
        err: span(v1.x as int, v2.x as int) - span(v1.y as int, v2.y as int),
    }
}

/// The pen after its next move: it steps along x when twice the error is
/// above minus the line's height, and along y when twice the error is below
/// the line's width; the error is lowered by the height with a step along x
/// and raised by the width with a step along y.
pub open spec fn pen_next(p: Pen, v1: Vertex, v2: Vertex) -> Pen {
    let dx = span(v1.x as int, v2.x as int);
    let dy = span(v1.y as int, v2.y as int);
    let along_x = 2 * p.err > -dy;
    let along_y = 2 * p.err < dx;
    Pen {
        x: if along_x {
            p.x + toward(v1.x as int, v2.x as int)
        } else {
            p.x
        },
        y: if along_y {
            p.y + toward(v1.y as int, v2.y as int)
        } else {
            p.y
        },
        err: p.err - (if along_x {
            dy
        } else {
            0
        }) + (if along_y {
            dx
        } else {
            0
        }),
    }
}

/// The pen after `n` moves.
pub open spec fn pen_at(v1: Vertex, v2: Vertex, n: nat) -> Pen
    decreases n,
{
    if n == 0 {
        pen_start(v1, v2)
    } else {
        pen_next(pen_at(v1, v2, (n - 1) as nat), v1, v2)
    }
}

/// Whether the pen stands on the last point of the line.
pub open spec fn pen_done(p: Pen, v2: Vertex) -> bool {
    p.x == v2.x && p.y == v2.y
}

/// Whether the pen draws `(x, y)` with its `n`-th move: it stands there after
/// `n` moves and has not reached the last point earlier.
pub open spec fn draws(v1: Vertex, v2: Vertex, n: nat, x: int, y: int) -> bool {
    &&& pen_at(v1, v2, n).x == x
    &&& pen_at(v1, v2, n).y == y
    &&& forall|m: nat| m < n ==> !pen_done(#[trigger] pen_at(v1, v2, m), v2)
}

/// Whether `(x, y)` is a point of the line from `v1` to `v2`.
pub open spec fn on_line(v1: Vertex, v2: Vertex, x: int, y: int) -> bool {
    exists|n: nat| #[trigger] draws(v1, v2, n, x, y)
}

/// Whether the pen draws `(x, y)` with one of its first `n` moves, the start
/// counted as move 0.
pub open spec fn drawn_before(v1: Vertex, v2: Vertex, n: nat, x: int, y: int) -> bool {
    exists|m: nat| m < n && #[trigger] draws(v1, v2, m, x, y)
}

/// Draws the line from `v1` to `v2`, both ends included, in `color`. The part
/// of the line outside the frame is dropped.
pub fn draw_line(fb: &mut Framebuffer, v1: &Vertex, v2: &Vertex, color: Color)
    requires
        old(fb).wf(),
    ensures
        final(fb).wf(),
        final(fb).same_shape(old(fb)),
        on_line(*v1, *v2, v1.x as int, v1.y as int),
        on_line(*v1, *v2, v2.x as int, v2.y as int),
        forall|px: int, py: int|
            old(fb).in_frame(px, py) ==> #[trigger] final(fb).pixel(px, py) == (if on_line(
                *v1,
                *v2,
                px,
                py,
            ) {
                color.hex()
            } else {
                old(fb).pixel(px, py)
            }),
{
    let hex: u32 = color.to_hex();
    let x1: i128 = v1.x as i128;
    let y1: i128 = v1.y as i128;
    let x2: i128 = v2.x as i128;
    let y2: i128 = v2.y as i128;
    let dx: i128 = if x1 < x2 {
        x2 - x1
    } else {
        x1 - x2
    };
    let dy: i128 = if y1 < y2 {
        y2 - y1
    } else {
        y1 - y2
    };
    let mut err: i128 = dx - dy;
    let mut x: isize = v1.x;
    let mut y: isize = v1.y;
    let ghost mut n: nat = 0;
    let ghost mut nx: int = 0;
    let ghost mut ny: int = 0;
    let ghost mut fall: int = 0;
    let ghost mut rise: int = 0;
    assert(draws(*v1, *v2, 0, v1.x as int, v1.y as int));
    loop
        invariant
            fb.wf(),
            fb.same_shape(old(fb)),
            hex == color.hex(),
            x1 == v1.x,
            y1 == v1.y,
            x2 == v2.x,
            y2 == v2.y,
            dx == span(x1 as int, x2 as int),
            dy == span(y1 as int, y2 as int),
            0 <= nx <= dx,
            0 <= ny <= dy,
            x == x1 + toward(x1 as int, x2 as int) * nx,
            y == y1 + toward(y1 as int, y2 as int) * ny,
            fall == nx * dy,
            rise == ny * dx,
            err == dx - dy - fall + rise,
            -2 * dy <= err <= 2 * dx,
            pen_at(*v1, *v2, n) == (Pen { x: x as int, y: y as int, err: err as int }),
            forall|m: nat| m < n ==> !pen_done(#[trigger] pen_at(*v1, *v2, m), *v2),
            on_line(*v1, *v2, v1.x as int, v1.y as int),
            forall|px: int, py: int|
                old(fb).in_frame(px, py) ==> #[trigger] fb.pixel(px, py) == (if drawn_before(
                    *v1,
                    *v2,
                    n,
                    px,
                    py,
                ) {
                    hex
                } else {
                    old(fb).pixel(px, py)
                }),
        decreases (dx - nx) + (dy - ny),
    {
        fb.point_signed(x, y, hex);
        proof {
            assert(draws(*v1, *v2, n, x as int, y as int));
            assert forall|px: int, py: int| old(fb).in_frame(px, py) implies #[trigger] fb.pixel(
                px,
                py,
            ) == (if drawn_before(*v1, *v2, n + 1, px, py) {
                hex
            } else {
                old(fb).pixel(px, py)
            }) by {
                if drawn_before(*v1, *v2, n, px, py) {
                    let m = choose|m: nat| m < n && #[trigger] draws(*v1, *v2, m, px, py);
                    assert(m < n + 1 && draws(*v1, *v2, m, px, py));
                }
                if px == x && py == y {
                    assert(n < n + 1 && draws(*v1, *v2, n, px, py));
                }
                if drawn_before(*v1, *v2, n + 1, px, py) {
                    let m = choose|m: nat| m < n + 1 && #[trigger] draws(*v1, *v2, m, px, py);
                    if m < n {
                        assert(drawn_before(*v1, *v2, n, px, py));
                    }
                }
            }
        }
        if x as i128 == x2 && y as i128 == y2 {
            proof {
                assert(pen_done(pen_at(*v1, *v2, n), *v2));
                assert forall|px: int, py: int| on_line(*v1, *v2, px, py) implies drawn_before(
                    *v1,
                    *v2,
                    n + 1,
                    px,
                    py,
                ) by {
                    let m = choose|m: nat| #[trigger] draws(*v1, *v2, m, px, py);
                    assert(m < n + 1);
                }
                assert forall|px: int, py: int| drawn_before(*v1, *v2, n + 1, px, py) implies on_line(
                    *v1,
                    *v2,
                    px,
                    py,
                ) by {
                    let m = choose|m: nat| m < n + 1 && #[trigger] draws(*v1, *v2, m, px, py);
                    assert(draws(*v1, *v2, m, px, py));
                }
            }
            return ;
        }
        proof {
            if nx == dx {
                assert(rise <= dx * dy - dx) by (nonlinear_arith)
                    requires
                        rise == ny * dx,
                        ny <= dy - 1,
                        0 <= dx,
                ;
                assert(fall == dx * dy) by (nonlinear_arith)
                    requires
                        fall == nx * dy,
                        nx == dx,
                ;
            }
            if ny == dy {
                assert(fall <= dx * dy - dy) by (nonlinear_arith)
                    requires
                        fall == nx * dy,
                        nx <= dx - 1,
                        0 <= dy,
                ;
                assert(rise == dx * dy) by (nonlinear_arith)
                    requires
                        rise == ny * dx,
                        ny == dy,
                ;
            }
            assert((nx + 1) * dy == nx * dy + dy) by (nonlinear_arith);
            assert((ny + 1) * dx == ny * dx + dx) by (nonlinear_arith);
            assert(toward(x1 as int, x2 as int) * (nx + 1) == toward(x1 as int, x2 as int) * nx
                + toward(x1 as int, x2 as int)) by (nonlinear_arith);
            assert(toward(y1 as int, y2 as int) * (ny + 1) == toward(y1 as int, y2 as int) * ny
                + toward(y1 as int, y2 as int)) by (nonlinear_arith);
            assert(toward(x1 as int, x2 as int) * dx == x2 - x1) by (nonlinear_arith)
                requires
                    dx == span(x1 as int, x2 as int),
            ;
            assert(toward(y1 as int, y2 as int) * dy == y2 - y1) by (nonlinear_arith)
                requires
                    dy == span(y1 as int, y2 as int),
            ;
        }
        let e2: i128 = 2 * err;
        if e2 > -dy {
            err = err - dy;
            if x1 < x2 {
                x = x + 1;
            } else {
                x = x - 1;
            }
            proof {
                nx = nx + 1;
                fall = fall + dy;
            }
        }
        if e2 < dx {
            err = err + dx;
            if y1 < y2 {
                y = y + 1;
            } else {
                y = y - 1;
            }
            proof {
                ny = ny + 1;
                rise = rise + dx;
            }
        }
        proof {
            n = n + 1;
        }
    }
}

} // verus!
