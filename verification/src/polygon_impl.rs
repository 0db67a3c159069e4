//! Outlined and filled polygons.

use vstd::prelude::*;
use vstd::relations::{sorted_by, total_ordering};
use vstd::seq_lib::lemma_sorted_unique;
use crate::color::Color;
use crate::framebuffer::Framebuffer;
use crate::line_impl::{draw_line, on_line, Vertex};

verus! {

/// The vertex after vertex `i`, the first one following the last.
pub open spec fn next_index(i: int, len: int) -> int {
    (i + 1) % len
}

/// Whether `(x, y)` is a point of the edge that starts at vertex `i`.
pub open spec fn on_edge(vertices: Seq<Vertex>, i: int, x: int, y: int) -> bool {
    on_line(vertices[i], vertices[next_index(i, vertices.len() as int)], x, y)
}

/// Whether `(x, y)` is a point of one of the first `n` edges.
pub open spec fn on_edges(vertices: Seq<Vertex>, n: int, x: int, y: int) -> bool {
    exists|i: int| 0 <= i < n && #[trigger] on_edge(vertices, i, x, y)
}

/// Draws the outline of a polygon in `color`: a line from every vertex to
/// the next, and from the last to the first. Fewer than three vertices draw
/// nothing.
pub fn draw_polygon(framebuffer: &mut Framebuffer, vertices: &[Vertex], color: Color)
    requires
        old(framebuffer).wf(),
    ensures
        final(framebuffer).wf(),
        final(framebuffer).same_shape(old(framebuffer)),
        forall|px: int, py: int|
            old(framebuffer).in_frame(px, py) ==> #[trigger] final(framebuffer).pixel(px, py) == (
            if vertices@.len() >= 3 && on_edges(vertices@, vertices@.len() as int, px, py) {
                color.hex()
            } else {
                old(framebuffer).pixel(px, py)
            }),
{
    let len: usize = vertices.len();
    if len < 3 {
        return ;
    }
    let mut i: usize = 0;
    while i < len
        invariant
            i <= len,
            len == vertices@.len(),
            len >= 3,
            framebuffer.wf(),
            framebuffer.same_shape(old(framebuffer)),
            forall|px: int, py: int|
                old(framebuffer).in_frame(px, py) ==> #[trigger] framebuffer.pixel(px, py) == (
                if on_edges(vertices@, i as int, px, py) {
                    color.hex()
                } else {
                    old(framebuffer).pixel(px, py)
                }),
        decreases len - i,
    {
        let v1: &Vertex = &vertices[i];
        let v2: &Vertex = &vertices[(i + 1) % len];
        let ghost before = *framebuffer;
        draw_line(framebuffer, v1, v2, color);
        proof {
            assert forall|px: int, py: int| old(framebuffer).in_frame(px, py) implies #[trigger] framebuffer.pixel(
                px,
                py,
            ) == (if on_edges(vertices@, i + 1, px, py) {
                color.hex()
            } else {
                old(framebuffer).pixel(px, py)
            }) by {
                let here = on_edge(vertices@, i as int, px, py);
                assert(framebuffer.pixel(px, py) == (if here {
                    color.hex()
                } else {
                    before.pixel(px, py)
                }));
                if on_edges(vertices@, i as int, px, py) {
                    let e = choose|e: int| 0 <= e < i && #[trigger] on_edge(vertices@, e, px, py);
                    assert(0 <= e < i + 1 && on_edge(vertices@, e, px, py));
                }
                if here {
                    assert(0 <= i < i + 1 && on_edge(vertices@, i as int, px, py));
                }
                if on_edges(vertices@, i + 1, px, py) {
                    let e = choose|e: int|
                        0 <= e < i + 1 && #[trigger] on_edge(vertices@, e, px, py);
                    if e < i {
                        assert(on_edges(vertices@, i as int, px, py));
                    }
                }
            }
        }
        i += 1;
    }
}

/// Coordinates up to this magnitude can be scanned without overflow.
pub open spec fn max_coordinate() -> int {
    0x4000_0000_0000_0000
}

/// Both coordinates are at most `max_coordinate()` in magnitude.
pub open spec fn vertex_fits(v: Vertex) -> bool {
    &&& -max_coordinate() <= v.x <= max_coordinate()
    &&& -max_coordinate() <= v.y <= max_coordinate()
}

/// Whether the edge between `vi` and `vj` crosses scan line `y`: one end is
/// below the line and the other is on it or above.
pub open spec fn crosses(vi: Vertex, vj: Vertex, y: int) -> bool {
    (vi.y > y && vj.y <= y) || (vj.y > y && vi.y <= y)
}

pub open spec fn magnitude(a: int) -> int {
    if a < 0 {
        -a
    } else {
        a
    }
}

/// `a / b` rounded toward zero.
pub open spec fn quotient_toward_zero(a: int, b: int) -> int {
    if (a < 0) != (b < 0) {
        -(magnitude(a) / magnitude(b))
    } else {
        magnitude(a) / magnitude(b)
    }
}

/// Where the edge from `vj` to `vi` crosses scan line `y`: `vj.x` plus the
/// edge's width times the part of its height that lies before `y`, rounded
/// toward zero.
pub open spec fn crossing_x(vi: Vertex, vj: Vertex, y: int) -> int {
    vj.x + quotient_toward_zero((y - vj.y) * (vi.x - vj.x), vi.y - vj.y)
}

/// The vertex before vertex `i`, the last one preceding the first.
pub open spec fn previous_index(i: int, len: int) -> int {
    if i == 0 {
        len - 1
    } else {
        i - 1
    }
}

/// The crossings of scan line `y` with the edges that end at the first `n`
/// vertices, in the order of the vertices.
pub open spec fn crossings(vertices: Seq<Vertex>, y: int, n: nat) -> Seq<i128>
    decreases n,
{
    if n == 0 {
        Seq::empty()
    } else {
        let rest = crossings(vertices, y, (n - 1) as nat);
        let vi = vertices[n - 1];
        let vj = vertices[previous_index(n - 1, vertices.len() as int)];
        if crosses(vi, vj, y) {
            rest.push(crossing_x(vi, vj, y) as i128)
        } else {
            rest
        }
    }
}

/// The order in which crossings are sorted.
pub open spec fn ascending() -> spec_fn(i128, i128) -> bool {
    |a: i128, b: i128| a <= b
}

/// The crossings of scan line `y` with all edges, from left to right.
pub open spec fn scan_nodes(vertices: Seq<Vertex>, y: int) -> Seq<i128> {
    crossings(vertices, y, vertices.len()).sort_by(ascending())
}

/// Whether `x` lies in the `k`-th span of `nodes`, which runs from node `2k`
/// to node `2k + 1`, both included.
pub open spec fn span_covers(nodes: Seq<i128>, k: int, x: int) -> bool {
    0 <= k && 2 * k + 1 < nodes.len() && nodes[2 * k] <= x <= nodes[2 * k + 1]
}

/// Whether `x` lies in one of the first `n` spans of `nodes`.
pub open spec fn spans_cover(nodes: Seq<i128>, n: int, x: int) -> bool {
    exists|k: int| k < n && #[trigger] span_covers(nodes, k, x)
}

/// Whether the filled polygon covers `(x, y)`: `x` lies in a span between
/// two consecutive crossings of scan line `y`, the first with the second, the
/// third with the fourth, and so on; a last crossing without a partner is
/// left out.
pub open spec fn fill_covers(vertices: Seq<Vertex>, x: int, y: int) -> bool {
    spans_cover(scan_nodes(vertices, y), scan_nodes(vertices, y).len() as int, x)
}

/// A scan line that has all vertices on one side crosses no edge.
pub proof fn lemma_no_crossings_outside(vertices: Seq<Vertex>, y: int, n: nat)
    requires
        n <= vertices.len(),
        (forall|i: int| 0 <= i < vertices.len() ==> (#[trigger] vertices[i]).y > y) || (forall|
            i: int,
        | 0 <= i < vertices.len() ==> (#[trigger] vertices[i]).y <= y),
    ensures
        crossings(vertices, y, n).len() == 0,
        n == vertices.len() ==> scan_nodes(vertices, y).len() == 0,
    decreases n,
{
    if n > 0 {
        lemma_no_crossings_outside(vertices, y, (n - 1) as nat);
        let vi = vertices[n - 1];
        let vj = vertices[previous_index(n - 1, vertices.len() as int)];
        assert(!crosses(vi, vj, y));
    }
    if n == vertices.len() {
        let raw = crossings(vertices, y, n);
        lemma_ascending_is_total();
        raw.lemma_sort_by_ensures(ascending());
        raw.to_multiset_ensures();
        raw.sort_by(ascending()).to_multiset_ensures();
    }
}

/// Ascending order of integers is a total order.
pub proof fn lemma_ascending_is_total()
    ensures
        total_ordering(ascending()),
{
    let leq = ascending();
    assert(vstd::relations::reflexive(leq));
    assert(vstd::relations::antisymmetric(leq));
    assert(vstd::relations::transitive(leq));
    assert(vstd::relations::strongly_connected(leq));
}

/// `a / b` rounded toward zero.
fn quotient(a: i128, b: i128) -> (q: i128)
    requires
        b != 0,
        magnitude(a as int) <= 0x4000_0000_0000_0000_0000_0000_0000_0000,
        magnitude(b as int) <= 0x4000_0000_0000_0000_0000_0000_0000_0000,
    ensures
        q == quotient_toward_zero(a as int, b as int),
        magnitude(q as int) <= magnitude(a as int),
{
    let ua: u128 = if a < 0 {
        (-a) as u128
    } else {
        a as u128
    };
    let ub: u128 = if b < 0 {
        (-b) as u128
    } else {
        b as u128
    };
    let uq: u128 = ua / ub;
    assert(uq <= ua) by (nonlinear_arith)
        requires
            uq == ua / ub,
            ub >= 1,
    ;
    if (a < 0) != (b < 0) {
        -(uq as i128)
    } else {
        uq as i128
    }
}

/// Collects the crossings of scan line `y` in the order of the vertices.
fn scan(vertices: &[Vertex], y: i128) -> (nodes: Vec<i128>)
    requires
        vertices@.len() >= 1,
        forall|i: int| 0 <= i < vertices@.len() ==> vertex_fits(#[trigger] vertices@[i]),
        -max_coordinate() <= y <= max_coordinate(),
    ensures
        nodes@ == crossings(vertices@, y as int, vertices@.len()),
{
    let len: usize = vertices.len();
    let mut nodes: Vec<i128> = Vec::new();
    let mut j: usize = len - 1;
    let mut i: usize = 0;
    while i < len
        invariant
            i <= len,
            len == vertices@.len(),
            len >= 1,
            j == previous_index(i as int, len as int),
            forall|k: int| 0 <= k < vertices@.len() ==> vertex_fits(#[trigger] vertices@[k]),
            -max_coordinate() <= y <= max_coordinate(),
            nodes@ == crossings(vertices@, y as int, i as nat),
        decreases len - i,
    {
        let vi: &Vertex = &vertices[i];
        let vj: &Vertex = &vertices[j];
        assert(vertex_fits(vertices@[i as int]));
        assert(vertex_fits(vertices@[j as int]));
        let vix: i128 = vi.x as i128;
        let viy: i128 = vi.y as i128;
        let vjx: i128 = vj.x as i128;
        let vjy: i128 = vj.y as i128;
        if (viy > y && vjy <= y) || (vjy > y && viy <= y) {
            let rise: i128 = y - vjy;
            let width: i128 = vix - vjx;
            assert(magnitude(rise * width) <= 0x8000_0000_0000_0000 * 0x8000_0000_0000_0000)
                by (nonlinear_arith)
                requires
                    -0x8000_0000_0000_0000 <= rise <= 0x8000_0000_0000_0000,
                    -0x8000_0000_0000_0000 <= width <= 0x8000_0000_0000_0000,
            ;
            let node_x: i128 = vjx + quotient(rise * width, viy - vjy);
            nodes.push(node_x);
        }
        j = i;
        i += 1;
    }
    nodes
}

/// `sort` of std slices, on the crossings of a scan line: afterwards the
/// vector holds the same numbers as before, each as often as before, in
/// ascending order.
#[verifier::external_body]
fn sort_ascending(nodes: &mut Vec<i128>)
    ensures
        final(nodes)@.to_multiset() == old(nodes)@.to_multiset(),
        forall|i: int, j: int|
            0 <= i < j < final(nodes)@.len() ==> final(nodes)@[i] <= final(nodes)@[j],
{
    nodes.sort();
}

/// Paints every span of `nodes` on scan line `y`.
fn fill_spans(framebuffer: &mut Framebuffer, nodes: &Vec<i128>, y: i128, hex: u32)
    requires
        old(framebuffer).wf(),
    ensures
        final(framebuffer).wf(),
        final(framebuffer).same_shape(old(framebuffer)),
        forall|px: int, py: int|
            old(framebuffer).in_frame(px, py) ==> #[trigger] final(framebuffer).pixel(px, py) == (
            if py == y && spans_cover(nodes@, nodes@.len() as int, px) {
                hex
            } else {
                old(framebuffer).pixel(px, py)
            }),
{
    let len: usize = nodes.len();
    let mut k: usize = 0;
    while 2 * (k as u128) + 1 < len as u128
        invariant
            len == nodes@.len(),
            2 * k <= len,
            framebuffer.wf(),
            framebuffer.same_shape(old(framebuffer)),
            forall|px: int, py: int|
                old(framebuffer).in_frame(px, py) ==> #[trigger] framebuffer.pixel(px, py) == (
                if py == y && spans_cover(nodes@, k as int, px) {
                    hex
                } else {
                    old(framebuffer).pixel(px, py)
                }),
        decreases len - 2 * k,
    {
        let start: i128 = nodes[2 * k];
        let end: i128 = nodes[2 * k + 1];
        let ghost before = *framebuffer;
        let mut x: i128 = start;
        loop
            invariant_except_break
                start <= x,
                x == start || x <= end,
                forall|px: int, py: int|
                    old(framebuffer).in_frame(px, py) ==> #[trigger] framebuffer.pixel(px, py)
                        == (if py == y && start <= px < x {
                        hex
                    } else {
                        before.pixel(px, py)
                    }),
            invariant
                framebuffer.wf(),
                framebuffer.same_shape(old(framebuffer)),
                before.width == old(framebuffer).width,
                before.height == old(framebuffer).height,
            ensures
                forall|px: int, py: int|
                    old(framebuffer).in_frame(px, py) ==> #[trigger] framebuffer.pixel(px, py)
                        == (if py == y && start <= px <= end {
                        hex
                    } else {
                        before.pixel(px, py)
                    }),
            decreases end - x,
        {
            if x > end {
                break ;
            }
            if 0 <= x && x <= usize::MAX as i128 && 0 <= y && y <= usize::MAX as i128 {
                framebuffer.point(x as usize, y as usize, hex);
            }
            if x == end {
                break ;
            }
            x = x + 1;
        }
        proof {
            assert forall|px: int, py: int| old(framebuffer).in_frame(px, py) implies #[trigger] framebuffer.pixel(
                px,
                py,
            ) == (if py == y && spans_cover(nodes@, k + 1, px) {
                hex
            } else {
                old(framebuffer).pixel(px, py)
            }) by {
                let here = span_covers(nodes@, k as int, px);
                assert(framebuffer.pixel(px, py) == (if py == y && here {
                    hex
                } else {
                    before.pixel(px, py)
                }));
                if spans_cover(nodes@, k as int, px) {
                    let s = choose|s: int| s < k && #[trigger] span_covers(nodes@, s, px);
                    assert(s < k + 1 && span_covers(nodes@, s, px));
                }
                if here {
                    assert(k < k + 1 && span_covers(nodes@, k as int, px));
                }
                if spans_cover(nodes@, k + 1, px) {
                    let s = choose|s: int| s < k + 1 && #[trigger] span_covers(nodes@, s, px);
                    if s < k {
                        assert(spans_cover(nodes@, k as int, px));
                    }
                }
            }
        }
        k += 1;
    }
    proof {
        assert forall|px: int| spans_cover(nodes@, nodes@.len() as int, px) implies spans_cover(
            nodes@,
            k as int,
            px,
        ) by {
            let s = choose|s: int| s < nodes@.len() && #[trigger] span_covers(nodes@, s, px);
            assert(s < k);
        }
        assert forall|px: int| spans_cover(nodes@, k as int, px) implies spans_cover(
            nodes@,
            nodes@.len() as int,
            px,
        ) by {
            let s = choose|s: int| s < k && #[trigger] span_covers(nodes@, s, px);
            assert(s < nodes@.len() && span_covers(nodes@, s, px));
        }
    }
}

/// Whether every vertex fits.
pub fn vertices_fit(vertices: &[Vertex]) -> (ok: bool)
    ensures
        ok == (forall|i: int| 0 <= i < vertices@.len() ==> vertex_fits(#[trigger] vertices@[i])),
{
    let mut i: usize = 0;
    while i < vertices.len()
        invariant
            i <= vertices@.len(),
            forall|k: int| 0 <= k < i ==> vertex_fits(#[trigger] vertices@[k]),
        decreases vertices@.len() - i,
    {
        let x: i128 = vertices[i].x as i128;
        let y: i128 = vertices[i].y as i128;
        let bound: i128 = 0x4000_0000_0000_0000;
        if x < -bound || x > bound || y < -bound || y > bound {
            assert(!vertex_fits(vertices@[i as int]));
            return false;
        }
        i += 1;
    }
    true
}

/// Fills a polygon in `color`, scan line by scan line: on every line from
/// the lowest to the highest vertex coordinate, the spans between the line's
/// crossings with the edges are painted. Fewer than three vertices fill
/// nothing.
pub fn fill_polygon(framebuffer: &mut Framebuffer, vertices: &[Vertex], color: Color)
    requires
        old(framebuffer).wf(),
        forall|i: int| 0 <= i < vertices@.len() ==> vertex_fits(#[trigger] vertices@[i]),
    ensures
        final(framebuffer).wf(),
        final(framebuffer).same_shape(old(framebuffer)),
        forall|px: int, py: int|
            old(framebuffer).in_frame(px, py) ==> #[trigger] final(framebuffer).pixel(px, py) == (
            if vertices@.len() >= 3 && fill_covers(vertices@, px, py) {
                color.hex()
            } else {
                old(framebuffer).pixel(px, py)
            }),
{
    let len: usize = vertices.len();
    if len < 3 {
        return ;
    }
    let hex: u32 = color.to_hex();
    let mut y_min: isize = vertices[0].y;
    let mut y_max: isize = vertices[0].y;
    let mut i: usize = 0;
    assert(vertex_fits(vertices@[0]));
    while i < len
        invariant
            i <= len,
            len == vertices@.len(),
            forall|k: int| 0 <= k < vertices@.len() ==> vertex_fits(#[trigger] vertices@[k]),
            -max_coordinate() <= y_min <= y_max <= max_coordinate(),
            forall|k: int| 0 <= k < i ==> y_min <= (#[trigger] vertices@[k]).y <= y_max,
        decreases len - i,
    {
        let vy: isize = vertices[i].y;
        assert(vertex_fits(vertices@[i as int]));
        if vy < y_min {
            y_min = vy;
        }
        if vy > y_max {
            y_max = vy;
        }
        i += 1;
    }
    let top: i128 = y_max as i128;
    let mut y: i128 = y_min as i128;
    while y <= top
        invariant
            y_min <= y <= top + 1,
            top == y_max,
            len == vertices@.len(),
            len >= 3,
            hex == color.hex(),
            forall|k: int| 0 <= k < vertices@.len() ==> vertex_fits(#[trigger] vertices@[k]),
            -max_coordinate() <= y_min <= y_max <= max_coordinate(),
            framebuffer.wf(),
            framebuffer.same_shape(old(framebuffer)),
            forall|px: int, py: int|
                old(framebuffer).in_frame(px, py) ==> #[trigger] framebuffer.pixel(px, py) == (
                if y_min <= py < y && fill_covers(vertices@, px, py) {
                    hex
                } else {
                    old(framebuffer).pixel(px, py)
                }),
        decreases top + 1 - y,
    {
        let mut nodes: Vec<i128> = scan(vertices, y);
        let ghost raw = nodes@;
        sort_ascending(&mut nodes);
        proof {
            lemma_ascending_is_total();
            raw.lemma_sort_by_ensures(ascending());
            assert(sorted_by(nodes@, ascending()));
            lemma_sorted_unique(nodes@, raw.sort_by(ascending()), ascending());
            assert(nodes@ == scan_nodes(vertices@, y as int));
        }
        fill_spans(framebuffer, &nodes, y, hex);
        proof {
            assert forall|px: int, py: int| old(framebuffer).in_frame(px, py) implies #[trigger] framebuffer.pixel(
                px,
                py,
            ) == (if y_min <= py < y + 1 && fill_covers(vertices@, px, py) {
                hex
            } else {
                old(framebuffer).pixel(px, py)
            }) by {}
        }
        y = y + 1;
    }
    proof {
        assert forall|px: int, py: int| fill_covers(vertices@, px, py) implies y_min <= py
            <= y_max by {
            if py < y_min || py > y_max {
                lemma_no_crossings_outside(vertices@, py, vertices@.len());
            }
        }
    }
}

} // verus!
