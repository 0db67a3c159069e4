use raycaster::color::Color;
use raycaster::framebuffer::Framebuffer;
use raycaster::line_impl::{draw_line, Vertex};
use raycaster::polygon_impl::{draw_polygon, fill_polygon, vertices_fit};

fn v(x: isize, y: isize) -> Vertex {
    Vertex { x, y }
}

fn lit(fb: &Framebuffer) -> Vec<(usize, usize)> {
    let mut out = Vec::new();
    for y in 0..fb.height {
        for x in 0..fb.width {
            if fb.buffer[y * fb.width + x] != 0 {
                out.push((x, y));
            }
        }
    }
    out
}

fn picture(fb: &Framebuffer) -> Vec<String> {
    fb.buffer
        .chunks(fb.width)
        .map(|row| row.iter().map(|&p| if p != 0 { '#' } else { '.' }).collect())
        .collect()
}

const INK: Color = Color { r: 1, g: 2, b: 3 };

#[test]
fn point_signed_drops_negative_coordinates() {
    let mut fb = Framebuffer::new(3, 3);
    fb.point_signed(-1, 0, 5);
    fb.point_signed(0, -1, 5);
    fb.point_signed(isize::MIN, isize::MIN, 5);
    fb.point_signed(3, 0, 5);
    assert!(fb.buffer.iter().all(|&p| p == 0));
    fb.point_signed(2, 1, 5);
    assert_eq!(lit(&fb), vec![(2, 1)]);
}

#[test]
fn shallow_line() {
    let mut fb = Framebuffer::new(5, 3);
    draw_line(&mut fb, &v(0, 0), &v(3, 1), INK);
    assert_eq!(lit(&fb), vec![(0, 0), (1, 0), (2, 1), (3, 1)]);
    assert!(lit(&fb).iter().all(|&(x, y)| fb.buffer[y * 5 + x] == 0x010203));
    assert_eq!(fb.current_color, Color::new(255, 255, 255));
}

#[test]
fn steep_line_drawn_backwards() {
    let mut fb = Framebuffer::new(4, 6);
    draw_line(&mut fb, &v(2, 5), &v(1, 0), INK);
    assert_eq!(picture(&fb), vec![".#..", ".#..", ".#..", "..#.", "..#.", "..#."]);
}

#[test]
fn horizontal_vertical_and_diagonal_lines() {
    let mut fb = Framebuffer::new(5, 5);
    draw_line(&mut fb, &v(4, 0), &v(0, 0), INK);
    draw_line(&mut fb, &v(0, 1), &v(0, 4), INK);
    draw_line(&mut fb, &v(4, 4), &v(1, 1), INK);
    assert_eq!(picture(&fb), vec!["#####", "##...", "#.#..", "#..#.", "#...#"]);
}

#[test]
fn line_of_one_point() {
    let mut fb = Framebuffer::new(3, 3);
    draw_line(&mut fb, &v(1, 2), &v(1, 2), INK);
    assert_eq!(lit(&fb), vec![(1, 2)]);
}

#[test]
fn line_is_clipped_to_the_frame() {
    let mut fb = Framebuffer::new(3, 3);
    draw_line(&mut fb, &v(-2, -2), &v(5, 5), INK);
    assert_eq!(lit(&fb), vec![(0, 0), (1, 1), (2, 2)]);
    let before = fb.buffer.clone();
    draw_line(&mut fb, &v(-5, -1), &v(9, -1), INK);
    draw_line(&mut fb, &v(3, 0), &v(3, 40), INK);
    assert_eq!(fb.buffer, before);
}

#[test]
fn polygon_outline_joins_every_vertex_to_the_next() {
    let mut fb = Framebuffer::new(6, 5);
    draw_polygon(&mut fb, &[v(1, 0), v(4, 0), v(4, 3), v(1, 3)], INK);
    assert_eq!(picture(&fb), vec![".####.", ".#..#.", ".#..#.", ".####.", "......"]);
}

#[test]
fn polygon_with_fewer_than_three_vertices_draws_nothing() {
    let mut fb = Framebuffer::new(4, 4);
    draw_polygon(&mut fb, &[], INK);
    draw_polygon(&mut fb, &[v(1, 1)], INK);
    draw_polygon(&mut fb, &[v(0, 0), v(3, 3)], INK);
    fill_polygon(&mut fb, &[], INK);
    fill_polygon(&mut fb, &[v(0, 0), v(3, 3)], INK);
    assert!(fb.buffer.iter().all(|&p| p == 0));
}

#[test]
fn filled_triangle() {
    let mut fb = Framebuffer::new(7, 7);
    fill_polygon(&mut fb, &[v(1, 1), v(5, 1), v(1, 5)], INK);
    assert_eq!(
        picture(&fb),
        vec![".......", ".#####.", ".####..", ".###...", ".##....", ".......", "......."]
    );
    assert_eq!(fb.buffer[1 * 7 + 1], 0x010203);
}

#[test]
fn filled_rectangle_leaves_out_the_last_scan_line() {
    let mut fb = Framebuffer::new(6, 5);
    fill_polygon(&mut fb, &[v(1, 0), v(4, 0), v(4, 3), v(1, 3)], INK);
    assert_eq!(picture(&fb), vec![".####.", ".####.", ".####.", "......", "......"]);
}

#[test]
fn crossings_are_rounded_toward_zero_and_sorted() {
    // On line 1 the slanted edge crosses at 10 - 3 / 2, which rounds to 9,
    // and is found after the crossing at 10.
    let mut fb = Framebuffer::new(12, 3);
    fill_polygon(&mut fb, &[v(10, 0), v(7, 2), v(10, 2)], INK);
    assert_eq!(lit(&fb), vec![(10, 0), (9, 1), (10, 1)]);
}

#[test]
fn concave_polygon_has_two_spans_on_a_line() {
    // A shape like the letter M: on line 1 the scan meets four edges.
    let mut fb = Framebuffer::new(9, 4);
    fill_polygon(&mut fb, &[v(0, 3), v(0, 0), v(4, 2), v(8, 0), v(8, 3)], INK);
    assert_eq!(picture(&fb), vec!["#.......#", "###...###", "#########", "........."]);
}

#[test]
fn filled_polygon_is_clipped_to_the_frame() {
    let mut fb = Framebuffer::new(3, 3);
    fill_polygon(&mut fb, &[v(-4, -4), v(8, -4), v(8, 8), v(-4, 8)], INK);
    assert!(fb.buffer.iter().all(|&p| p == 0x010203));
}

#[test]
fn vertices_fit_up_to_two_to_the_sixty_two() {
    let bound: isize = 1 << 62;
    assert!(vertices_fit(&[]));
    assert!(vertices_fit(&[v(0, 0), v(bound, -bound), v(-bound, bound)]));
    assert!(!vertices_fit(&[v(0, 0), v(bound + 1, 0)]));
    assert!(!vertices_fit(&[v(0, -bound - 1)]));
    assert!(!vertices_fit(&[v(isize::MIN, 0), v(0, 0)]));
    assert!(!vertices_fit(&[v(0, isize::MAX)]));
}

#[test]
fn polygon_reaching_far_off_the_screen_is_filled_on_the_screen() {
    let mut fb = Framebuffer::new(3, 3);
    fill_polygon(&mut fb, &[v(-100_000, 0), v(1, 0), v(1, 2), v(-100_000, 2)], INK);
    assert_eq!(picture(&fb), vec!["##.", "##.", "..."]);
}
