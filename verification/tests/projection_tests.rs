use raycaster::color::Color;
use raycaster::framebuffer::Framebuffer;
use raycaster::player::{Direction, Player, SCALE};
use raycaster::projection::{
    apply_texture, draw_stake, render3d, stake_extent, PROJECTION_PLANE_DISTANCE,
};

fn grid(rows: &[&str]) -> Vec<Vec<char>> {
    rows.iter().map(|r| r.chars().collect()).collect()
}

fn column(fb: &Framebuffer, x: usize) -> Vec<u32> {
    (0..fb.height).map(|y| fb.buffer[y * fb.width + x]).collect()
}

#[test]
fn plane_distance_is_sixty() {
    assert_eq!(PROJECTION_PLANE_DISTANCE, 60);
}

#[test]
fn stake_extent_centers_the_slice() {
    // Height 600 * 60 / (2 * 100) = 180 around row 300.
    assert_eq!(stake_extent(600, 100, 60), (210, 390));
    assert_eq!(stake_extent(600, 120, 60), (225, 375));
    assert_eq!(stake_extent(40, 40, 60), (5, 35));
}

#[test]
fn stake_extent_is_clipped_to_the_screen() {
    assert_eq!(stake_extent(600, 10, 60), (0, 600));
    assert_eq!(stake_extent(600, 30, 60), (0, 600));
    assert_eq!(stake_extent(600, 40, 60), (75, 525));
    assert_eq!(stake_extent(600, 0, 60), (0, 600));
    assert_eq!(stake_extent(0, 50, 60), (0, 0));
}

#[test]
fn stake_extent_rounds_down() {
    // 601 * 140 / 400 = 210.35, 601 * 260 / 400 = 390.65.
    assert_eq!(stake_extent(601, 100, 60), (210, 390));
    // 7 * 1940 / 4000 = 3.395, 7 * 2060 / 4000 = 3.605: no row at all.
    assert_eq!(stake_extent(7, 1000, 60), (3, 3));
    assert_eq!(stake_extent(600, 1 << 62, 60), (299, 300));
    assert_eq!(stake_extent(600, 100, 0), (300, 300));
}

#[test]
fn nearer_walls_are_at_least_as_tall() {
    let mut last = (0usize, 600usize);
    let mut d = 10u64;
    while d <= 3000 {
        let (top, bottom) = stake_extent(600, d, 60);
        assert!(top >= last.0);
        assert!(bottom <= last.1);
        assert!(bottom - top <= last.1 - last.0);
        last = (top, bottom);
        d += 10;
    }
    assert_eq!(last, (297, 303));
}

#[test]
fn draw_stake_paints_one_column_in_the_current_color() {
    let mut fb = Framebuffer::new(3, 40);
    fb.set_current_color(Color::new(0, 255, 0));
    draw_stake(&mut fb, 1, 40, 60);
    let expected: Vec<u32> = (0..40).map(|y| if (5..35).contains(&y) { 0x00FF00 } else { 0 }).collect();
    assert_eq!(column(&fb, 1), expected);
    assert!(column(&fb, 0).iter().all(|&p| p == 0));
    assert!(column(&fb, 2).iter().all(|&p| p == 0));
    assert_eq!(fb.current_color, Color::new(0, 255, 0));
}

#[test]
fn draw_stake_outside_the_screen_paints_nothing() {
    let mut fb = Framebuffer::new(3, 40);
    draw_stake(&mut fb, 3, 40, 60);
    draw_stake(&mut fb, usize::MAX, 40, 60);
    assert!(fb.buffer.iter().all(|&p| p == 0));
}

#[test]
fn apply_texture_stretches_the_texture_over_the_slice() {
    // A 2 by 3 texture: rows 10,11 / 20,21 / 30,31.
    let texture = [10u32, 11, 20, 21, 30, 31];
    let mut fb = Framebuffer::new(4, 40);
    // Column 1 of 4 maps to texture column 1 * 2 / 4 = 0; column 3 to 3 * 2 / 4 = 1.
    apply_texture(&mut fb, 1, 40, 60, &texture, 2, 3);
    apply_texture(&mut fb, 3, 40, 60, &texture, 2, 3);
    // Rows 5..35: texture row (y - 5) * 3 / 30.
    let expect = |base: u32| -> Vec<u32> {
        (0..40usize)
            .map(|y| {
                if y < 5 || y >= 35 {
                    0
                } else if y < 15 {
                    10 + base
                } else if y < 25 {
                    20 + base
                } else {
                    30 + base
                }
            })
            .collect()
    };
    assert_eq!(column(&fb, 1), expect(0));
    assert_eq!(column(&fb, 3), expect(1));
    assert!(column(&fb, 0).iter().all(|&p| p == 0));
    assert!(column(&fb, 2).iter().all(|&p| p == 0));
}

#[test]
fn apply_texture_drops_texels_that_do_not_exist() {
    // The array is shorter than the 2 by 3 it claims: the last row is missing.
    let texture = [10u32, 11, 20, 21];
    let mut fb = Framebuffer::new(4, 40);
    fb.set_background_color(Color::new(0, 0, 7));
    fb.clear();
    apply_texture(&mut fb, 3, 40, 60, &texture, 2, 3);
    let expected: Vec<u32> = (0..40usize)
        .map(|y| if (5..15).contains(&y) { 11 } else if (15..25).contains(&y) { 21 } else { 7 })
        .collect();
    assert_eq!(column(&fb, 3), expected);
    // No texture at all, and a column off the screen.
    let before = fb.buffer.clone();
    apply_texture(&mut fb, 1, 40, 60, &[], 0, 0);
    apply_texture(&mut fb, 1, 40, 60, &texture, 0, 3);
    apply_texture(&mut fb, 4, 40, 60, &texture, 2, 2);
    assert_eq!(fb.buffer, before);
}

fn scene() -> (Vec<Vec<char>>, Player) {
    // Cells of 25 units; the camera stands in the middle of cell (1, 1).
    let maze = grid(&["+-----+", "|    g|", "|     |", "+-----+"]);
    let player = Player::new(37 * SCALE + SCALE / 2, 37 * SCALE + SCALE / 2, Direction { dx: SCALE, dy: 0 });
    (maze, player)
}

#[test]
fn render3d_draws_one_slice_per_ray() {
    let (maze, player) = scene();
    let rays = vec![
        Direction { dx: 0, dy: -SCALE }, // north: '-' at 20
        Direction { dx: SCALE, dy: 0 },  // east: 'g' at 90
        Direction { dx: 0, dy: SCALE },  // south: '-' at 40
        Direction { dx: -SCALE, dy: 0 }, // west: '|' at 20
    ];
    let t1 = [1u32; 4];
    let t2 = [2u32, 2, 3, 3];
    let t3 = [4u32, 5, 6, 7];
    let mut fb = Framebuffer::new(4, 40);
    render3d(&mut fb, &player, &rays, &maze, 25, &t1, &t2, &t3, 2, 2);
    // North wall at 20: the slice fills the column; '-' uses the second
    // texture, column 0, rows split at the middle.
    let north: Vec<u32> = (0..40).map(|y| if y < 20 { 2 } else { 3 }).collect();
    assert_eq!(column(&fb, 0), north);
    // Goal at 90: rows 40 * 120 / 360 = 13 to 40 * 240 / 360 = 26, flat red.
    let east: Vec<u32> = (0..40).map(|y| if (13..26).contains(&y) { 0xFF0000 } else { 0 }).collect();
    assert_eq!(column(&fb, 1), east);
    // South wall at 40: rows 5..35 of the second texture, column 2 * 2 / 4 = 1.
    let south: Vec<u32> =
        (0..40).map(|y| if y < 5 || y >= 35 { 0 } else if y < 20 { 2 } else { 3 }).collect();
    assert_eq!(column(&fb, 2), south);
    // West wall at 20: '|' uses the third texture, column 3 * 2 / 4 = 1.
    let west: Vec<u32> = (0..40).map(|y| if y < 20 { 5 } else { 7 }).collect();
    assert_eq!(column(&fb, 3), west);
    // The last ray hit a wall, so the ray color stays current.
    assert_eq!(fb.current_color, Color::new(255, 221, 221));
}

#[test]
fn render3d_skips_a_hit_at_distance_zero_and_unknown_cells() {
    let maze = grid(&["+---+", "|p x|", "+---+"]);
    let player = Player::new(37 * SCALE + SCALE / 2, 37 * SCALE + SCALE / 2, Direction { dx: SCALE, dy: 0 });
    let t = [9u32; 4];
    let mut fb = Framebuffer::new(2, 20);
    fb.set_current_color(Color::new(1, 1, 1));
    // The camera stands in the start cell: the ray stops at distance 0.
    render3d(&mut fb, &player, &vec![Direction { dx: SCALE, dy: 0 }], &maze, 25, &t, &t, &t, 2, 2);
    assert!(fb.buffer.iter().all(|&p| p == 0));
    assert_eq!(fb.current_color, Color::new(255, 221, 221));
    // From the open cell the ray meets 'x', which has no slice.
    let open = Player::new(60 * SCALE, 37 * SCALE, Direction { dx: SCALE, dy: 0 });
    render3d(&mut fb, &open, &vec![Direction { dx: SCALE, dy: 0 }], &maze, 25, &t, &t, &t, 2, 2);
    assert!(fb.buffer.iter().all(|&p| p == 0));
    // And the start cell, seen from the open cell, is flat green.
    render3d(&mut fb, &open, &vec![Direction { dx: -SCALE, dy: 0 }], &maze, 25, &t, &t, &t, 2, 2);
    assert!(column(&fb, 0).iter().all(|&p| p == 0x00FF00));
    assert!(column(&fb, 1).iter().all(|&p| p == 0));
    assert_eq!(fb.current_color, Color::new(0, 255, 0));
}

#[test]
fn render3d_ignores_rays_beyond_the_last_column_and_no_rays() {
    let (maze, player) = scene();
    let t = [9u32; 4];
    let mut fb = Framebuffer::new(1, 20);
    fb.set_current_color(Color::new(1, 1, 1));
    render3d(&mut fb, &player, &Vec::new(), &maze, 25, &t, &t, &t, 2, 2);
    assert!(fb.buffer.iter().all(|&p| p == 0));
    assert_eq!(fb.current_color, Color::new(1, 1, 1));
    let rays = vec![Direction { dx: -SCALE, dy: 0 }, Direction { dx: SCALE, dy: 0 }];
    render3d(&mut fb, &player, &rays, &maze, 25, &t, &t, &t, 2, 2);
    assert!(fb.buffer.iter().all(|&p| p == 9));
    // The second ray hit the goal although it had no column to draw into.
    assert_eq!(fb.current_color, Color::new(255, 0, 0));
}

#[test]
fn slice_of_the_farther_wall_lies_within_that_of_the_nearer() {
    let texture = [5u32; 4];
    for (near, far) in [(10u64, 20u64), (40, 50), (90, 1000), (30, 31)] {
        let mut flat_near = Framebuffer::new(2, 50);
        let mut flat_far = Framebuffer::new(2, 50);
        draw_stake(&mut flat_near, 1, near, 60);
        draw_stake(&mut flat_far, 1, far, 60);
        let mut tex_near = Framebuffer::new(2, 50);
        let mut tex_far = Framebuffer::new(2, 50);
        apply_texture(&mut tex_near, 1, near, 60, &texture, 2, 2);
        apply_texture(&mut tex_far, 1, far, 60, &texture, 2, 2);
        for y in 0..50 {
            assert!(flat_far.buffer[y * 2 + 1] == 0 || flat_near.buffer[y * 2 + 1] != 0);
            assert!(tex_far.buffer[y * 2 + 1] == 0 || tex_near.buffer[y * 2 + 1] != 0);
        }
    }
}
