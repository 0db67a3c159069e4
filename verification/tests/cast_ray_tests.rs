use raycaster::cast_ray::{can_cast_ray, can_cast_rays, cast_ray, Intersect, STEP};
use raycaster::color::Color;
use raycaster::framebuffer::Framebuffer;
use raycaster::maze::{find_player_start, is_enclosed_maze, maze_fits, point_in_grid};
use raycaster::player::{pixel_of, Direction, Player, SCALE};

fn grid(rows: &[&str]) -> Vec<Vec<char>> {
    rows.iter().map(|r| r.chars().collect()).collect()
}

fn room() -> Vec<Vec<char>> {
    grid(&["+-----+", "|     |", "|     |", "+-----+"])
}

/// World units and sixteenths of a unit to fixed point.
fn fixed(units: i64, sixteenths: i64) -> i64 {
    units * SCALE + sixteenths * (SCALE / 16)
}

fn camera(x: i64, y: i64) -> Player {
    Player::new(x, y, Direction { dx: SCALE, dy: 0 })
}

const EAST: Direction = Direction { dx: 65536, dy: 0 };
const WEST: Direction = Direction { dx: -65536, dy: 0 };
const SOUTH: Direction = Direction { dx: 0, dy: 65536 };
const NORTH: Direction = Direction { dx: 0, dy: -65536 };
const SOUTH_EAST: Direction = Direction { dx: 46341, dy: 46341 };

#[test]
fn step_is_ten_world_units() {
    assert_eq!(STEP, 10);
    assert_eq!(SCALE, 65536);
}

#[test]
fn ray_east_from_cell_center_stops_in_the_far_wall() {
    let maze = room();
    let mut fb = Framebuffer::new(200, 120);
    let player = camera(fixed(37, 8), fixed(37, 8));
    let hit = cast_ray(&mut fb, &maze, &player, EAST, 25, false);
    assert_eq!(hit, Intersect { distance: 120, impact: '|' });
}

#[test]
fn distance_is_within_one_step_of_the_wall_face() {
    // The wall is 5 cells east of the camera's cell, its face 4.5 cells away.
    let maze = room();
    let mut fb = Framebuffer::new(10, 10);
    let player = camera(fixed(37, 8), fixed(37, 8));
    let hit = cast_ray(&mut fb, &maze, &player, EAST, 25, false);
    let face_times_two: i64 = 9 * 25;
    let error_times_two = (2 * hit.distance as i64 - face_times_two).abs();
    assert!(error_times_two <= 2 * 10);
    // One cell west: half a cell to the face.
    let hit = cast_ray(&mut fb, &maze, &player, WEST, 25, false);
    assert_eq!(hit.distance, 20);
    assert!((2 * hit.distance as i64 - 25).abs() <= 20);
}

#[test]
fn rays_in_the_four_directions() {
    let maze = room();
    let mut fb = Framebuffer::new(10, 10);
    let player = camera(fixed(37, 8), fixed(37, 8));
    assert_eq!(
        cast_ray(&mut fb, &maze, &player, WEST, 25, false),
        Intersect { distance: 20, impact: '|' }
    );
    assert_eq!(
        cast_ray(&mut fb, &maze, &player, SOUTH, 25, false),
        Intersect { distance: 40, impact: '-' }
    );
    assert_eq!(
        cast_ray(&mut fb, &maze, &player, NORTH, 25, false),
        Intersect { distance: 20, impact: '-' }
    );
}

#[test]
fn diagonal_ray_is_sampled_every_ten_units_along_its_length() {
    let maze = room();
    let mut fb = Framebuffer::new(10, 10);
    let player = camera(fixed(37, 8), fixed(37, 8));
    let hit = cast_ray(&mut fb, &maze, &player, SOUTH_EAST, 25, false);
    assert_eq!(hit, Intersect { distance: 60, impact: '-' });
}

#[test]
fn ray_from_inside_a_solid_cell_stops_at_once() {
    let maze = grid(&["+---+", "|p g|", "+---+"]);
    let mut fb = Framebuffer::new(10, 10);
    let player = camera(fixed(37, 8), fixed(37, 8));
    let hit = cast_ray(&mut fb, &maze, &player, EAST, 25, true);
    assert_eq!(hit, Intersect { distance: 0, impact: 'p' });
    assert!(fb.buffer.iter().all(|&p| p == 0));
}

#[test]
fn start_and_goal_cells_stop_a_ray() {
    let maze = grid(&["+----+", "|p  g|", "+----+"]);
    let mut fb = Framebuffer::new(10, 10);
    let player = camera(fixed(60, 0), fixed(30, 0));
    assert_eq!(
        cast_ray(&mut fb, &maze, &player, EAST, 25, false),
        Intersect { distance: 40, impact: 'g' }
    );
    assert_eq!(
        cast_ray(&mut fb, &maze, &player, WEST, 25, false),
        Intersect { distance: 20, impact: 'p' }
    );
}

#[test]
fn impact_is_a_cell_of_the_maze_that_is_not_open() {
    let maze = grid(&["+-|-+", "|   |", "- p g", "|   |", "+-+-+"]);
    assert!(is_enclosed_maze(&maze));
    let mut fb = Framebuffer::new(10, 10);
    let player = camera(fixed(45, 0), fixed(45, 0));
    let dirs = [
        EAST,
        WEST,
        SOUTH,
        NORTH,
        SOUTH_EAST,
        Direction { dx: -46341, dy: 46341 },
        Direction { dx: 56756, dy: -32768 },
        Direction { dx: -1, dy: 0 },
        Direction { dx: 3, dy: -65536 },
    ];
    for dir in dirs {
        let hit = cast_ray(&mut fb, &maze, &player, dir, 30, false);
        assert_ne!(hit.impact, ' ');
        assert!(maze.iter().any(|row| row.contains(&hit.impact)));
        assert_eq!(hit.distance % 10, 0);
    }
}

#[test]
fn slow_ray_still_stops() {
    // A direction much shorter than a unit vector advances a little per step.
    let maze = room();
    let mut fb = Framebuffer::new(10, 10);
    let player = camera(fixed(26, 0), fixed(37, 8));
    let hit = cast_ray(&mut fb, &maze, &player, Direction { dx: -655, dy: 0 }, 25, false);
    // Each step moves 6550 / 65536 of a unit west; 65536 are needed.
    assert_eq!(hit.impact, '|');
    assert_eq!(hit.distance, 110);
}

#[test]
fn cast_sets_the_ray_color_and_paints_nothing_without_draw_line() {
    let maze = room();
    let mut fb = Framebuffer::new(200, 120);
    fb.set_current_color(Color::new(1, 2, 3));
    let player = camera(fixed(37, 8), fixed(37, 8));
    cast_ray(&mut fb, &maze, &player, EAST, 25, false);
    assert_eq!(fb.current_color, Color::new(255, 221, 221));
    assert!(fb.buffer.iter().all(|&p| p == 0));
}

#[test]
fn draw_line_paints_every_sample_before_the_hit() {
    let maze = room();
    let mut fb = Framebuffer::new(200, 120);
    let player = camera(fixed(37, 8), fixed(37, 8));
    let hit = cast_ray(&mut fb, &maze, &player, SOUTH_EAST, 25, true);
    assert_eq!(hit.distance, 60);
    let painted: Vec<(usize, usize)> = (0..120)
        .flat_map(|y| (0..200).map(move |x| (x, y)))
        .filter(|&(x, y)| fb.buffer[y * 200 + x] != 0)
        .collect();
    assert_eq!(painted, vec![(37, 37), (44, 44), (51, 51), (58, 58), (65, 65), (72, 72)]);
    assert!(painted.iter().all(|&(x, y)| fb.buffer[y * 200 + x] == 0xFFDDDD));
}

#[test]
fn draw_line_drops_samples_outside_the_frame() {
    let maze = room();
    let mut fb = Framebuffer::new(50, 40);
    let player = camera(fixed(37, 8), fixed(37, 8));
    let hit = cast_ray(&mut fb, &maze, &player, EAST, 25, true);
    assert_eq!(hit.distance, 120);
    let row: Vec<usize> = (0..50).filter(|&x| fb.buffer[37 * 50 + x] == 0xFFDDDD).collect();
    assert_eq!(row, vec![37, 47]);
    assert_eq!(fb.buffer.iter().filter(|&&p| p != 0).count(), 2);
}

#[test]
fn find_player_start_gives_column_then_row_of_first_p() {
    assert_eq!(find_player_start(&grid(&["+---+", "|  p|", "|p  |", "+---+"])), Some((3, 1)));
    assert_eq!(find_player_start(&grid(&["p"])), Some((0, 0)));
    assert_eq!(find_player_start(&room()), None);
    assert_eq!(find_player_start(&Vec::new()), None);
    assert_eq!(find_player_start(&grid(&["", "+", " p"])), Some((1, 2)));
}

#[test]
fn enclosed_means_no_open_cell_on_the_border() {
    assert!(is_enclosed_maze(&room()));
    assert!(is_enclosed_maze(&grid(&["x"])));
    assert!(is_enclosed_maze(&grid(&["pg", "ab"])));
    assert!(!is_enclosed_maze(&grid(&["+- -+", "|   |", "+---+"])));
    assert!(!is_enclosed_maze(&grid(&["+---+", "|    ", "+---+"])));
    assert!(!is_enclosed_maze(&grid(&["+---+", "    |", "+---+"])));
    assert!(!is_enclosed_maze(&grid(&["+---+", "|   |", "+-- +"])));
    assert!(!is_enclosed_maze(&grid(&["+---+", "|  |", "+---+"])));
    assert!(!is_enclosed_maze(&Vec::new()));
    assert!(!is_enclosed_maze(&grid(&[""])));
}

#[test]
fn maze_fits_bounds_every_row_and_the_rows() {
    assert!(maze_fits(&room(), 25));
    assert!(maze_fits(&room(), 0x7FFF_FFFF / 7));
    assert!(!maze_fits(&room(), 0x7FFF_FFFF / 7 + 1));
    assert!(maze_fits(&Vec::new(), usize::MAX));
    assert!(!maze_fits(&grid(&["", "ab"]), usize::MAX));
}

#[test]
fn point_in_grid_uses_whole_cells() {
    let maze = room();
    assert!(point_in_grid(&maze, 25, 0, 0));
    assert!(point_in_grid(&maze, 25, fixed(174, 15), fixed(99, 15)));
    assert!(!point_in_grid(&maze, 25, fixed(175, 0), fixed(10, 0)));
    assert!(!point_in_grid(&maze, 25, fixed(10, 0), fixed(100, 0)));
    assert!(!point_in_grid(&maze, 25, -1, 0));
    assert!(!point_in_grid(&maze, 25, 0, -1));
}

#[test]
fn pixel_of_drops_the_fraction_and_clamps_negatives() {
    assert_eq!(pixel_of(fixed(37, 8)), 37);
    assert_eq!(pixel_of(65535), 0);
    assert_eq!(pixel_of(65536), 1);
    assert_eq!(pixel_of(-1), 0);
    assert_eq!(pixel_of(i64::MIN), 0);
}

#[test]
fn can_cast_ray_when_the_ray_stops_in_the_maze() {
    let maze = room();
    let player = camera(fixed(37, 8), fixed(37, 8));
    assert!(can_cast_ray(&maze, &player, EAST, 25));
    assert!(can_cast_ray(&maze, &player, SOUTH_EAST, 25));
    assert!(can_cast_ray(&maze, &player, Direction { dx: -1, dy: 0 }, 25));
    // A camera in a wall stops its rays at once, whatever lies behind.
    assert!(can_cast_ray(&maze, &camera(0, 0), NORTH, 25));
    // An open border: the ray through the gap leaves, the others stop.
    let gap = grid(&["+- -+", "|   |", "+---+"]);
    let below = camera(fixed(62, 8), fixed(37, 8));
    assert!(!can_cast_ray(&gap, &below, NORTH, 25));
    assert!(can_cast_ray(&gap, &below, SOUTH, 25));
    assert!(can_cast_ray(&gap, &below, EAST, 25));
    // A camera outside the maze, a ray that is no direction, cells without size.
    assert!(!can_cast_ray(&maze, &camera(fixed(175, 0), fixed(37, 8)), WEST, 25));
    assert!(!can_cast_ray(&maze, &camera(-1, fixed(37, 8)), EAST, 25));
    assert!(!can_cast_ray(&maze, &player, Direction { dx: 0, dy: 0 }, 25));
    assert!(!can_cast_ray(&maze, &player, Direction { dx: 65537, dy: 0 }, 25));
    assert!(!can_cast_ray(&maze, &player, Direction { dx: 0, dy: -65537 }, 25));
    assert!(!can_cast_ray(&maze, &player, EAST, 0));
    assert!(!can_cast_ray(&maze, &player, EAST, 0x7FFF_FFFF));
    assert!(!can_cast_ray(&Vec::new(), &player, EAST, 25));
}

#[test]
fn can_cast_ray_agrees_with_the_march() {
    // With cells of 4 units the samples at 6 and 16 straddle the wall cell
    // at 8..12: this ray leaves the maze, though the maze is enclosed.
    let maze = grid(&["+-+", "| |", "+-+"]);
    let player = camera(fixed(6, 0), fixed(6, 0));
    assert!(!can_cast_ray(&maze, &player, EAST, 4));
    // The ray to the west samples 6 and -4, and leaves too; a shorter one stops.
    assert!(!can_cast_ray(&maze, &player, WEST, 4));
    assert!(can_cast_ray(&maze, &player, Direction { dx: -16384, dy: 0 }, 4));
    let mut fb = Framebuffer::new(4, 4);
    let hit = cast_ray(&mut fb, &maze, &player, Direction { dx: -16384, dy: 0 }, 4, false);
    assert_eq!(hit, Intersect { distance: 10, impact: '|' });
}

#[test]
fn can_cast_rays_when_every_ray_can_be_cast() {
    let maze = room();
    let player = camera(fixed(37, 8), fixed(37, 8));
    let rays = vec![EAST, SOUTH_EAST, Direction { dx: -1, dy: 0 }];
    assert!(can_cast_rays(&maze, &player, &rays, 25));
    assert!(can_cast_rays(&maze, &player, &rays, 10));
    assert!(can_cast_rays(&maze, &player, &Vec::new(), 25));
    assert!(can_cast_rays(&maze, &camera(-1, -1), &Vec::new(), 25));
    let gap = grid(&["+- -+", "|   |", "+---+"]);
    let below = camera(fixed(62, 8), fixed(37, 8));
    assert!(can_cast_rays(&gap, &below, &vec![SOUTH, EAST, WEST], 25));
    assert!(!can_cast_rays(&gap, &below, &vec![SOUTH, NORTH, WEST], 25));
    assert!(!can_cast_rays(&maze, &player, &vec![EAST, Direction { dx: 0, dy: 0 }], 25));
    assert!(!can_cast_rays(&maze, &player, &rays, 0));
    assert!(!can_cast_rays(&maze, &player, &Vec::new(), 0));
    assert!(!can_cast_rays(&maze, &player, &rays, 0x7FFF_FFFF));
}

#[test]
fn direction_is_valid_within_one_and_not_zero() {
    assert!(EAST.is_valid());
    assert!(Direction { dx: -65536, dy: 65536 }.is_valid());
    assert!(Direction { dx: 0, dy: 1 }.is_valid());
    assert!(!Direction { dx: 0, dy: 0 }.is_valid());
    assert!(!Direction { dx: 65537, dy: 0 }.is_valid());
    assert!(!Direction { dx: 0, dy: -65537 }.is_valid());
    assert!(!Direction { dx: i64::MIN, dy: i64::MAX }.is_valid());
}
