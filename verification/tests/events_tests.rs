use raycaster::events::{can_move, process_events, Mode, ModeSwitch, VictoryLatch, MOVE_SPEED};
use raycaster::player::{Direction, Player, SCALE};

fn grid(rows: &[&str]) -> Vec<Vec<char>> {
    rows.iter().map(|r| r.chars().collect()).collect()
}

fn room() -> Vec<Vec<char>> {
    grid(&["+-----+", "|p   g|", "|     |", "+-----+"])
}

const HALF: i64 = SCALE / 2;

#[test]
fn move_speed_is_ten_units() {
    assert_eq!(MOVE_SPEED, 10);
}

#[test]
fn forward_moves_ten_units_along_the_heading() {
    let maze = room();
    let mut player = Player::new(60 * SCALE, 60 * SCALE + HALF, Direction { dx: SCALE, dy: 0 });
    assert!(!process_events(&mut player, &maze, 25, true, false));
    assert_eq!((player.x, player.y), (70 * SCALE, 60 * SCALE + HALF));
    let mut player = Player::new(60 * SCALE, 60 * SCALE, Direction { dx: 39322, dy: -52429 });
    assert!(!process_events(&mut player, &maze, 25, true, false));
    assert_eq!((player.x, player.y), (60 * SCALE + 393220, 60 * SCALE - 524290));
    assert_eq!(player.heading, Direction { dx: 39322, dy: -52429 });
}

#[test]
fn backward_moves_against_the_heading() {
    let maze = room();
    let mut player = Player::new(60 * SCALE, 60 * SCALE, Direction { dx: SCALE, dy: 0 });
    assert!(!process_events(&mut player, &maze, 25, false, true));
    assert_eq!((player.x, player.y), (50 * SCALE, 60 * SCALE));
}

#[test]
fn both_keys_or_none_leave_the_camera_where_it_is() {
    let maze = room();
    let mut player = Player::new(60 * SCALE + 7, 60 * SCALE, Direction { dx: 46341, dy: 46341 });
    assert!(!process_events(&mut player, &maze, 25, true, true));
    assert_eq!((player.x, player.y), (60 * SCALE + 7, 60 * SCALE));
    assert!(!process_events(&mut player, &maze, 25, false, false));
    assert_eq!((player.x, player.y), (60 * SCALE + 7, 60 * SCALE));
}

#[test]
fn walls_block_the_move() {
    let maze = room();
    // 30 - 10 = 20 lies in the wall column.
    let mut player = Player::new(30 * SCALE, 60 * SCALE, Direction { dx: -SCALE, dy: 0 });
    assert!(!process_events(&mut player, &maze, 25, true, false));
    assert_eq!((player.x, player.y), (30 * SCALE, 60 * SCALE));
    // 35 - 10 = 25 is the first coordinate of the open cell.
    let mut player = Player::new(35 * SCALE, 60 * SCALE, Direction { dx: -SCALE, dy: 0 });
    assert!(!process_events(&mut player, &maze, 25, true, false));
    assert_eq!((player.x, player.y), (25 * SCALE, 60 * SCALE));
    // One fixed-point unit less and the destination is in the wall.
    let mut player = Player::new(35 * SCALE - 1, 60 * SCALE, Direction { dx: -SCALE, dy: 0 });
    assert!(!process_events(&mut player, &maze, 25, true, false));
    assert_eq!((player.x, player.y), (35 * SCALE - 1, 60 * SCALE));
}

#[test]
fn start_and_goal_cells_are_passable_and_the_goal_is_reported() {
    let maze = room();
    let mut player = Player::new(120 * SCALE, 30 * SCALE, Direction { dx: SCALE, dy: 0 });
    assert!(process_events(&mut player, &maze, 25, true, false));
    assert_eq!((player.x, player.y), (130 * SCALE, 30 * SCALE));
    // Standing on the goal reports it every frame.
    assert!(process_events(&mut player, &maze, 25, false, false));
    let mut player = Player::new(55 * SCALE, 30 * SCALE, Direction { dx: SCALE, dy: 0 });
    assert!(!process_events(&mut player, &maze, 25, false, true));
    assert_eq!((player.x, player.y), (45 * SCALE, 30 * SCALE));
}

#[test]
fn negative_destination_counts_as_cell_zero() {
    let maze = grid(&["  ", "  "]);
    let mut player = Player::new(SCALE, SCALE, Direction { dx: -SCALE, dy: 0 });
    assert!(!process_events(&mut player, &maze, 25, true, false));
    assert_eq!((player.x, player.y), (-9 * SCALE, SCALE));
    let blocked = grid(&["+ ", "  "]);
    let mut player = Player::new(SCALE, SCALE, Direction { dx: 0, dy: -SCALE });
    assert!(!process_events(&mut player, &blocked, 25, true, false));
    assert_eq!((player.x, player.y), (SCALE, SCALE));
}

#[test]
fn mode_switch_starts_top_down() {
    let s = ModeSwitch::new();
    assert_eq!(s.mode, Mode::TopDown);
    assert!(!s.key_was_down);
}

#[test]
fn mode_toggles_once_per_key_press() {
    let mut s = ModeSwitch::new();
    // Down, up, down across three frames: two presses, two changes.
    assert!(s.update(true));
    assert_eq!(s.mode, Mode::FirstPerson);
    assert!(!s.update(false));
    assert_eq!(s.mode, Mode::FirstPerson);
    assert!(s.update(true));
    assert_eq!(s.mode, Mode::TopDown);
}

#[test]
fn held_key_toggles_only_in_its_first_frame() {
    let mut s = ModeSwitch::new();
    let changes: Vec<bool> = [true, true, true, true, false, false, true, true]
        .iter()
        .map(|&down| s.update(down))
        .collect();
    assert_eq!(changes, vec![true, false, false, false, false, false, true, false]);
    assert_eq!(s.mode, Mode::TopDown);
    assert!(s.key_was_down);
}

#[test]
fn key_already_down_at_the_start_does_not_toggle() {
    let mut s = ModeSwitch { mode: Mode::FirstPerson, key_was_down: true };
    assert!(!s.update(true));
    assert_eq!(s.mode, Mode::FirstPerson);
    assert!(!s.update(false));
    assert!(s.update(true));
    assert_eq!(s.mode, Mode::TopDown);
}

#[test]
fn victory_sound_plays_once_until_reset() {
    let mut latch = VictoryLatch::new();
    assert!(!latch.played);
    assert!(latch.claim());
    assert!(!latch.claim());
    assert!(!latch.claim());
    latch.reset_victory();
    assert!(latch.claim());
    assert!(!latch.claim());
}

#[test]
fn can_move_when_the_destination_is_a_cell() {
    let maze = room();
    let east = Direction { dx: SCALE, dy: 0 };
    assert!(can_move(&Player::new(60 * SCALE, 60 * SCALE, east), &maze, 25, true, false));
    // Into a wall is a move that is refused, not one that cannot be made.
    assert!(can_move(&Player::new(160 * SCALE, 60 * SCALE, east), &maze, 25, true, false));
    // 170 + 10 lies beyond the last column; standing still does not.
    assert!(!can_move(&Player::new(170 * SCALE, 60 * SCALE, east), &maze, 25, true, false));
    assert!(can_move(&Player::new(170 * SCALE, 60 * SCALE, east), &maze, 25, true, true));
    assert!(can_move(&Player::new(170 * SCALE, 60 * SCALE, east), &maze, 25, false, true));
    assert!(!can_move(&Player::new(60 * SCALE, 100 * SCALE, east), &maze, 25, false, false));
    assert!(!can_move(&Player::new(60 * SCALE, 60 * SCALE, east), &maze, 0, true, false));
    assert!(!can_move(&Player::new(60 * SCALE, 60 * SCALE, Direction { dx: 0, dy: 0 }), &maze, 25, true, false));
    assert!(!can_move(&Player::new(i64::MAX, 60 * SCALE, east), &maze, 25, false, false));
    assert!(!can_move(&Player::new(60 * SCALE, i64::MIN, east), &maze, 25, false, false));
    assert!(!can_move(&Player::new(60 * SCALE, 60 * SCALE, east), &Vec::new(), 25, false, false));
}
