//! What the controls do: moving the camera, switching the view, and playing
//! the victory sound once.

use vstd::prelude::*;
use crate::maze::{cell, has_cell};
use crate::player::{pixel_of, to_pixel, Player};

verus! {

/// World units moved per frame while a movement key is held.
pub const MOVE_SPEED: i64 = 10;

/// Positions up to this magnitude can be moved without overflow.
pub const MAX_POSITION: i64 = 0x4000_0000_0000_0000;

/// Whether the camera may stand in a cell of this character.
pub open spec fn passable(c: char) -> bool {
    c == ' ' || c == 'p' || c == 'g'
}

/// The fixed-point coordinate reached from `f` along direction component `d`
/// when moving forward, backward, both or neither.
pub open spec fn moved(f: int, d: int, forward: bool, backward: bool) -> int {
    f + (if forward {
        MOVE_SPEED * d
    } else {
        0
    }) - (if backward {
        MOVE_SPEED * d
    } else {
        0
    })
}

/// The row or column of the cell that holds the fixed-point coordinate `f`;
/// a negative coordinate counts as 0.
pub open spec fn cell_index(f: int, block_size: int) -> int {
    to_pixel(f) / block_size
}

/// Whether the camera can be moved: its heading is a direction, its position
/// is at most `MAX_POSITION` in magnitude, and the destination lies in a cell
/// of the maze.
pub open spec fn movable(
    player: Player,
    maze: Seq<Vec<char>>,
    block_size: int,
    forward: bool,
    backward: bool,
) -> bool {
    &&& block_size > 0
    &&& player.heading.wf()
    &&& -MAX_POSITION <= player.x <= MAX_POSITION
    &&& -MAX_POSITION <= player.y <= MAX_POSITION
    &&& has_cell(
        maze,
        cell_index(moved(player.y as int, player.heading.dy as int, forward, backward), block_size),
        cell_index(moved(player.x as int, player.heading.dx as int, forward, backward), block_size),
    )
}

/// Decides `movable`.
pub fn can_move(
    player: &Player,
    maze: &Vec<Vec<char>>,
    block_size: usize,
    forward: bool,
    backward: bool,
) -> (ok: bool)
    ensures
        ok == movable(*player, maze@, block_size as int, forward, backward),
{
    let heading = player.heading;
    if block_size == 0 || !heading.is_valid() || player.x < -MAX_POSITION || player.x > MAX_POSITION || player.y
        < -MAX_POSITION || player.y > MAX_POSITION {
        return false;
    }
    let mut new_x: i64 = player.x;
    let mut new_y: i64 = player.y;
    if forward {
        new_x = new_x + MOVE_SPEED * heading.dx;
        new_y = new_y + MOVE_SPEED * heading.dy;
    }
    if backward {
        new_x = new_x - MOVE_SPEED * heading.dx;
        new_y = new_y - MOVE_SPEED * heading.dy;
    }
    let col: u64 = pixel_of(new_x) / (block_size as u64);
    let row: u64 = pixel_of(new_y) / (block_size as u64);
    if row >= maze.len() as u64 {
        return false;
    }
    col < maze[row as usize].len() as u64
}

/// Moves the camera one frame: forward along its heading if `forward`, back
/// if `backward`. The camera takes the new position only if the cell there is
/// passable. Returns whether the cell at the new position is the goal.
pub fn process_events(
    player: &mut Player,
    maze: &Vec<Vec<char>>,
    block_size: usize,
    forward: bool,
    backward: bool,
) -> (at_goal: bool)
    requires
        movable(*old(player), maze@, block_size as int, forward, backward),
    ensures
        final(player).heading == old(player).heading,
        ({
            let x = moved(old(player).x as int, old(player).heading.dx as int, forward, backward);
            let y = moved(old(player).y as int, old(player).heading.dy as int, forward, backward);
            let c = cell(
                maze@,
                cell_index(y, block_size as int),
                cell_index(x, block_size as int),
            );
            &&& at_goal == (c == 'g')
            &&& passable(c) ==> final(player).x == x && final(player).y == y
            &&& !passable(c) ==> final(player).x == old(player).x && final(player).y == old(
                player,
            ).y
        }),
        passable(
            cell(
                maze@,
                cell_index(old(player).y as int, block_size as int),
                cell_index(old(player).x as int, block_size as int),
            ),
        ) ==> passable(
            cell(
                maze@,
                cell_index(final(player).y as int, block_size as int),
                cell_index(final(player).x as int, block_size as int),
            ),
        ),
{
    let mut new_x: i64 = player.x;
    let mut new_y: i64 = player.y;
    if forward {
        new_x = new_x + MOVE_SPEED * player.heading.dx;
        new_y = new_y + MOVE_SPEED * player.heading.dy;
    }
    if backward {
        new_x = new_x - MOVE_SPEED * player.heading.dx;
        new_y = new_y - MOVE_SPEED * player.heading.dy;
    }
    let new_i: u64 = pixel_of(new_x) / (block_size as u64);
    let new_j: u64 = pixel_of(new_y) / (block_size as u64);
    assert(maze.len() == maze@.len());
    let row: &Vec<char> = &maze[new_j as usize];
    assert(row.len() == row@.len());
    let c: char = row[new_i as usize];
    if c == ' ' || c == 'p' || c == 'g' {
        player.x = new_x;
        player.y = new_y;
    }
    c == 'g'
}

/// The two views.
#[derive(Clone, Copy, Debug, PartialEq, Eq, Structural)]
pub enum Mode {
    TopDown,
    FirstPerson,
}

impl Mode {
    /// The other view.
    pub open spec fn other(self) -> Mode {
        match self {
            Mode::TopDown => Mode::FirstPerson,
            Mode::FirstPerson => Mode::TopDown,
        }
    }
}

/// The view in use, and whether the switch key was down in the last frame.
#[derive(Clone, Copy, Debug, PartialEq, Eq, Structural)]
pub struct ModeSwitch {
    pub mode: Mode,
    pub key_was_down: bool,
}

impl ModeSwitch {
    /// The switch after one frame in which the key is down or not: the view
    /// changes in the frame in which the key goes down, and in no other.
    pub open spec fn step(self, key_is_down: bool) -> ModeSwitch {
        ModeSwitch {
            mode: if key_is_down && !self.key_was_down {
                self.mode.other()
            } else {
                self.mode
            },
            key_was_down: key_is_down,
        }
    }

    /// The switch after a run of frames, one key state per frame.
    pub open spec fn run(self, keys: Seq<bool>) -> ModeSwitch
        decreases keys.len(),
    {
        if keys.len() == 0 {
            self
        } else {
            self.step(keys[0]).run(keys.skip(1))
        }
    }

    /// Starts in the top-down view with the key up.
    pub fn new() -> (s: ModeSwitch)
        ensures
            s == (ModeSwitch { mode: Mode::TopDown, key_was_down: false }),
    {
        ModeSwitch { mode: Mode::TopDown, key_was_down: false }
    }

    /// Takes the key's state in this frame; returns whether the view changed.
    pub fn update(&mut self, key_is_down: bool) -> (toggled: bool)
        ensures
            *final(self) == old(self).step(key_is_down),
            toggled == (key_is_down && !old(self).key_was_down),
            toggled == (final(self).mode != old(self).mode),
    {
        let toggled = key_is_down && !self.key_was_down;
        if toggled {
            self.mode = match self.mode {
                Mode::TopDown => Mode::FirstPerson,
                Mode::FirstPerson => Mode::TopDown,
            };
        }
        self.key_was_down = key_is_down;
        toggled
    }
}

/// The number of frames of `keys` in which the key goes down, given whether
/// it was down before the first frame.
pub open spec fn presses(was_down: bool, keys: Seq<bool>) -> nat
    decreases keys.len(),
{
    if keys.len() == 0 {
        0
    } else {
        (if keys[0] && !was_down {
            1nat
        } else {
            0nat
        }) + presses(keys[0], keys.skip(1))
    }
}

/// The view after `n` changes.
pub open spec fn flipped(mode: Mode, n: nat) -> Mode {
    if n % 2 == 0 {
        mode
    } else {
        mode.other()
    }
}

/// The view changes once for every frame in which the key goes down, and
/// never otherwise: after any run of frames the view is the first view
/// changed once per press.
pub proof fn lemma_one_toggle_per_press(s: ModeSwitch, keys: Seq<bool>)
    ensures
        s.run(keys).mode == flipped(s.mode, presses(s.key_was_down, keys)),
        keys.len() > 0 ==> s.run(keys).key_was_down == keys.last(),
        keys.len() == 0 ==> s.run(keys) == s,
    decreases keys.len(),
{
    if keys.len() > 0 {
        let next = s.step(keys[0]);
        let rest = keys.skip(1);
        lemma_one_toggle_per_press(next, rest);
        if rest.len() > 0 {
            assert(rest.last() == keys.last());
        }
    }
}

/// While the key is held the view does not change again: a frame that finds
/// the key down after a frame that found it down leaves the view as it is.
pub proof fn lemma_held_key_does_not_toggle(s: ModeSwitch, first: bool)
    ensures
        s.step(first).step(true).mode == (if first {
            s.step(first).mode
        } else {
            s.step(first).mode.other()
        }),
        s.step(true).step(true).mode == s.step(true).mode,
        s.step(first).step(false).mode == s.step(first).mode,
{
}

/// Remembers whether the victory sound has been played.
#[derive(Clone, Copy, Debug, PartialEq, Eq, Structural)]
pub struct VictoryLatch {
    pub played: bool,
}

impl VictoryLatch {
    pub fn new() -> (latch: VictoryLatch)
        ensures
            !latch.played,
    {
        VictoryLatch { played: false }
    }

    /// Asks to play the victory sound. The answer is yes the first time, and
    /// no from then on until `reset_victory`.
    pub fn claim(&mut self) -> (play: bool)
        ensures
            play == !old(self).played,
            final(self).played,
    {
        let play = !self.played;
        self.played = true;
        play
    }

    /// Lets the victory sound be played once more.
    pub fn reset_victory(&mut self)
        ensures
            !final(self).played,
    {
        self.played = false;
    }
}

} // verus!
