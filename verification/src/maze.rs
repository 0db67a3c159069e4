//! The maze: rows of character cells, each cell a square of `block_size`
//! world units.

use vstd::prelude::*;
use crate::player::SCALE;

verus! {

/// The character of open space; every other cell stops a ray.
pub const OPEN: char = ' ';

/// No pixel coordinate of a maze that fits is above this.
pub const MAX_EXTENT: u64 = 0x7FFF_FFFF;

/// The cell character at `(row, col)`.
pub open spec fn cell(maze: Seq<Vec<char>>, row: int, col: int) -> char {
    maze[row]@[col]
}

/// Whether `(row, col)` names a cell of the maze.
pub open spec fn has_cell(maze: Seq<Vec<char>>, row: int, col: int) -> bool {
    0 <= row < maze.len() && 0 <= col < maze[row]@.len()
}

/// The index of the cell that holds the fixed-point coordinate `f`.
pub open spec fn cell_of(f: int, block_size: int) -> int {
    f / (SCALE as int) / block_size
}

/// Whether the fixed-point point `(fx, fy)` lies in a cell of the maze.
pub open spec fn in_grid(maze: Seq<Vec<char>>, block_size: int, fx: int, fy: int) -> bool {
    &&& 0 <= fx
    &&& 0 <= fy
    &&& has_cell(maze, cell_of(fy, block_size), cell_of(fx, block_size))
}

/// The character of the cell that holds the fixed-point point `(fx, fy)`.
pub open spec fn cell_under(maze: Seq<Vec<char>>, block_size: int, fx: int, fy: int) -> char {
    cell(maze, cell_of(fy, block_size), cell_of(fx, block_size))
}

/// At least one row, at least one column, and all rows equally long.
pub open spec fn is_rectangular(maze: Seq<Vec<char>>) -> bool {
    &&& maze.len() > 0
    &&& maze[0]@.len() > 0
    &&& forall|r: int| 0 <= r < maze.len() ==> (#[trigger] maze[r])@.len() == maze[0]@.len()
}

/// Rectangular, with no open cell in the first or last row or column.
pub open spec fn is_enclosed(maze: Seq<Vec<char>>) -> bool {
    &&& is_rectangular(maze)
    &&& forall|r: int, c: int|
        has_cell(maze, r, c) && (r == 0 || r == maze.len() - 1 || c == 0 || c == maze[0]@.len()
            - 1) ==> #[trigger] cell(maze, r, c) != OPEN
}

/// Every row, and the column of rows, spans at most `MAX_EXTENT` world units.
pub open spec fn fits(maze: Seq<Vec<char>>, block_size: int) -> bool {
    &&& maze.len() * block_size <= MAX_EXTENT
    &&& forall|r: int| 0 <= r < maze.len() ==> (#[trigger] maze[r])@.len() * block_size <= MAX_EXTENT
}

/// Whether cell `(r1, c1)` comes before cell `(r2, c2)` when the maze is read
/// row by row.
pub open spec fn reads_before(r1: int, c1: int, r2: int, c2: int) -> bool {
    r1 < r2 || (r1 == r2 && c1 < c2)
}

/// Finds the start cell: the column and the row of the first `'p'` when the
/// maze is read row by row, or nothing when the maze has no `'p'`.
pub fn find_player_start(maze: &Vec<Vec<char>>) -> (start: Option<(usize, usize)>)
    ensures
        match start {
            Some((x, y)) => {
                &&& has_cell(maze@, y as int, x as int)
                &&& cell(maze@, y as int, x as int) == 'p'
                &&& forall|r: int, c: int|
                    has_cell(maze@, r, c) && reads_before(r, c, y as int, x as int)
                        ==> #[trigger] cell(maze@, r, c) != 'p'
            },
            None => forall|r: int, c: int|
                has_cell(maze@, r, c) ==> #[trigger] cell(maze@, r, c) != 'p',
        },
{
    let mut y: usize = 0;
    while y < maze.len()
        invariant
            y <= maze@.len(),
            forall|r: int, c: int|
                has_cell(maze@, r, c) && r < y ==> #[trigger] cell(maze@, r, c) != 'p',
        decreases maze@.len() - y,
    {
        let mut x: usize = 0;
        while x < maze[y].len()
            invariant
                y < maze@.len(),
                x <= maze@[y as int]@.len(),
                forall|r: int, c: int|
                    has_cell(maze@, r, c) && reads_before(r, c, y as int, x as int)
                        ==> #[trigger] cell(maze@, r, c) != 'p',
            decreases maze@[y as int]@.len() - x,
        {
            if maze[y][x] == 'p' {
                return Some((x, y));
            }
            x += 1;
        }
        y += 1;
    }
    None
}

/// Decides `is_enclosed`.
pub fn is_enclosed_maze(maze: &Vec<Vec<char>>) -> (enclosed: bool)
    ensures
        enclosed == is_enclosed(maze@),
{
    let rows: usize = maze.len();
    if rows == 0 {
        return false;
    }
    let cols: usize = maze[0].len();
    if cols == 0 {
        return false;
    }
    let mut r: usize = 0;
    while r < rows
        invariant
            r <= rows,
            rows == maze@.len(),
            cols == maze@[0]@.len(),
            cols > 0,
            forall|k: int| 0 <= k < r ==> (#[trigger] maze@[k])@.len() == cols,
            forall|k: int, c: int|
                0 <= k < r && 0 <= c < cols && (k == 0 || k == rows - 1 || c == 0 || c == cols
                    - 1) ==> #[trigger] cell(maze@, k, c) != OPEN,
        decreases rows - r,
    {
        if maze[r].len() != cols {
            assert(!is_rectangular(maze@));
            return false;
        }
        if r == 0 || r == rows - 1 {
            let mut c: usize = 0;
            while c < cols
                invariant
                    c <= cols,
                    r < rows,
                    r == 0 || r == rows - 1,
                    rows == maze@.len(),
                    cols == maze@[r as int]@.len(),
                    cols == maze@[0]@.len(),
                    forall|k: int| 0 <= k < c ==> #[trigger] cell(maze@, r as int, k) != OPEN,
                decreases cols - c,
            {
                if maze[r][c] == ' ' {
                    assert(has_cell(maze@, r as int, c as int));
                    assert(cell(maze@, r as int, c as int) == OPEN);
                    return false;
                }
                c += 1;
            }
        } else {
            if maze[r][0] == ' ' {
                assert(has_cell(maze@, r as int, 0));
                assert(cell(maze@, r as int, 0) == OPEN);
                return false;
            }
            if maze[r][cols - 1] == ' ' {
                assert(has_cell(maze@, r as int, cols - 1));
                assert(cell(maze@, r as int, cols - 1) == OPEN);
                return false;
            }
        }
        r += 1;
    }
    true
}

/// Decides `fits`.
pub fn maze_fits(maze: &Vec<Vec<char>>, block_size: usize) -> (ok: bool)
    ensures
        ok == fits(maze@, block_size as int),
{
    let rows: usize = maze.len();
    if !span_fits(rows, block_size) {
        return false;
    }
    let mut r: usize = 0;
    while r < rows
        invariant
            r <= rows,
            rows == maze@.len(),
            forall|k: int| 0 <= k < r ==> (#[trigger] maze@[k])@.len() * block_size <= MAX_EXTENT,
        decreases rows - r,
    {
        if !span_fits(maze[r].len(), block_size) {
            return false;
        }
        r += 1;
    }
    true
}

/// Whether `count` cells of `block_size` world units span at most
/// `MAX_EXTENT`.
fn span_fits(count: usize, block_size: usize) -> (ok: bool)
    ensures
        ok == (count * block_size <= MAX_EXTENT),
{
    assert(0 <= count * block_size) by (nonlinear_arith)
        requires
            0 <= count,
            0 <= block_size,
    ;
    match count.checked_mul(block_size) {
        Some(span) => span as u64 <= MAX_EXTENT,
        None => false,
    }
}

/// Decides `in_grid`.
pub fn point_in_grid(maze: &Vec<Vec<char>>, block_size: usize, fx: i64, fy: i64) -> (inside: bool)
    requires
        block_size > 0,
    ensures
        inside == in_grid(maze@, block_size as int, fx as int, fy as int),
{
    if fx < 0 || fy < 0 {
        return false;
    }
    let col: u64 = (fx / SCALE) as u64 / (block_size as u64);
    let row: u64 = (fy / SCALE) as u64 / (block_size as u64);
    if row >= maze.len() as u64 {
        return false;
    }
    col < maze[row as usize].len() as u64
}

/// Where the line that starts at `from` ends: at the first line feed at or
/// after `from`, or at the end of the text.
pub open spec fn line_end(text: Seq<char>, from: int) -> int
    decreases text.len() - from,
{
    if from >= text.len() {
        text.len() as int
    } else if text[from] == '\n' {
        from
    } else {
        line_end(text, from + 1)
    }
}

/// `line_end` lies between `from` and the end of the text, on a line feed if
/// it lies in the text, and no line feed lies before it.
pub proof fn lemma_line_end(text: Seq<char>, from: int)
    requires
        0 <= from <= text.len(),
    ensures
        from <= line_end(text, from) <= text.len(),
        line_end(text, from) < text.len() ==> text[line_end(text, from)] == '\n',
        forall|i: int| from <= i < line_end(text, from) ==> text[i] != '\n',
    decreases text.len() - from,
{
    if from < text.len() && text[from] != '\n' {
        lemma_line_end(text, from + 1);
    }
}

/// Where the cells of the line from `from` to `end` stop: a carriage return
/// just before the line feed is not a cell.
pub open spec fn cells_end(text: Seq<char>, from: int, end: int) -> int {
    if end < text.len() && from < end && text[end - 1] == '\r' {
        end - 1
    } else {
        end
    }
}

/// The rows of the maze written in `text` from position `from` on: one row
/// per line, each character a cell. Lines end with a line feed, which may
/// follow a carriage return; the last line need not end with one.
pub open spec fn rows_from(text: Seq<char>, from: int) -> Seq<Seq<char>>
    decreases text.len() - from,
    when 0 <= from
{
    if from >= text.len() {
        Seq::empty()
    } else {
        let end = line_end(text, from);
        proof {
            lemma_line_end(text, from);
        }
        let row = text.subrange(from, cells_end(text, from, end));
        if end < text.len() {
            seq![row] + rows_from(text, end + 1)
        } else {
            seq![row]
        }
    }
}

/// Reads a maze from its text: one row per line, each character a cell.
pub fn parse_maze(text: &[char]) -> (maze: Vec<Vec<char>>)
    ensures
        maze@.len() == rows_from(text@, 0).len(),
        forall|r: int| 0 <= r < maze@.len() ==> (#[trigger] maze@[r])@ == rows_from(text@, 0)[r],
{
    let len: usize = text.len();
    let mut maze: Vec<Vec<char>> = Vec::new();
    let mut start: usize = 0;
    let ghost mut done: Seq<Seq<char>> = Seq::empty();
    while start < len
        invariant
            start <= len,
            len == text@.len(),
            maze@.len() == done.len(),
            forall|r: int| 0 <= r < maze@.len() ==> (#[trigger] maze@[r])@ == done[r],
            done + rows_from(text@, start as int) == rows_from(text@, 0),
        decreases len - start,
    {
        let mut end: usize = start;
        while end < len && text[end] != '\n'
            invariant
                start <= end <= len,
                len == text@.len(),
                line_end(text@, end as int) == line_end(text@, start as int),
            decreases len - end,
        {
            end += 1;
        }
        let stop: usize = if end < len && start < end && text[end - 1] == '\r' {
            end - 1
        } else {
            end
        };
        let mut row: Vec<char> = Vec::new();
        let mut i: usize = start;
        while i < stop
            invariant
                start <= i <= stop <= len,
                len == text@.len(),
                row@ == text@.subrange(start as int, i as int),
            decreases stop - i,
        {
            row.push(text[i]);
            assert(row@ =~= text@.subrange(start as int, i + 1));
            i += 1;
        }
        let next: usize = if end == len {
            len
        } else {
            end + 1
        };
        proof {
            assert(line_end(text@, start as int) == end);
            let rest = rows_from(text@, next as int);
            assert(rows_from(text@, start as int) =~= seq![row@] + rest);
            assert((done.push(row@)) + rest =~= done + (seq![row@] + rest));
            done = done.push(row@);
        }
        maze.push(row);
        start = next;
    }
    proof {
        assert(done + rows_from(text@, start as int) =~= done);
    }
    maze
}

} // verus!
