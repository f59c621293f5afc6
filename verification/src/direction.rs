//! The four directions of a move, and how a direction lays the grid out in lanes.
//!
//! A move treats the grid as four independent lanes that all point at the wall the
//! tiles slide towards. Within a lane a square is named by its depth: depth 0 is
//! the square at the wall, depth 3 the one farthest from it.

use vstd::prelude::*;

verus! {

/// The edge length of the grid.
pub const SIZE: usize = 4;

#[derive(Clone, Copy, Debug, PartialEq, Eq, Structural)]
pub enum Direction {
    Right,
    Left,
    Down,
    Up,
}

/// A merge that a move performed: the square that received the merged tile and
/// the value that tile now shows.
#[derive(Clone, Copy, Debug, PartialEq, Eq, Structural)]
pub struct Merge {
    pub row: usize,
    pub col: usize,
    pub value: u32,
}

/// What a move did: whether any tile moved or merged, and the merges in the
/// order in which they happened.
#[derive(Clone, Debug)]
pub struct Outcome {
    pub moved: bool,
    pub merges: Vec<Merge>,
}

/// The row of the square at `depth` in lane `lane`.
pub open spec fn row_of(dir: Direction, lane: int, depth: int) -> int {
    match dir {
        Direction::Right | Direction::Left => lane,
        Direction::Down => SIZE - 1 - depth,
        Direction::Up => depth,
    }
}

/// The column of the square at `depth` in lane `lane`.
pub open spec fn col_of(dir: Direction, lane: int, depth: int) -> int {
    match dir {
        Direction::Right => SIZE - 1 - depth,
        Direction::Left => depth,
        Direction::Down | Direction::Up => lane,
    }
}

/// The lane that the square at (`row`, `col`) belongs to.
pub open spec fn lane_of(dir: Direction, row: int, col: int) -> int {
    match dir {
        Direction::Right | Direction::Left => row,
        Direction::Down | Direction::Up => col,
    }
}

/// The depth of the square at (`row`, `col`) within its lane.
pub open spec fn depth_of(dir: Direction, row: int, col: int) -> int {
    match dir {
        Direction::Right => SIZE - 1 - col,
        Direction::Left => col,
        Direction::Down => SIZE - 1 - row,
        Direction::Up => row,
    }
}

/// The sum of the values that a sequence of merges produced.
pub open spec fn merge_total(merges: Seq<Merge>) -> nat
    decreases merges.len(),
{
    if merges.len() == 0 {
        0
    } else {
        merge_total(merges.drop_last()) + merges.last().value as nat
    }
}

impl Direction {
    /// The square at `depth` in lane `lane`, as (row, column).
    pub fn square(self, lane: usize, depth: usize) -> (at: (usize, usize))
        requires
            lane < SIZE,
            depth < SIZE,
        ensures
            at.0 == row_of(self, lane as int, depth as int),
            at.1 == col_of(self, lane as int, depth as int),
            at.0 < SIZE,
            at.1 < SIZE,
    {
        match self {
            Direction::Right => (lane, SIZE - 1 - depth),
            Direction::Left => (lane, depth),
            Direction::Down => (SIZE - 1 - depth, lane),
            Direction::Up => (depth, lane),
        }
    }

    /// The direction that a set of released keys asks for, if any. When several
    /// keys were released at once, right wins over left, left over down and down
    /// over up.
    pub fn from_keys(right: bool, left: bool, down: bool, up: bool) -> (d: Option<Direction>)
        ensures
            d == if right {
                Some(Direction::Right)
            } else if left {
                Some(Direction::Left)
            } else if down {
                Some(Direction::Down)
            } else if up {
                Some(Direction::Up)
            } else {
                None::<Direction>
            },
    {
        if right {
            Some(Direction::Right)
        } else if left {
            Some(Direction::Left)
        } else if down {
            Some(Direction::Down)
        } else if up {
            Some(Direction::Up)
        } else {
            None
        }
    }
}

/// Lanes and depths name every square exactly once.
pub proof fn lemma_lanes_cover(dir: Direction, row: int, col: int)
    requires
        0 <= row < SIZE,
        0 <= col < SIZE,
    ensures
        0 <= lane_of(dir, row, col) < SIZE,
        0 <= depth_of(dir, row, col) < SIZE,
        row_of(dir, lane_of(dir, row, col), depth_of(dir, row, col)) == row,
        col_of(dir, lane_of(dir, row, col), depth_of(dir, row, col)) == col,
{
}

} // verus!
