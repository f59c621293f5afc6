//! The grid as a mathematical value: four rows of four cells, and what a move
//! does to them.

use crate::cell::Cell;
use crate::direction::{col_of, depth_of, lane_of, row_of, Direction, Merge, SIZE};
use crate::line::{line_merges, slid_line};
use vstd::prelude::*;

verus! {

/// Four rows of four cells.
pub open spec fn is_grid(g: Seq<Seq<Cell>>) -> bool {
    &&& g.len() == SIZE
    &&& forall|r: int| 0 <= r < SIZE ==> (#[trigger] g[r]).len() == SIZE
}

/// A grid whose cells are all well formed.
pub open spec fn grid_wf(g: Seq<Seq<Cell>>) -> bool {
    &&& is_grid(g)
    &&& forall|r: int, c: int| 0 <= r < SIZE && 0 <= c < SIZE ==> (#[trigger] g[r][c]).wf()
}

/// Every tile that could still merge in this move can be doubled within `u32`.
pub open spec fn grid_ready(g: Seq<Seq<Cell>>) -> bool {
    forall|r: int, c: int| 0 <= r < SIZE && 0 <= c < SIZE ==> (#[trigger] g[r][c]).can_double()
}

/// No cell carries the mark of a merge.
pub open spec fn grid_unmarked(g: Seq<Seq<Cell>>) -> bool {
    forall|r: int, c: int| 0 <= r < SIZE && 0 <= c < SIZE ==> !(#[trigger] g[r][c]).combined
}

/// The grid without any tile.
pub open spec fn empty_grid() -> Seq<Seq<Cell>> {
    Seq::new(SIZE as nat, |r: int| Seq::new(SIZE as nat, |c: int| Cell::blank()))
}

/// Lane `i` of the grid for a move in direction `dir`, wall first.
pub open spec fn lane(g: Seq<Seq<Cell>>, dir: Direction, i: int) -> Seq<Cell> {
    Seq::new(SIZE as nat, |depth: int| g[row_of(dir, i, depth)][col_of(dir, i, depth)])
}

/// The grid after a move in direction `dir`: every lane has slid to its wall.
pub open spec fn slid(g: Seq<Seq<Cell>>, dir: Direction) -> Seq<Seq<Cell>> {
    Seq::new(
        SIZE as nat,
        |r: int|
            Seq::new(
                SIZE as nat,
                |c: int| slid_line(lane(g, dir, lane_of(dir, r, c)))[depth_of(dir, r, c)],
            ),
    )
}

/// The merges of the first `lanes` lanes, lane by lane.
pub open spec fn lanes_merges(g: Seq<Seq<Cell>>, dir: Direction, lanes: nat) -> Seq<Merge>
    decreases lanes,
{
    if lanes == 0 {
        Seq::empty()
    } else {
        lanes_merges(g, dir, (lanes - 1) as nat) + line_merges(
            lane(g, dir, lanes - 1),
            SIZE as nat,
            dir,
            lanes - 1,
        )
    }
}

/// The merges that a move in direction `dir` performs, in the order in which
/// they are reported.
pub open spec fn slide_merges(g: Seq<Seq<Cell>>, dir: Direction) -> Seq<Merge> {
    lanes_merges(g, dir, SIZE as nat)
}

/// The grid with every merge mark removed.
pub open spec fn cleared(g: Seq<Seq<Cell>>) -> Seq<Seq<Cell>> {
    Seq::new(
        SIZE as nat,
        |r: int| Seq::new(SIZE as nat, |c: int| Cell { value: g[r][c].value, combined: false }),
    )
}

/// Some square of the grid is empty.
pub open spec fn has_empty(g: Seq<Seq<Cell>>) -> bool {
    exists|r: int, c: int| 0 <= r < SIZE && 0 <= c < SIZE && (#[trigger] g[r][c]).is_empty()
}

/// The number of squares of the grid.
pub const SQUARES: usize = 16;

/// The cell at position `p`, counting the squares row by row from the top left.
pub open spec fn flat(g: Seq<Seq<Cell>>, p: int) -> Cell {
    g[p / (SIZE as int)][p % (SIZE as int)]
}

/// The number of empty squares among the first `p` squares.
pub open spec fn empties_before(g: Seq<Seq<Cell>>, p: nat) -> nat
    decreases p,
{
    if p == 0 {
        0
    } else {
        empties_before(g, (p - 1) as nat) + if flat(g, p - 1).is_empty() {
            1nat
        } else {
            0nat
        }
    }
}

/// The number of empty squares of the grid.
pub open spec fn empty_count(g: Seq<Seq<Cell>>) -> nat {
    empties_before(g, SQUARES as nat)
}

/// The position of the empty square that has `n` empty squares before it, looking
/// from position `start` on; `SQUARES` if there is none.
pub open spec fn nth_empty_from(g: Seq<Seq<Cell>>, start: int, n: nat) -> int
    decreases SQUARES - start,
{
    if start >= SQUARES {
        SQUARES as int
    } else if flat(g, start).is_empty() {
        if n == 0 {
            start
        } else {
            nth_empty_from(g, start + 1, (n - 1) as nat)
        }
    } else {
        nth_empty_from(g, start + 1, n)
    }
}

/// The position of the empty square number `slot`, counting the empty squares
/// row by row from zero.
pub open spec fn nth_empty(g: Seq<Seq<Cell>>, slot: nat) -> int {
    nth_empty_from(g, 0, slot)
}

/// The grid with the cell at position `p` replaced.
pub open spec fn placed(g: Seq<Seq<Cell>>, p: int, cell: Cell) -> Seq<Seq<Cell>> {
    g.update(p / (SIZE as int), g[p / (SIZE as int)].update(p % (SIZE as int), cell))
}

/// The value of a new tile: two or four, decided by the lowest bit of `seed`.
pub open spec fn tile_for(seed: u32) -> u32 {
    if seed % 2 == 0 {
        2
    } else {
        4
    }
}

/// The grid with a new tile on the empty square number `slot`.
pub open spec fn spawned(g: Seq<Seq<Cell>>, slot: nat, seed: u32) -> Seq<Seq<Cell>> {
    placed(g, nth_empty(g, slot), Cell::tile(tile_for(seed)))
}

/// The grid that results when the tiles of `draws` are placed one after the
/// other on the empty grid. A draw names the empty square by its number and
/// carries the seed of the tile's value.
pub open spec fn seeded(draws: Seq<(usize, u32)>) -> Seq<Seq<Cell>>
    decreases draws.len(),
{
    if draws.len() == 0 {
        empty_grid()
    } else {
        spawned(seeded(draws.drop_last()), draws.last().0 as nat, draws.last().1)
    }
}

/// Each draw names an empty square that exists when its turn comes.
pub open spec fn draws_fit(draws: Seq<(usize, u32)>) -> bool {
    forall|i: int| 0 <= i < draws.len() ==> (#[trigger] draws[i]).0 + i < SQUARES
}

/// The grid once a move in direction `dir` is over: the tiles have slid and
/// merged, and the marks of the merges are removed.
pub open spec fn after_slide(g: Seq<Seq<Cell>>, dir: Direction) -> Seq<Seq<Cell>> {
    cleared(slid(g, dir))
}

} // verus!
