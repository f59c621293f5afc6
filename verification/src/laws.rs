//! What holds of every move, stated over the grid as a mathematical value.

use crate::cell::Cell;
use crate::direction::{
    col_of, depth_of, lane_of, lemma_lanes_cover, row_of, Direction, Merge, SIZE,
};
use crate::grid::{
    after_slide, cleared, draws_fit, empty_count, grid_ready, grid_unmarked, grid_wf, has_empty,
    is_grid, lane, lanes_merges, seeded, slid, slide_merges, SQUARES,
};
use crate::spawn::{lemma_has_empty_iff_counted, lemma_seeded};
use crate::line::{
    lemma_line_merges_once, lemma_settle_is_settled, lemma_settle_stems, lemma_slid_line_stays,
    line_merges, line_ready, merge_depth, merge_lane, settle, slid_line, stems_from,
};
use vstd::prelude::*;

verus! {

/// The lanes of a grid that is ready for a move are ready to slide.
pub proof fn lemma_lane_ready(g: Seq<Seq<Cell>>, dir: Direction, i: int)
    requires
        grid_wf(g),
        grid_ready(g),
        0 <= i < SIZE,
    ensures
        line_ready(lane(g, dir, i)),
        lane(g, dir, i).len() == SIZE,
{
    assert forall|d: int| 0 <= d < SIZE implies (#[trigger] lane(g, dir, i)[d]).wf() && lane(
        g,
        dir,
        i,
    )[d].can_double() by {
        assert(g[row_of(dir, i, d)][col_of(dir, i, d)].wf());
        assert(g[row_of(dir, i, d)][col_of(dir, i, d)].can_double());
    }
}

/// A move slides each lane on its own: lane `i` of the grid after the move is
/// lane `i` of the grid before it, slid to the wall.
pub proof fn lemma_lane_of_slid(g: Seq<Seq<Cell>>, dir: Direction, i: int)
    requires
        is_grid(g),
        0 <= i < SIZE,
    ensures
        lane(slid(g, dir), dir, i) == slid_line(lane(g, dir, i)),
{
    assert(lane(slid(g, dir), dir, i) =~= slid_line(lane(g, dir, i)));
}

/// A move leaves a grid that is again well formed and ready for a move.
pub proof fn lemma_slid_is_ready(g: Seq<Seq<Cell>>, dir: Direction)
    requires
        grid_wf(g),
        grid_ready(g),
    ensures
        grid_wf(slid(g, dir)),
        grid_ready(slid(g, dir)),
{
    assert forall|r: int, c: int| 0 <= r < SIZE && 0 <= c < SIZE implies (#[trigger] slid(
        g,
        dir,
    )[r][c]).wf() && slid(g, dir)[r][c].can_double() by {
        lemma_lanes_cover(dir, r, c);
        let i = lane_of(dir, r, c);
        lemma_lane_ready(g, dir, i);
        lemma_slid_line_stays(lane(g, dir, i), dir, i);
        assert(slid_line(lane(g, dir, i))[depth_of(dir, r, c)].wf());
    }
}

/// Sliding is idempotent: a second move in the same direction, made right after
/// the first, leaves every cell as it is and merges nothing.
pub proof fn lemma_slide_idempotent(g: Seq<Seq<Cell>>, dir: Direction)
    requires
        grid_wf(g),
        grid_ready(g),
    ensures
        slid(slid(g, dir), dir) == slid(g, dir),
        slide_merges(slid(g, dir), dir) == Seq::<Merge>::empty(),
{
    let once = slid(g, dir);
    assert forall|i: int| 0 <= i < SIZE implies slid_line(#[trigger] lane(once, dir, i)) == lane(
        once,
        dir,
        i,
    ) && line_merges(lane(once, dir, i), SIZE as nat, dir, i) == Seq::<Merge>::empty() by {
        lemma_lane_of_slid(g, dir, i);
        lemma_lane_ready(g, dir, i);
        lemma_slid_line_stays(lane(g, dir, i), dir, i);
    }
    assert(slid(once, dir) =~~= once) by {
        assert forall|r: int, c: int| 0 <= r < SIZE && 0 <= c < SIZE implies slid(
            once,
            dir,
        )[r][c] == once[r][c] by {
            lemma_lanes_cover(dir, r, c);
            let i = lane_of(dir, r, c);
            assert(slid_line(lane(once, dir, i)) == lane(once, dir, i));
            assert(lane(once, dir, i)[depth_of(dir, r, c)] == once[r][c]);
        }
    }
    lemma_no_merges_in_settled_lanes(once, dir, SIZE as nat);
}

/// A move that leaves every cell where it was has merged nothing: a merge
/// always changes the board.
pub proof fn lemma_unmoved_merges_nothing(g: Seq<Seq<Cell>>, dir: Direction)
    requires
        grid_wf(g),
        grid_ready(g),
        slid(g, dir) == g,
    ensures
        slide_merges(g, dir) == Seq::<Merge>::empty(),
{
    lemma_slide_idempotent(g, dir);
}

proof fn lemma_no_merges_in_settled_lanes(g: Seq<Seq<Cell>>, dir: Direction, lanes: nat)
    requires
        lanes <= SIZE,
        forall|i: int|
            0 <= i < SIZE ==> line_merges(#[trigger] lane(g, dir, i), SIZE as nat, dir, i)
                == Seq::<Merge>::empty(),
    ensures
        lanes_merges(g, dir, lanes) == Seq::<Merge>::empty(),
    decreases lanes,
{
    if lanes > 0 {
        lemma_no_merges_in_settled_lanes(g, dir, (lanes - 1) as nat);
        assert(line_merges(lane(g, dir, lanes - 1), SIZE as nat, dir, lanes - 1) == Seq::<
            Merge,
        >::empty());
        assert(lanes_merges(g, dir, lanes) =~= Seq::<Merge>::empty());
    }
}

/// The merges of the first `lanes` lanes go to pairwise different squares, in
/// the order of their lanes and, within a lane, from the wall outwards.
proof fn lemma_lanes_merges_once(g: Seq<Seq<Cell>>, dir: Direction, lanes: nat)
    requires
        grid_wf(g),
        grid_ready(g),
        lanes <= SIZE,
    ensures
        forall|i: int|
            0 <= i < lanes_merges(g, dir, lanes).len() ==> {
                let m = #[trigger] lanes_merges(g, dir, lanes)[i];
                &&& m.row < SIZE
                &&& m.col < SIZE
                &&& 0 <= merge_lane(dir, m) < lanes
                &&& slid(g, dir)[m.row as int][m.col as int] == Cell {
                    value: m.value,
                    combined: true,
                }
            },
        forall|i: int, j: int|
            0 <= i < j < lanes_merges(g, dir, lanes).len() ==> {
                let a = #[trigger] lanes_merges(g, dir, lanes)[i];
                let b = #[trigger] lanes_merges(g, dir, lanes)[j];
                merge_lane(dir, a) < merge_lane(dir, b) || (merge_lane(dir, a) == merge_lane(
                    dir,
                    b,
                ) && merge_depth(dir, a) < merge_depth(dir, b))
            },
        forall|i: int|
            0 <= i < lanes_merges(g, dir, lanes).len() ==> exists|r: int, c: int|
                0 <= r < SIZE && 0 <= c < SIZE && !(#[trigger] g[r][c]).combined && g[r][c].value
                    * 2 == (#[trigger] lanes_merges(g, dir, lanes)[i]).value,
    decreases lanes,
{
    if lanes > 0 {
        let l = lanes - 1;
        lemma_lanes_merges_once(g, dir, l as nat);
        lemma_lane_ready(g, dir, l);
        let line = lane(g, dir, l);
        lemma_line_merges_once(line, SIZE as nat, dir, l);
        let earlier = lanes_merges(g, dir, l as nat);
        let here = line_merges(line, SIZE as nat, dir, l);
        let ms = lanes_merges(g, dir, lanes);
        assert(ms == earlier + here);
        assert forall|i: int| 0 <= i < ms.len() implies {
            let m = #[trigger] ms[i];
            &&& m.row < SIZE
            &&& m.col < SIZE
            &&& 0 <= merge_lane(dir, m) < lanes
            &&& slid(g, dir)[m.row as int][m.col as int] == Cell { value: m.value, combined: true }
            &&& (i < earlier.len() ==> m == earlier[i] && merge_lane(dir, m) < l)
            &&& (i >= earlier.len() ==> m == here[i - earlier.len()] && merge_lane(dir, m) == l)
        } by {
            let m = ms[i];
            if i >= earlier.len() {
                let h = here[i - earlier.len()];
                assert(m == h);
                let d = merge_depth(dir, h);
                assert(settle(line, SIZE as nat)[d] == Cell { value: h.value, combined: true });
                lemma_settle_is_settled(line, SIZE as nat);
                assert(slid_line(line)[d] == settle(line, SIZE as nat)[d]);
                assert(lane_of(dir, h.row as int, h.col as int) == l);
            } else {
                assert(m == earlier[i]);
            }
        }
        assert forall|i: int| 0 <= i < ms.len() implies exists|r: int, c: int|
            0 <= r < SIZE && 0 <= c < SIZE && !(#[trigger] g[r][c]).combined && g[r][c].value * 2
                == (#[trigger] ms[i]).value by {
            if i >= earlier.len() {
                let h = here[i - earlier.len()];
                assert(ms[i] == h);
                let s = choose|s: int|
                    0 <= s < SIZE && !(#[trigger] line[s]).combined && line[s].value * 2
                        == h.value;
                let r = row_of(dir, l, s);
                let c = col_of(dir, l, s);
                assert(line[s] == g[r][c]);
                assert(0 <= r < SIZE && 0 <= c < SIZE && !g[r][c].combined && g[r][c].value * 2
                    == ms[i].value);
            } else {
                assert(ms[i] == earlier[i]);
                let (r, c) = choose|r: int, c: int|
                    0 <= r < SIZE && 0 <= c < SIZE && !(#[trigger] g[r][c]).combined
                        && g[r][c].value * 2 == earlier[i].value;
                assert(0 <= r < SIZE && 0 <= c < SIZE && !g[r][c].combined && g[r][c].value * 2
                    == ms[i].value);
            }
        }
    }
}

/// A move merges at most once per square: the merges it reports go to pairwise
/// different squares. After the move each of these squares holds a marked tile
/// that shows the value of its merge, and that value is twice the value of an
/// unmarked tile of the grid before the move, so no tile merges twice in a move.
pub proof fn lemma_one_merge_per_cell(g: Seq<Seq<Cell>>, dir: Direction)
    requires
        grid_wf(g),
        grid_ready(g),
    ensures
        forall|i: int|
            0 <= i < slide_merges(g, dir).len() ==> {
                let m = #[trigger] slide_merges(g, dir)[i];
                &&& m.row < SIZE
                &&& m.col < SIZE
                &&& slid(g, dir)[m.row as int][m.col as int] == Cell {
                    value: m.value,
                    combined: true,
                }
            },
        forall|i: int, j: int|
            0 <= i < j < slide_merges(g, dir).len() ==> {
                let a = #[trigger] slide_merges(g, dir)[i];
                let b = #[trigger] slide_merges(g, dir)[j];
                a.row != b.row || a.col != b.col
            },
        forall|i: int|
            0 <= i < slide_merges(g, dir).len() ==> exists|r: int, c: int|
                0 <= r < SIZE && 0 <= c < SIZE && !(#[trigger] g[r][c]).combined && g[r][c].value
                    * 2 == (#[trigger] slide_merges(g, dir)[i]).value,
{
    lemma_lanes_merges_once(g, dir, SIZE as nat);
}

/// Removing the marks keeps a grid well formed and shows the same values.
pub proof fn lemma_cleared_wf(g: Seq<Seq<Cell>>)
    requires
        grid_wf(g),
    ensures
        grid_wf(cleared(g)),
        grid_unmarked(cleared(g)),
        has_empty(cleared(g)) == has_empty(g),
{
    assert forall|r: int, c: int| 0 <= r < SIZE && 0 <= c < SIZE implies (#[trigger] cleared(
        g,
    )[r][c]).wf() by {
        assert(g[r][c].wf());
    }
    if has_empty(g) {
        let (r, c) = choose|r: int, c: int|
            0 <= r < SIZE && 0 <= c < SIZE && (#[trigger] g[r][c]).is_empty();
        assert(cleared(g)[r][c].is_empty());
    }
    if has_empty(cleared(g)) {
        let (r, c) = choose|r: int, c: int|
            0 <= r < SIZE && 0 <= c < SIZE && (#[trigger] cleared(g)[r][c]).is_empty();
        assert(g[r][c].is_empty());
    }
}

/// What rests against the wall is shorter than the part of the lane that was
/// handled as soon as that part holds an empty square.
pub proof fn lemma_settle_leaves_room(line: Seq<Cell>, k: nat)
    requires
        k <= line.len(),
    ensures
        settle(line, k).len() <= k,
        (exists|i: int| 0 <= i < k && (#[trigger] line[i]).is_empty()) ==> settle(line, k).len() < k,
    decreases k,
{
    if k > 0 {
        lemma_settle_leaves_room(line, (k - 1) as nat);
        if exists|i: int| 0 <= i < k && (#[trigger] line[i]).is_empty() {
            let i = choose|i: int| 0 <= i < k && (#[trigger] line[i]).is_empty();
            if i < k - 1 {
                assert(0 <= i < k - 1 && line[i].is_empty());
            }
        }
    }
}

/// A move never fills the board: if a square was empty before the move, a
/// square is empty after it.
pub proof fn lemma_slide_keeps_room(g: Seq<Seq<Cell>>, dir: Direction)
    requires
        is_grid(g),
        has_empty(g),
    ensures
        has_empty(slid(g, dir)),
        has_empty(after_slide(g, dir)),
{
    let (r, c) = choose|r: int, c: int|
        0 <= r < SIZE && 0 <= c < SIZE && (#[trigger] g[r][c]).is_empty();
    lemma_lanes_cover(dir, r, c);
    let i = lane_of(dir, r, c);
    let d = depth_of(dir, r, c);
    let line = lane(g, dir, i);
    assert(line[d] == g[r][c]);
    lemma_settle_leaves_room(line, SIZE as nat);
    let last = SIZE - 1;
    assert(slid_line(line)[last] == Cell::blank());
    let rr = row_of(dir, i, last);
    let cc = col_of(dir, i, last);
    assert(lane_of(dir, rr, cc) == i && depth_of(dir, rr, cc) == last);
    assert(slid(g, dir)[rr][cc] == slid_line(line)[last]);
    assert(slid(g, dir)[rr][cc].is_empty());
    assert(after_slide(g, dir)[rr][cc].is_empty());
}

/// A game that has just been started is in play and stays in play through
/// its first move: with two or three tiles on sixteen squares a square is
/// empty, before the move and after it.
pub proof fn lemma_fresh_game_goes_on(draws: Seq<(usize, u32)>, dir: Direction)
    requires
        2 <= draws.len() <= 3,
        draws_fit(draws),
    ensures
        has_empty(seeded(draws)),
        empty_count(seeded(draws)) == SQUARES - draws.len(),
        has_empty(after_slide(seeded(draws), dir)),
{
    lemma_seeded(draws);
    lemma_has_empty_iff_counted(seeded(draws));
    lemma_slide_keeps_room(seeded(draws), dir);
}

/// The cell `after` is what a move can make of the cells of `g`: one of them as
/// it was, or a marked tile that shows twice the value of an unmarked one.
pub open spec fn stems_from_grid(after: Cell, g: Seq<Seq<Cell>>) -> bool {
    ||| exists|r: int, c: int| 0 <= r < SIZE && 0 <= c < SIZE && #[trigger] g[r][c] == after
    ||| after.combined && exists|r: int, c: int|
        0 <= r < SIZE && 0 <= c < SIZE && !(#[trigger] g[r][c]).combined && g[r][c].value * 2
            == after.value
}

/// A move never doubles a value without marking the tile: every tile on the
/// grid after a move is a tile of the grid before it, unchanged, or a marked
/// tile that shows twice the value of a tile that was unmarked before the move.
pub proof fn lemma_doubled_tiles_are_marked(g: Seq<Seq<Cell>>, dir: Direction)
    requires
        grid_wf(g),
        grid_ready(g),
    ensures
        forall|r: int, c: int|
            0 <= r < SIZE && 0 <= c < SIZE && (#[trigger] slid(g, dir)[r][c]).is_occupied()
                ==> stems_from_grid(slid(g, dir)[r][c], g),
{
    assert forall|r: int, c: int|
        0 <= r < SIZE && 0 <= c < SIZE && (#[trigger] slid(g, dir)[r][c]).is_occupied()
        implies stems_from_grid(slid(g, dir)[r][c], g) by {
        lemma_lanes_cover(dir, r, c);
        let i = lane_of(dir, r, c);
        let d = depth_of(dir, r, c);
        let line = lane(g, dir, i);
        let after = slid(g, dir)[r][c];
        lemma_lane_ready(g, dir, i);
        lemma_settle_stems(line, SIZE as nat);
        assert(after == slid_line(line)[d]);
        assert(d < settle(line, SIZE as nat).len());
        assert(stems_from(settle(line, SIZE as nat)[d], line, SIZE as nat));
        if exists|s: int| 0 <= s < SIZE && #[trigger] line[s] == after {
            let s = choose|s: int| 0 <= s < SIZE && #[trigger] line[s] == after;
            assert(g[row_of(dir, i, s)][col_of(dir, i, s)] == after);
        } else {
            let s = choose|s: int|
                0 <= s < SIZE && !(#[trigger] line[s]).combined && line[s].value * 2
                    == after.value;
            let rr = row_of(dir, i, s);
            let cc = col_of(dir, i, s);
            assert(!g[rr][cc].combined && g[rr][cc].value * 2 == after.value);
        }
    }
}

} // verus!
