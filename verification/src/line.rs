//! Sliding one lane of the grid towards its wall.
//!
//! A lane is a sequence of cells ordered by depth: index 0 is the square at the
//! wall. Sliding lets every tile, nearest to the wall first, travel towards the
//! wall until it meets the wall or another tile; it merges into that tile when
//! both show the same value and neither has merged during this move.

use crate::cell::{lemma_double_is_tile, Cell};
use crate::direction::{col_of, depth_of, lane_of, row_of, Direction, Merge, SIZE};
use vstd::prelude::*;

verus! {

/// The tiles that rest against the wall once the first `k` squares of `line`
/// have been handled, nearest to the wall first, with no gaps between them.
pub open spec fn settle(line: Seq<Cell>, k: nat) -> Seq<Cell>
    decreases k,
{
    if k == 0 {
        Seq::empty()
    } else {
        let resting = settle(line, (k - 1) as nat);
        let moving = line[k - 1];
        if moving.is_empty() {
            resting
        } else if resting.len() > 0 && resting.last().absorbs(moving) {
            resting.drop_last().push(resting.last().doubled())
        } else {
            resting.push(moving)
        }
    }
}

/// `tiles` followed by empty squares, `len` squares in all.
pub open spec fn padded(tiles: Seq<Cell>, len: nat) -> Seq<Cell> {
    Seq::new(
        len,
        |i: int|
            if i < tiles.len() {
                tiles[i]
            } else {
                Cell::blank()
            },
    )
}

/// The lane after the move.
pub open spec fn slid_line(line: Seq<Cell>) -> Seq<Cell> {
    padded(settle(line, line.len()), line.len())
}

/// The merges that handling the first `k` squares of `line` performs, in the
/// order in which they happen. `dir` and `lane` say where the lane lies in the
/// grid, so that each merge can name the square that received the tile.
pub open spec fn line_merges(line: Seq<Cell>, k: nat, dir: Direction, lane: int) -> Seq<Merge>
    decreases k,
{
    if k == 0 {
        Seq::empty()
    } else {
        let earlier = line_merges(line, (k - 1) as nat, dir, lane);
        let resting = settle(line, (k - 1) as nat);
        let moving = line[k - 1];
        if moving.is_occupied() && resting.len() > 0 && resting.last().absorbs(moving) {
            earlier.push(
                Merge {
                    row: row_of(dir, lane, resting.len() - 1) as usize,
                    col: col_of(dir, lane, resting.len() - 1) as usize,
                    value: resting.last().doubled().value,
                },
            )
        } else {
            earlier
        }
    }
}

/// Every cell of the lane is well formed and can take part in a merge without
/// overflowing.
pub open spec fn line_ready(line: Seq<Cell>) -> bool {
    forall|i: int| 0 <= i < line.len() ==> (#[trigger] line[i]).wf() && line[i].can_double()
}

/// Slides `line` towards index 0 in place and appends the merges to `merges`.
pub fn slide_line(line: &mut [Cell; SIZE], dir: Direction, lane: usize, merges: &mut Vec<Merge>)
    requires
        lane < SIZE,
        line_ready(old(line)@),
    ensures
        final(line)@ == slid_line(old(line)@),
        final(merges)@ == old(merges)@ + line_merges(old(line)@, SIZE as nat, dir, lane as int),
        line_ready(final(line)@),
{
    let ghost start = line@;
    let ghost logged = merges@;
    let mut x: usize = 1;
    assert(settle(start, 1) == if start[0].is_empty() {
        Seq::<Cell>::empty()
    } else {
        Seq::<Cell>::empty().push(start[0])
    }) by {
        reveal_with_fuel(settle, 2);
    }
    assert(line_merges(start, 1, dir, lane as int) == Seq::<Merge>::empty()) by {
        reveal_with_fuel(line_merges, 2);
        reveal_with_fuel(settle, 2);
    }
    while x < SIZE
        invariant
            1 <= x <= SIZE,
            lane < SIZE,
            line_ready(start),
            line_ready(line@),
            start.len() == SIZE,
            settle(start, x as nat).len() <= x,
            forall|i: int|
                0 <= i < settle(start, x as nat).len() ==> (#[trigger] line@[i]) == settle(
                    start,
                    x as nat,
                )[i] && line@[i].is_occupied(),
            forall|i: int|
                settle(start, x as nat).len() <= i < x ==> (#[trigger] line@[i]) == Cell::blank(),
            forall|i: int| x <= i < SIZE ==> (#[trigger] line@[i]) == start[i],
            merges@ == logged + line_merges(start, x as nat, dir, lane as int),
        decreases SIZE - x,
    {
        let ghost resting = settle(start, x as nat);
        if line[x].is_occupied() {
            let mut cell_x: usize = x;
            while cell_x > 0 && line[cell_x - 1].is_empty()
                invariant
                    resting.len() <= cell_x <= x,
                    x < SIZE,
                    forall|i: int| 0 <= i < resting.len() ==> (#[trigger] line@[i]).is_occupied(),
                    forall|i: int| resting.len() <= i < x ==> (#[trigger] line@[i]) == Cell::blank(),
                decreases cell_x,
            {
                cell_x -= 1;
            }
            assert(cell_x == resting.len());
            if cell_x > 0 && line[cell_x - 1] == line[x] && !line[cell_x - 1].combined
                && !line[x].combined {
                proof {
                    lemma_double_is_tile(line[x as int].value);
                }
                let at = dir.square(lane, cell_x - 1);
                let value = line[x].value * 2;
                line[cell_x - 1] = Cell { value, combined: true };
                merges.push(Merge { row: at.0, col: at.1, value });
                line[x] = Cell::empty();
            }
            if cell_x != x {
                line[cell_x] = line[x];
                line[x] = Cell::empty();
            }
        }
        x += 1;
    }
    assert(line@ =~= slid_line(start));
}

/// The tiles `tiles` lie against the wall as a move leaves them: every one of them
/// is a tile, and no two neighbours could still merge.
pub open spec fn is_settled(tiles: Seq<Cell>) -> bool {
    &&& forall|i: int| 0 <= i < tiles.len() ==> (#[trigger] tiles[i]).is_occupied()
    &&& forall|i: int| 0 <= i < tiles.len() - 1 ==> !(#[trigger] tiles[i]).absorbs(tiles[i + 1])
}

/// What `settle` leaves against the wall is settled, well formed, and no longer
/// than the part of the lane that was handled.
pub proof fn lemma_settle_is_settled(line: Seq<Cell>, k: nat)
    requires
        line_ready(line),
        k <= line.len(),
    ensures
        settle(line, k).len() <= k,
        is_settled(settle(line, k)),
        line_ready(settle(line, k)),
    decreases k,
{
    if k > 0 {
        lemma_settle_is_settled(line, (k - 1) as nat);
        let resting = settle(line, (k - 1) as nat);
        let moving = line[k - 1];
        assert(moving.wf() && moving.can_double());
        if moving.is_occupied() && resting.len() > 0 && resting.last().absorbs(moving) {
            lemma_double_is_tile(moving.value);
            let after = resting.drop_last().push(resting.last().doubled());
            assert(settle(line, k) == after);
            assert forall|i: int| 0 <= i < after.len() - 1 implies !(#[trigger] after[i]).absorbs(
                after[i + 1],
            ) by {
                if i < after.len() - 2 {
                    assert(after[i] == resting[i]);
                    assert(after[i + 1] == resting[i + 1]);
                }
            }
            assert forall|i: int| 0 <= i < after.len() implies (#[trigger] after[i]).is_occupied()
                && after[i].wf() && after[i].can_double() by {
                if i < after.len() - 1 {
                    assert(after[i] == resting[i]);
                }
            }
        } else if moving.is_occupied() {
            let after = resting.push(moving);
            assert(settle(line, k) == after);
            assert forall|i: int| 0 <= i < after.len() - 1 implies !(#[trigger] after[i]).absorbs(
                after[i + 1],
            ) by {
                if i < after.len() - 2 {
                    assert(after[i] == resting[i]);
                    assert(after[i + 1] == resting[i + 1]);
                }
            }
            assert forall|i: int| 0 <= i < after.len() implies (#[trigger] after[i]).is_occupied()
                && after[i].wf() && after[i].can_double() by {
                if i < after.len() - 1 {
                    assert(after[i] == resting[i]);
                }
            }
        }
    }
}

/// A lane that already lies settled against its wall stays as it is: handling
/// its first `k` squares finds the first `k` tiles where they are, and merges
/// nothing.
pub proof fn lemma_settled_stays(tiles: Seq<Cell>, len: nat, k: nat, dir: Direction, lane: int)
    requires
        is_settled(tiles),
        tiles.len() <= len,
        k <= len,
    ensures
        settle(padded(tiles, len), k) == if k <= tiles.len() {
            tiles.take(k as int)
        } else {
            tiles
        },
        line_merges(padded(tiles, len), k, dir, lane) == Seq::<Merge>::empty(),
    decreases k,
{
    let line = padded(tiles, len);
    if k == 0 {
        assert(settle(line, 0) =~= tiles.take(0));
    } else {
        lemma_settled_stays(tiles, len, (k - 1) as nat, dir, lane);
        let resting = settle(line, (k - 1) as nat);
        let moving = line[k - 1];
        if k <= tiles.len() {
            assert(resting == tiles.take(k - 1));
            assert(moving == tiles[k - 1]);
            if resting.len() > 0 {
                assert(resting.last() == tiles[k - 2]);
                assert(!tiles[k - 2].absorbs(tiles[k - 2 + 1]));
            }
            assert(settle(line, k) =~= tiles.take(k as int));
        } else {
            assert(moving == Cell::blank());
            if k - 1 <= tiles.len() {
                assert(tiles.take(k - 1) =~= tiles);
            }
        }
    }
}

/// Sliding a lane a second time changes nothing and merges nothing.
pub proof fn lemma_slid_line_stays(line: Seq<Cell>, dir: Direction, lane: int)
    requires
        line_ready(line),
    ensures
        slid_line(slid_line(line)) == slid_line(line),
        line_merges(slid_line(line), line.len(), dir, lane) == Seq::<Merge>::empty(),
        line_ready(slid_line(line)),
{
    let tiles = settle(line, line.len());
    lemma_settle_is_settled(line, line.len());
    lemma_settled_stays(tiles, line.len(), line.len(), dir, lane);
    if line.len() <= tiles.len() {
        assert(tiles.take(line.len() as int) =~= tiles);
    }
    assert(slid_line(line).len() == line.len());
    assert(slid_line(slid_line(line)) =~= slid_line(line));
}

/// How deep in its lane the square lies that received the merge `m`.
pub open spec fn merge_depth(dir: Direction, m: Merge) -> int {
    depth_of(dir, m.row as int, m.col as int)
}

/// The lane of the square that received the merge `m`.
pub open spec fn merge_lane(dir: Direction, m: Merge) -> int {
    lane_of(dir, m.row as int, m.col as int)
}

/// No square of a lane receives more than one merge: the merges of a lane go to
/// squares of strictly growing depth. Each leaves behind a marked tile that
/// shows the merge's value, and that value is twice the value of an unmarked
/// tile of the lane before the move.
pub proof fn lemma_line_merges_once(line: Seq<Cell>, k: nat, dir: Direction, lane: int)
    requires
        line_ready(line),
        line.len() == SIZE,
        k <= line.len(),
        0 <= lane < SIZE,
    ensures
        forall|i: int|
            0 <= i < line_merges(line, k, dir, lane).len() ==> {
                let m = #[trigger] line_merges(line, k, dir, lane)[i];
                &&& merge_lane(dir, m) == lane
                &&& 0 <= merge_depth(dir, m) < settle(line, k).len()
                &&& settle(line, k)[merge_depth(dir, m)] == Cell { value: m.value, combined: true }
                &&& m.row == row_of(dir, lane, merge_depth(dir, m))
                &&& m.col == col_of(dir, lane, merge_depth(dir, m))
            },
        forall|i: int, j: int|
            0 <= i < j < line_merges(line, k, dir, lane).len() ==> merge_depth(
                dir,
                #[trigger] line_merges(line, k, dir, lane)[i],
            ) < merge_depth(dir, #[trigger] line_merges(line, k, dir, lane)[j]),
        forall|i: int|
            0 <= i < line_merges(line, k, dir, lane).len() ==> exists|s: int|
                0 <= s < k && !(#[trigger] line[s]).combined && line[s].value * 2 == (
                #[trigger] line_merges(line, k, dir, lane)[i]).value,
    decreases k,
{
    if k > 0 {
        lemma_line_merges_once(line, (k - 1) as nat, dir, lane);
        lemma_settle_is_settled(line, (k - 1) as nat);
        let earlier = line_merges(line, (k - 1) as nat, dir, lane);
        let resting = settle(line, (k - 1) as nat);
        let after = settle(line, k);
        let ms = line_merges(line, k, dir, lane);
        let moving = line[k - 1];
        assert(moving.wf() && moving.can_double());
        let merging = moving.is_occupied() && resting.len() > 0 && resting.last().absorbs(moving);
        if merging {
            lemma_double_is_tile(moving.value);
        }
        assert forall|i: int| 0 <= i < ms.len() implies {
            let m = #[trigger] ms[i];
            &&& merge_lane(dir, m) == lane
            &&& 0 <= merge_depth(dir, m) < after.len()
            &&& after[merge_depth(dir, m)] == Cell { value: m.value, combined: true }
            &&& m.row == row_of(dir, lane, merge_depth(dir, m))
            &&& m.col == col_of(dir, lane, merge_depth(dir, m))
            &&& (i < earlier.len() ==> m == earlier[i] && (merging ==> merge_depth(dir, m)
                < resting.len() - 1))
            &&& (i >= earlier.len() ==> merging && merge_depth(dir, m) == resting.len() - 1)
        } by {
            let m = ms[i];
            if i < earlier.len() {
                assert(m == earlier[i]);
                let d = merge_depth(dir, m);
                assert(resting[d] == Cell { value: m.value, combined: true });
                if merging {
                    assert(!resting.last().combined);
                    assert(d != resting.len() - 1);
                }
                assert(after[d] == resting[d]);
            }
        }
        assert forall|i: int| 0 <= i < ms.len() implies exists|s: int|
            0 <= s < k && !(#[trigger] line[s]).combined && line[s].value * 2 == (
            #[trigger] ms[i]).value by {
            if i < earlier.len() {
                assert(ms[i] == earlier[i]);
                let s = choose|s: int|
                    0 <= s < k - 1 && !(#[trigger] line[s]).combined && line[s].value * 2
                        == earlier[i].value;
                assert(0 <= s < k && !line[s].combined && line[s].value * 2 == ms[i].value);
            } else {
                assert(!line[k - 1].combined && line[k - 1].value * 2 == ms[i].value);
            }
        }
    }
}

/// The cell `after` is what a move can make of the cells of `line` up to `k`: one
/// of them as it was, or a marked tile that shows twice the value of an
/// unmarked one.
pub open spec fn stems_from(after: Cell, line: Seq<Cell>, k: nat) -> bool {
    ||| exists|s: int| 0 <= s < k && #[trigger] line[s] == after
    ||| after.combined && exists|s: int|
        0 <= s < k && !(#[trigger] line[s]).combined && line[s].value * 2 == after.value
}

/// Every tile that rests against the wall is a tile of the lane as it was, or a
/// marked tile of twice the value of an unmarked one: a value is never doubled
/// without the tile being marked.
pub proof fn lemma_settle_stems(line: Seq<Cell>, k: nat)
    requires
        line_ready(line),
        k <= line.len(),
    ensures
        forall|p: int|
            0 <= p < settle(line, k).len() ==> stems_from(#[trigger] settle(line, k)[p], line, k),
    decreases k,
{
    if k > 0 {
        lemma_settle_stems(line, (k - 1) as nat);
        let resting = settle(line, (k - 1) as nat);
        let after = settle(line, k);
        let moving = line[k - 1];
        assert(moving.wf() && moving.can_double());
        let merging = moving.is_occupied() && resting.len() > 0 && resting.last().absorbs(moving);
        if merging {
            lemma_double_is_tile(moving.value);
        }
        assert forall|p: int| 0 <= p < after.len() implies stems_from(
            #[trigger] after[p],
            line,
            k,
        ) by {
            if p < resting.len() && after[p] == resting[p] {
                assert(stems_from(resting[p], line, (k - 1) as nat));
                if exists|s: int| 0 <= s < k - 1 && #[trigger] line[s] == resting[p] {
                    let s = choose|s: int| 0 <= s < k - 1 && #[trigger] line[s] == resting[p];
                    assert(0 <= s < k && line[s] == after[p]);
                } else {
                    let s = choose|s: int|
                        0 <= s < k - 1 && !(#[trigger] line[s]).combined && line[s].value * 2
                            == resting[p].value;
                    assert(0 <= s < k && !line[s].combined && line[s].value * 2 == after[p].value);
                }
            } else if merging {
                assert(after[p] == resting.last().doubled());
                assert(!line[k - 1].combined && line[k - 1].value * 2 == after[p].value);
            } else {
                assert(line[k - 1] == after[p]);
            }
        }
    }
}

} // verus!
