//! Facts about empty squares and about placing new tiles on them.

use crate::cell::{is_tile_value, Cell};
use crate::direction::SIZE;
use crate::grid::{
    empties_before, empty_count, empty_grid, flat, grid_ready, grid_unmarked, grid_wf, has_empty,
    is_grid, nth_empty, nth_empty_from, placed, seeded, spawned, tile_for, draws_fit, SQUARES,
};
use vstd::arithmetic::power2::{lemma2_to64, pow2};
use vstd::prelude::*;

verus! {

/// Two and four are tiles.
pub proof fn lemma_new_tile_is_tile(seed: u32)
    ensures
        is_tile_value(tile_for(seed)),
        Cell::tile(tile_for(seed)).wf(),
        Cell::tile(tile_for(seed)).can_double(),
        tile_for(seed) == 2 || tile_for(seed) == 4,
{
    lemma2_to64();
    assert(pow2(1) == 2 && pow2(2) == 4);
}

/// Counting the empty squares up to `q` counts at least those up to `p`, and at
/// most one more for each further square.
pub proof fn lemma_empties_grow(g: Seq<Seq<Cell>>, p: nat, q: nat)
    requires
        p <= q,
    ensures
        empties_before(g, p) <= empties_before(g, q) <= empties_before(g, p) + (q - p),
    decreases q,
{
    if p < q {
        lemma_empties_grow(g, p, (q - 1) as nat);
    }
}

/// A grid has an empty square exactly when its count of empty squares is not zero.
pub proof fn lemma_has_empty_iff_counted(g: Seq<Seq<Cell>>)
    requires
        is_grid(g),
    ensures
        has_empty(g) <==> empty_count(g) > 0,
{
    if has_empty(g) {
        let (r, c) = choose|r: int, c: int|
            0 <= r < SIZE && 0 <= c < SIZE && (#[trigger] g[r][c]).is_empty();
        let p = r * SIZE + c;
        assert(p / (SIZE as int) == r && p % (SIZE as int) == c);
        assert(flat(g, p).is_empty());
        assert(empties_before(g, (p + 1) as nat) >= 1);
        lemma_empties_grow(g, (p + 1) as nat, SQUARES as nat);
    }
    if empty_count(g) > 0 {
        lemma_counted_has_empty(g, SQUARES as nat);
    }
}

proof fn lemma_counted_has_empty(g: Seq<Seq<Cell>>, p: nat)
    requires
        p <= SQUARES,
        empties_before(g, p) > 0,
    ensures
        has_empty(g),
    decreases p,
{
    if flat(g, p - 1).is_empty() {
        let q = p - 1;
        assert(0 <= q / (SIZE as int) < SIZE && 0 <= q % (SIZE as int) < SIZE);
        assert(g[q / (SIZE as int)][q % (SIZE as int)].is_empty());
    } else {
        lemma_counted_has_empty(g, (p - 1) as nat);
    }
}

/// Looking from `start` on, empty square number `n` exists when enough empty
/// squares follow; it is empty, and exactly `n` empty squares lie between
/// `start` and it.
pub proof fn lemma_nth_empty_from(g: Seq<Seq<Cell>>, start: int, n: nat)
    requires
        0 <= start <= SQUARES,
        empties_before(g, start as nat) + n < empty_count(g),
    ensures
        start <= nth_empty_from(g, start, n) < SQUARES,
        flat(g, nth_empty_from(g, start, n)).is_empty(),
        empties_before(g, nth_empty_from(g, start, n) as nat) == empties_before(g, start as nat)
            + n,
    decreases SQUARES - start,
{
    if start >= SQUARES {
    } else {
        assert(empties_before(g, (start + 1) as nat) == empties_before(g, start as nat) + if flat(
            g,
            start,
        ).is_empty() {
            1nat
        } else {
            0nat
        });
        if flat(g, start).is_empty() {
            if n > 0 {
                lemma_nth_empty_from(g, start + 1, (n - 1) as nat);
            }
        } else {
            lemma_nth_empty_from(g, start + 1, n);
        }
    }
}

/// The spawner's choice is an empty square, and different slots are different
/// squares: empty square number `slot` has exactly `slot` empty squares before it.
pub proof fn lemma_nth_empty(g: Seq<Seq<Cell>>, slot: nat)
    requires
        slot < empty_count(g),
    ensures
        0 <= nth_empty(g, slot) < SQUARES,
        flat(g, nth_empty(g, slot)).is_empty(),
        empties_before(g, nth_empty(g, slot) as nat) == slot,
{
    lemma_nth_empty_from(g, 0, slot);
}

/// Filling an empty square leaves one empty square less before every later
/// position, and none less before the earlier ones.
pub proof fn lemma_empties_after_fill(g: Seq<Seq<Cell>>, p: int, cell: Cell, q: nat)
    requires
        is_grid(g),
        0 <= p < SQUARES,
        flat(g, p).is_empty(),
        cell.is_occupied(),
        q <= SQUARES,
    ensures
        empties_before(placed(g, p, cell), q) == if q <= p {
            empties_before(g, q)
        } else {
            (empties_before(g, q) - 1) as nat
        },
        q > p ==> empties_before(g, q) >= 1,
    decreases q,
{
    if q > 0 {
        lemma_empties_after_fill(g, p, cell, (q - 1) as nat);
        let at = q - 1;
        assert(0 <= at / (SIZE as int) < SIZE && 0 <= at % (SIZE as int) < SIZE);
        assert(0 <= p / (SIZE as int) < SIZE && 0 <= p % (SIZE as int) < SIZE);
        if at == p {
            assert(flat(placed(g, p, cell), at) == cell);
        } else {
            assert(at / (SIZE as int) != p / (SIZE as int) || at % (SIZE as int) != p % (SIZE as int));
            assert(flat(placed(g, p, cell), at) == flat(g, at));
        }
    }
}

/// A new tile fills exactly one empty square and leaves every other cell as it
/// was; the grid stays well formed.
pub proof fn lemma_spawned(g: Seq<Seq<Cell>>, slot: nat, seed: u32)
    requires
        is_grid(g),
        slot < empty_count(g),
    ensures
        is_grid(spawned(g, slot, seed)),
        empty_count(spawned(g, slot, seed)) == empty_count(g) - 1,
        grid_wf(g) ==> grid_wf(spawned(g, slot, seed)),
        grid_ready(g) ==> grid_ready(spawned(g, slot, seed)),
        grid_unmarked(g) ==> grid_unmarked(spawned(g, slot, seed)),
{
    lemma_nth_empty(g, slot);
    lemma_new_tile_is_tile(seed);
    let p = nth_empty(g, slot);
    let cell = Cell::tile(tile_for(seed));
    assert(0 <= p / (SIZE as int) < SIZE && 0 <= p % (SIZE as int) < SIZE);
    lemma_empties_after_fill(g, p, cell, SQUARES as nat);
}

/// The empty grid has sixteen empty squares.
pub proof fn lemma_empty_grid_count(p: nat)
    requires
        p <= SQUARES,
    ensures
        empties_before(empty_grid(), p) == p,
    decreases p,
{
    if p > 0 {
        lemma_empty_grid_count((p - 1) as nat);
        let at = p - 1;
        assert(0 <= at / (SIZE as int) < SIZE && 0 <= at % (SIZE as int) < SIZE);
    }
}

/// Placing tiles one after the other on the empty grid fills one square with
/// each draw, so the grid stays well formed, unmarked and ready for a move.
pub proof fn lemma_seeded(draws: Seq<(usize, u32)>)
    requires
        draws_fit(draws),
        draws.len() <= SQUARES,
    ensures
        grid_wf(seeded(draws)),
        grid_ready(seeded(draws)),
        grid_unmarked(seeded(draws)),
        empty_count(seeded(draws)) == SQUARES - draws.len(),
    decreases draws.len(),
{
    if draws.len() == 0 {
        lemma_empty_grid_count(SQUARES as nat);
    } else {
        let earlier = draws.drop_last();
        assert forall|i: int| 0 <= i < earlier.len() implies (#[trigger] earlier[i]).0 + i
            < SQUARES by {
            assert(earlier[i] == draws[i]);
        }
        lemma_seeded(earlier);
        assert(draws[draws.len() - 1].0 + (draws.len() - 1) < SQUARES);
        lemma_spawned(seeded(earlier), draws.last().0 as nat, draws.last().1);
    }
}

} // verus!
