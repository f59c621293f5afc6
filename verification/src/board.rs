//! The playing field and the moves on it.

use crate::cell::{Cell, MAX_MERGEABLE};
use crate::direction::{lemma_lanes_cover, Direction, Merge, Outcome, SIZE};
use crate::grid::{
    cleared, draws_fit, empties_before, empty_count, empty_grid, flat, grid_ready, grid_unmarked,
    grid_wf, has_empty, is_grid, lane, lanes_merges, nth_empty, nth_empty_from, placed, seeded,
    slid, slide_merges, spawned, SQUARES,
};
use crate::line::{line_ready, slid_line, slide_line};
use crate::random::{random_in, random_u32};
use crate::spawn::{
    lemma_empties_grow, lemma_has_empty_iff_counted, lemma_seeded, lemma_spawned,
};
use vstd::prelude::*;

verus! {

/// The 4×4 playing field.
#[derive(Clone, Copy, Debug)]
pub struct Board {
    cells: [[Cell; SIZE]; SIZE],
}

impl View for Board {
    type V = Seq<Seq<Cell>>;

    closed spec fn view(&self) -> Seq<Seq<Cell>> {
        Seq::new(SIZE as nat, |r: int| Seq::new(SIZE as nat, |c: int| self.cells[r][c]))
    }
}

impl Board {
    /// Every cell holds zero or a power of two, and no empty square is marked.
    pub open spec fn wf(&self) -> bool {
        grid_wf(self@)
    }

    /// Every tile that could still merge in this move can be doubled within `u32`.
    pub open spec fn ready(&self) -> bool {
        grid_ready(self@)
    }

    /// A board always has four rows of four cells.
    pub broadcast proof fn lemma_shape(self)
        ensures
            #[trigger] is_grid(self@),
    {
    }

    /// The board without any tile.
    pub fn new() -> (b: Board)
        ensures
            b@ == empty_grid(),
            b.wf(),
            b.ready(),
    {
        let b = Board { cells: [[Cell::empty(); SIZE]; SIZE] };
        assert(b@ =~~= empty_grid());
        b
    }

    /// The cell at (`row`, `col`).
    pub fn get(&self, row: usize, col: usize) -> (c: Cell)
        requires
            row < SIZE,
            col < SIZE,
        ensures
            c == self@[row as int][col as int],
    {
        self.cells[row][col]
    }

    /// Whether both boards hold the same cells, marks included.
    pub fn same_cells(&self, other: &Board) -> (same: bool)
        ensures
            same == (self@ == other@),
    {
        let mut p: usize = 0;
        while p < SQUARES
            invariant
                p <= SQUARES,
                forall|q: int| 0 <= q < p ==> (#[trigger] flat(self@, q)) == flat(other@, q),
            decreases SQUARES - p,
        {
            let mine = self.cells[p / SIZE][p % SIZE];
            let theirs = other.cells[p / SIZE][p % SIZE];
            if mine.value != theirs.value || mine.combined != theirs.combined {
                assert(self@[(p / SIZE) as int][(p % SIZE) as int] != other@[(p / SIZE) as int][(p
                    % SIZE) as int]);
                return false;
            }
            p += 1;
        }
        assert(self@ =~~= other@) by {
            assert forall|r: int, c: int| 0 <= r < SIZE && 0 <= c < SIZE implies self@[r][c]
                == other@[r][c] by {
                let q = r * SIZE + c;
                assert(q / (SIZE as int) == r && q % (SIZE as int) == c);
                assert(flat(self@, q) == flat(other@, q));
            }
        }
        true
    }

    /// Slides every tile as far as it goes in direction `dir`, merging equal
    /// tiles that meet. Reports whether any tile moved or merged, and the merges.
    pub fn slide(&mut self, dir: Direction) -> (out: Outcome)
        requires
            old(self).wf(),
            old(self).ready(),
        ensures
            final(self)@ == slid(old(self)@, dir),
            out.merges@ == slide_merges(old(self)@, dir),
            out.moved == (slid(old(self)@, dir) != old(self)@),
            final(self).wf(),
            final(self).ready(),
    {
        let before = *self;
        let mut merges: Vec<Merge> = Vec::new();
        let mut i: usize = 0;
        while i < SIZE
            invariant
                i <= SIZE,
                self.wf(),
                self.ready(),
                forall|j: int| 0 <= j < i ==> #[trigger] lane(self@, dir, j) == slid_line(lane(old(self)@, dir, j)),
                forall|j: int| i <= j < SIZE ==> #[trigger] lane(self@, dir, j) == lane(old(self)@, dir, j),
                merges@ == lanes_merges(old(self)@, dir, i as nat),
            decreases SIZE - i,
        {
            let ghost before = self@;
            let mut line = [Cell::empty(); SIZE];
            let mut k: usize = 0;
            while k < SIZE
                invariant
                    k <= SIZE,
                    i < SIZE,
                    self@ == before,
                    forall|d: int| 0 <= d < k ==> (#[trigger] line@[d]) == lane(before, dir, i as int)[d],
                decreases SIZE - k,
            {
                let at = dir.square(i, k);
                line[k] = self.cells[at.0][at.1];
                k += 1;
            }
            assert(line@ =~= lane(before, dir, i as int));
            assert(line_ready(line@));
            slide_line(&mut line, dir, i, &mut merges);
            k = 0;
            while k < SIZE
                invariant
                    k <= SIZE,
                    i < SIZE,
                    line_ready(line@),
                    self.wf(),
                    self.ready(),
                    forall|d: int| 0 <= d < k ==> (#[trigger] lane(self@, dir, i as int)[d]) == line@[d],
                    forall|d: int| k <= d < SIZE ==> (#[trigger] lane(self@, dir, i as int)[d]) == lane(before, dir, i as int)[d],
                    forall|j: int| 0 <= j < SIZE && j != i ==> #[trigger] lane(self@, dir, j) == lane(before, dir, j),
                decreases SIZE - k,
            {
                let at = dir.square(i, k);
                let ghost prior = self@;
                self.cells[at.0][at.1] = line[k];
                assert(self@ =~~= prior.update(
                    at.0 as int,
                    prior[at.0 as int].update(at.1 as int, line@[k as int]),
                ));
                assert(line@[k as int].wf() && line@[k as int].can_double());
                assert forall|d: int| 0 <= d < SIZE implies (#[trigger] lane(self@, dir, i as int)[d])
                    == if d == k {
                    line@[k as int]
                } else {
                    lane(prior, dir, i as int)[d]
                } by {}
                assert forall|j: int| 0 <= j < SIZE && j != i implies #[trigger] lane(self@, dir, j) == lane(before, dir, j) by {
                    assert(lane(self@, dir, j) =~= lane(prior, dir, j));
                }
                k += 1;
            }
            assert(lane(self@, dir, i as int) =~= line@);
            i += 1;
        }
        assert(self@ =~~= slid(old(self)@, dir)) by {
            assert forall|r: int, c: int| 0 <= r < SIZE && 0 <= c < SIZE implies self@[r][c] == slid(old(self)@, dir)[r][c] by {
                lemma_lanes_cover(dir, r, c);
                let j = crate::direction::lane_of(dir, r, c);
                let d = crate::direction::depth_of(dir, r, c);
                assert(lane(self@, dir, j)[d] == self@[r][c]);
            }
        }
        let moved = !self.same_cells(&before);
        Outcome { moved, merges }
    }

    /// The board that holds `cells`, row by row.
    pub fn from_cells(cells: [[Cell; SIZE]; SIZE]) -> (b: Board)
        ensures
            forall|r: int, c: int|
                0 <= r < SIZE && 0 <= c < SIZE ==> (#[trigger] b@[r][c]) == cells[r][c],
    {
        Board { cells }
    }

    /// The board that shows `values`, row by row, zero standing for an empty
    /// square; `None` if a value is neither zero nor a power of two from two on.
    pub fn from_values(values: [[u32; SIZE]; SIZE]) -> (made: Option<Board>)
        ensures
            made is Some <==> forall|r: int, c: int|
                0 <= r < SIZE && 0 <= c < SIZE ==> Cell::tile(#[trigger] values[r][c]).wf(),
            made matches Some(b) ==> b.wf() && grid_unmarked(b@) && forall|r: int, c: int|
                0 <= r < SIZE && 0 <= c < SIZE ==> (#[trigger] b@[r][c]) == Cell::tile(
                    values[r][c],
                ),
    {
        let mut b = Board { cells: [[Cell::empty(); SIZE]; SIZE] };
        let mut p: usize = 0;
        while p < SQUARES
            invariant
                p <= SQUARES,
                forall|q: int|
                    0 <= q < p ==> (#[trigger] flat(b@, q)) == Cell::tile(
                        values[q / (SIZE as int)][q % (SIZE as int)],
                    ) && flat(b@, q).wf(),
            decreases SQUARES - p,
        {
            let v = values[p / SIZE][p % SIZE];
            let cell = Cell::occupied(v);
            if !cell.is_valid() {
                return None;
            }
            let ghost prior = b@;
            b.cells[p / SIZE][p % SIZE] = cell;
            assert forall|q: int| 0 <= q < p + 1 implies (#[trigger] flat(b@, q)) == Cell::tile(
                values[q / (SIZE as int)][q % (SIZE as int)],
            ) && flat(b@, q).wf() by {
                if q < p {
                    assert(flat(b@, q) == flat(prior, q));
                }
            }
            p += 1;
        }
        assert forall|r: int, c: int| 0 <= r < SIZE && 0 <= c < SIZE implies (#[trigger] b@[r][c])
            == Cell::tile(values[r][c]) && b@[r][c].wf() by {
            let q = r * SIZE + c;
            assert(q / (SIZE as int) == r && q % (SIZE as int) == c);
            assert(flat(b@, q) == b@[r][c]);
        }
        assert forall|r: int, c: int| 0 <= r < SIZE && 0 <= c < SIZE implies Cell::tile(
            #[trigger] values[r][c],
        ).wf() by {
            assert(b@[r][c].wf());
        }
        Some(b)
    }

    /// The values that the board shows, row by row, zero for an empty square.
    pub fn values(&self) -> (shown: [[u32; SIZE]; SIZE])
        ensures
            forall|r: int, c: int|
                0 <= r < SIZE && 0 <= c < SIZE ==> (#[trigger] shown[r][c]) == self@[r][c].value,
    {
        let mut shown = [[0u32; SIZE]; SIZE];
        let mut p: usize = 0;
        while p < SQUARES
            invariant
                p <= SQUARES,
                forall|q: int|
                    0 <= q < p ==> (#[trigger] shown[q / (SIZE as int)][q % (SIZE as int)])
                        == flat(self@, q).value,
            decreases SQUARES - p,
        {
            let ghost prior = shown;
            shown[p / SIZE][p % SIZE] = self.cells[p / SIZE][p % SIZE].value;
            assert forall|q: int| 0 <= q < p + 1 implies (#[trigger] shown[q / (SIZE as int)][q % (
            SIZE as int)]) == flat(self@, q).value by {
                if q < p {
                    assert(shown[q / (SIZE as int)][q % (SIZE as int)] == prior[q / (
                    SIZE as int)][q % (SIZE as int)]);
                }
            }
            p += 1;
        }
        assert forall|r: int, c: int| 0 <= r < SIZE && 0 <= c < SIZE implies (
        #[trigger] shown[r][c]) == self@[r][c].value by {
            let q = r * SIZE + c;
            assert(q / (SIZE as int) == r && q % (SIZE as int) == c);
            assert(shown[q / (SIZE as int)][q % (SIZE as int)] == flat(self@, q).value);
        }
        shown
    }

    /// Decides `wf` at run time.
    pub fn is_well_formed(&self) -> (ok: bool)
        ensures
            ok == self.wf(),
    {
        let mut p: usize = 0;
        while p < SQUARES
            invariant
                p <= SQUARES,
                forall|q: int| 0 <= q < p ==> (#[trigger] flat(self@, q)).wf(),
            decreases SQUARES - p,
        {
            if !self.cells[p / SIZE][p % SIZE].is_valid() {
                assert(!self@[(p / SIZE) as int][(p % SIZE) as int].wf());
                return false;
            }
            p += 1;
        }
        assert forall|r: int, c: int| 0 <= r < SIZE && 0 <= c < SIZE implies (
        #[trigger] self@[r][c]).wf() by {
            let q = r * SIZE + c;
            assert(q / (SIZE as int) == r && q % (SIZE as int) == c);
            assert(flat(self@, q).wf());
        }
        true
    }

    /// Decides `ready` at run time.
    pub fn is_ready(&self) -> (ok: bool)
        ensures
            ok == self.ready(),
    {
        let mut p: usize = 0;
        while p < SQUARES
            invariant
                p <= SQUARES,
                forall|q: int| 0 <= q < p ==> (#[trigger] flat(self@, q)).can_double(),
            decreases SQUARES - p,
        {
            let cell = self.cells[p / SIZE][p % SIZE];
            if !cell.combined && cell.value > MAX_MERGEABLE {
                assert(!self@[(p / SIZE) as int][(p % SIZE) as int].can_double());
                return false;
            }
            p += 1;
        }
        assert forall|r: int, c: int| 0 <= r < SIZE && 0 <= c < SIZE implies (
        #[trigger] self@[r][c]).can_double() by {
            let q = r * SIZE + c;
            assert(q / (SIZE as int) == r && q % (SIZE as int) == c);
            assert(flat(self@, q).can_double());
        }
        true
    }

    /// The number of empty squares.
    pub fn empty_count(&self) -> (n: usize)
        ensures
            n == empty_count(self@),
            n <= SQUARES,
    {
        let mut n: usize = 0;
        let mut p: usize = 0;
        while p < SQUARES
            invariant
                p <= SQUARES,
                n == empties_before(self@, p as nat),
                n <= p,
            decreases SQUARES - p,
        {
            if self.cells[p / SIZE][p % SIZE].is_empty() {
                n += 1;
            }
            p += 1;
        }
        n
    }

    /// Whether some square is empty.
    pub fn has_empty_cell(&self) -> (found: bool)
        ensures
            found == has_empty(self@),
    {
        proof {
            lemma_has_empty_iff_counted(self@);
        }
        self.empty_count() > 0
    }

    /// Removes the mark of a merge from every cell, as is due once a move is over.
    pub fn clear_combined(&mut self)
        ensures
            final(self)@ == cleared(old(self)@),
    {
        let mut y: usize = 0;
        while y < SIZE
            invariant
                y <= SIZE,
                forall|r: int, c: int|
                    0 <= r < y && 0 <= c < SIZE ==> (#[trigger] self@[r][c]) == cleared(
                        old(self)@,
                    )[r][c],
                forall|r: int, c: int|
                    y <= r < SIZE && 0 <= c < SIZE ==> (#[trigger] self@[r][c]) == old(
                        self,
                    )@[r][c],
            decreases SIZE - y,
        {
            let mut x: usize = 0;
            while x < SIZE
                invariant
                    x <= SIZE,
                    y < SIZE,
                    forall|r: int, c: int|
                        0 <= r < y && 0 <= c < SIZE ==> (#[trigger] self@[r][c]) == cleared(
                            old(self)@,
                        )[r][c],
                    forall|c: int|
                        0 <= c < x ==> (#[trigger] self@[y as int][c]) == cleared(
                            old(self)@,
                        )[y as int][c],
                    forall|c: int|
                        x <= c < SIZE ==> (#[trigger] self@[y as int][c]) == old(
                            self,
                        )@[y as int][c],
                    forall|r: int, c: int|
                        y < r < SIZE && 0 <= c < SIZE ==> (#[trigger] self@[r][c]) == old(
                            self,
                        )@[r][c],
                decreases SIZE - x,
            {
                let ghost prior = self@;
                let value = self.cells[y][x].value;
                assert(prior[y as int][x as int] == old(self)@[y as int][x as int]);
                self.cells[y][x] = Cell { value, combined: false };
                assert(self@ =~~= prior.update(
                    y as int,
                    prior[y as int].update(x as int, Cell { value, combined: false }),
                ));
                x += 1;
            }
            y += 1;
        }
        assert(self@ =~~= cleared(old(self)@));
    }

    /// Places a new tile on the empty square number `slot`, counting the empty
    /// squares row by row from zero. The tile shows two if `seed` is even and
    /// four if it is odd. Returns the square as (row, column), or `None`, with
    /// the board untouched, if fewer than `slot + 1` squares are empty.
    pub fn spawn_at(&mut self, slot: usize, seed: u32) -> (at: Option<(usize, usize)>)
        ensures
            at is Some <==> slot < empty_count(old(self)@),
            at matches Some(sq) ==> final(self)@ == spawned(old(self)@, slot as nat, seed)
                && sq.0 * SIZE + sq.1 == nth_empty(old(self)@, slot as nat) && sq.0 < SIZE && sq.1
                < SIZE,
            at is None ==> final(self)@ == old(self)@,
            old(self).wf() ==> final(self).wf(),
            old(self).ready() ==> final(self).ready(),
    {
        let mut seen: usize = 0;
        let mut p: usize = 0;
        while p < SQUARES
            invariant
                p <= SQUARES,
                self@ == old(self)@,
                seen == empties_before(self@, p as nat),
                seen <= slot,
                seen <= p,
                nth_empty(self@, slot as nat) == nth_empty_from(self@, p as int, (slot - seen) as nat),
            decreases SQUARES - p,
        {
            if self.cells[p / SIZE][p % SIZE].is_empty() {
                if seen == slot {
                    proof {
                        lemma_empties_grow(self@, (p + 1) as nat, SQUARES as nat);
                        lemma_spawned(self@, slot as nat, seed);
                    }
                    let value: u32 = if seed % 2 == 0 {
                        2
                    } else {
                        4
                    };
                    self.cells[p / SIZE][p % SIZE] = Cell::occupied(value);
                    assert(self@ =~~= spawned(old(self)@, slot as nat, seed));
                    return Some((p / SIZE, p % SIZE));
                }
                seen += 1;
            }
            p += 1;
        }
        None
    }

    /// Places a new tile, two or four, on an empty square drawn at random, each
    /// empty square being as likely as any other. Returns the square, or `None`,
    /// with the board untouched, if no square is empty.
    pub fn spawn(&mut self) -> (at: Option<(usize, usize)>)
        ensures
            at is Some <==> has_empty(old(self)@),
            at is Some ==> exists|slot: nat, seed: u32|
                slot < empty_count(old(self)@) && final(self)@ == #[trigger] spawned(
                    old(self)@,
                    slot,
                    seed,
                ),
            at is None ==> final(self)@ == old(self)@,
            old(self).wf() ==> final(self).wf(),
            old(self).ready() ==> final(self).ready(),
    {
        proof {
            lemma_has_empty_iff_counted(self@);
        }
        let free = self.empty_count();
        if free == 0 {
            return None;
        }
        let slot = random_in(0, free);
        let seed = random_u32();
        self.spawn_at(slot, seed)
    }

    /// The board that results when the tiles of `draws` are placed one after
    /// the other on the empty board, each as `spawn_at` places it; `None` if a
    /// draw names an empty square that does not exist when its turn comes.
    pub fn seeded(draws: &Vec<(usize, u32)>) -> (made: Option<Board>)
        ensures
            made is Some <==> draws_fit(draws@) && draws@.len() <= SQUARES,
            made matches Some(b) ==> b@ == seeded(draws@) && b.wf() && b.ready() && grid_unmarked(
                b@,
            ),
    {
        let mut b = Board::new();
        let mut i: usize = 0;
        proof {
            assert(draws@.take(0) =~= Seq::<(usize, u32)>::empty());
        }
        while i < draws.len()
            invariant
                i <= draws.len(),
                i <= SQUARES,
                draws_fit(draws@.take(i as int)),
                b@ == seeded(draws@.take(i as int)),
            decreases draws.len() - i,
        {
            let ghost done = draws@.take(i as int);
            let ghost next = draws@.take(i + 1);
            proof {
                lemma_seeded(done);
                assert(next.drop_last() =~= done);
                assert(next.last() == draws@[i as int]);
            }
            let draw = draws[i];
            let at = b.spawn_at(draw.0, draw.1);
            if at.is_none() {
                assert(!(draws@[i as int].0 + i < SQUARES));
                return None;
            }
            assert forall|j: int| 0 <= j < next.len() implies (#[trigger] next[j]).0 + j
                < SQUARES by {
                if j < i {
                    assert(next[j] == done[j]);
                }
            }
            i += 1;
        }
        proof {
            assert(draws@.take(i as int) =~= draws@);
            lemma_seeded(draws@);
        }
        Some(b)
    }
}

} // verus!
