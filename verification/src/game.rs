//! The game around the board: the score, the state of play, and what a key
//! press does to them.

use crate::board::Board;
use crate::cell::Cell;
use crate::direction::{merge_total, Direction, Merge, Outcome};
use crate::grid::{
    after_slide, draws_fit, empty_count, empty_grid, has_empty, seeded, slid, slide_merges,
    spawned, SQUARES,
};
use crate::laws::lemma_cleared_wf;
use crate::random::{random_in, random_u32};
use crate::spawn::{lemma_has_empty_iff_counted, lemma_seeded};
use vstd::prelude::*;

verus! {

/// The state of play. `Victory` is part of the game's vocabulary, but no rule
/// leads to it.
#[derive(Clone, Copy, Debug, PartialEq, Eq, Structural)]
pub enum State {
    Playing,
    GameOver,
    Victory,
}

/// A game: the board, the score so far and the state of play.
#[derive(Clone, Copy, Debug)]
pub struct GameState {
    pub board: Board,
    pub score: u32,
    pub state: State,
}

/// The state of play that a grid calls for once a move is over: the game goes
/// on while a square is empty.
pub open spec fn state_after(g: Seq<Seq<Cell>>) -> State {
    if has_empty(g) {
        State::Playing
    } else {
        State::GameOver
    }
}

/// The sum of the first `i` merges is part of the sum of all of them.
pub proof fn lemma_merge_total_prefix(merges: Seq<Merge>, i: int)
    requires
        0 <= i <= merges.len(),
    ensures
        merge_total(merges.take(i)) <= merge_total(merges),
        i < merges.len() ==> merge_total(merges.take(i + 1)) == merge_total(merges.take(i))
            + merges[i].value,
    decreases merges.len() - i,
{
    if i < merges.len() {
        assert(merges.take(i + 1).drop_last() =~= merges.take(i));
        assert(merges.take(i + 1).last() == merges[i]);
        lemma_merge_total_prefix(merges, i + 1);
    } else {
        assert(merges.take(i) =~= merges);
    }
}

/// A board with two or three tiles, each a two or a four, on squares drawn at
/// random.
pub fn random_cells() -> (b: Board)
    ensures
        exists|draws: Seq<(usize, u32)>|
            2 <= draws.len() <= 3 && draws_fit(draws) && b@ == #[trigger] seeded(draws),
        b.wf(),
        b.ready(),
        has_empty(b@),
{
    let num_cells = random_in(2, 4);
    let mut b = Board::new();
    let mut generated: usize = 0;
    let ghost mut draws: Seq<(usize, u32)> = Seq::empty();
    while generated < num_cells
        invariant
            generated <= num_cells <= 3,
            draws.len() == generated,
            draws_fit(draws),
            b@ == seeded(draws),
        decreases num_cells - generated,
    {
        proof {
            lemma_seeded(draws);
        }
        let free = b.empty_count();
        let slot = random_in(0, free);
        let seed = random_u32();
        let ghost earlier = draws;
        b.spawn_at(slot, seed);
        proof {
            draws = earlier.push((slot, seed));
            assert(draws.drop_last() =~= earlier);
            assert forall|i: int| 0 <= i < draws.len() implies (#[trigger] draws[i]).0 + i
                < SQUARES by {
                if i < earlier.len() {
                    assert(draws[i] == earlier[i]);
                }
            }
        }
        generated += 1;
    }
    proof {
        lemma_seeded(draws);
        lemma_has_empty_iff_counted(b@);
    }
    b
}

impl GameState {
    /// The board holds nothing but empty squares and tiles.
    pub open spec fn wf(&self) -> bool {
        self.board.wf()
    }

    /// A move in direction `dir` stays within `u32`: no tile that could merge is
    /// too large to be doubled, and the score has room for what the move earns.
    pub open spec fn slide_fits(&self, dir: Direction) -> bool {
        &&& self.board.ready()
        &&& self.score + merge_total(slide_merges(self.board@, dir)) <= u32::MAX
    }

    /// A game on an empty board, with no points.
    pub fn new() -> (game: GameState)
        ensures
            game.board@ == empty_grid(),
            game.score == 0,
            game.state == State::Playing,
            game.wf(),
    {
        GameState { board: Board::new(), score: 0, state: State::Playing }
    }

    /// Starts over: a fresh board with two or three tiles, no points, and the
    /// game in play.
    pub fn reset(&mut self)
        ensures
            exists|draws: Seq<(usize, u32)>|
                2 <= draws.len() <= 3 && draws_fit(draws) && final(self).board@
                    == #[trigger] seeded(draws),
            final(self).score == 0,
            final(self).state == State::Playing,
            final(self).wf(),
            final(self).board.ready(),
            has_empty(final(self).board@),
            state_after(final(self).board@) == State::Playing,
    {
        self.board = random_cells();
        self.score = 0;
        self.state = State::Playing;
    }

    /// Starts over with the tiles of `draws` in place of random ones. Returns
    /// whether it did: it leaves the game untouched if `draws` does not hold
    /// two or three draws, or if one of them names a square that does not exist.
    pub fn reset_with(&mut self, draws: &Vec<(usize, u32)>) -> (done: bool)
        ensures
            done <==> 2 <= draws@.len() <= 3 && draws_fit(draws@),
            done ==> final(self).board@ == seeded(draws@) && final(self).score == 0,
            done ==> final(self).state == State::Playing && final(self).wf(),
            done ==> final(self).board.ready(),
            !done ==> *final(self) == *old(self),
    {
        if draws.len() < 2 || draws.len() > 3 {
            return false;
        }
        match Board::seeded(draws) {
            Some(b) => {
                self.board = b;
                self.score = 0;
                self.state = State::Playing;
                true
            },
            None => false,
        }
    }

    /// Decides `slide_fits` at run time.
    pub fn can_slide(&self, dir: Direction) -> (ok: bool)
        requires
            self.wf(),
        ensures
            ok == self.slide_fits(dir),
    {
        if !self.board.is_ready() {
            return false;
        }
        let mut probe = self.board;
        let merges = probe.slide(dir).merges;
        let mut total: u128 = self.score as u128;
        let mut i: usize = 0;
        while i < merges.len()
            invariant
                i <= merges.len(),
                total == self.score + merge_total(merges@.take(i as int)),
                total <= (i + 1) * 0xffff_ffff,
            decreases merges.len() - i,
        {
            proof {
                lemma_merge_total_prefix(merges@, i as int);
            }
            total = total + merges[i].value as u128;
            i += 1;
        }
        proof {
            assert(merges@.take(i as int) =~= merges@);
        }
        total <= u32::MAX as u128
    }

    /// Slides every tile as far as it goes in direction `dir`, merging equal
    /// tiles that meet. Each merge adds the value of the merged tile to the
    /// score; nothing else does. Reports whether any tile moved or merged, and
    /// the merges.
    pub fn slide(&mut self, dir: Direction) -> (out: Outcome)
        requires
            old(self).wf(),
            old(self).slide_fits(dir),
        ensures
            final(self).board@ == slid(old(self).board@, dir),
            out.merges@ == slide_merges(old(self).board@, dir),
            out.moved == (slid(old(self).board@, dir) != old(self).board@),
            final(self).score == old(self).score + merge_total(out.merges@),
            final(self).state == old(self).state,
            final(self).wf(),
            final(self).board.ready(),
    {
        let out = self.board.slide(dir);
        let merges = &out.merges;
        let ghost rested = self.board;
        let mut i: usize = 0;
        while i < merges.len()
            invariant
                i <= merges.len(),
                self.score == old(self).score + merge_total(merges@.take(i as int)),
                old(self).score + merge_total(merges@) <= u32::MAX,
                self.board == rested,
                self.state == old(self).state,
            decreases merges.len() - i,
        {
            proof {
                lemma_merge_total_prefix(merges@, i as int);
                lemma_merge_total_prefix(merges@, i + 1);
            }
            self.score += merges[i].value;
            i += 1;
        }
        proof {
            assert(merges@.take(i as int) =~= merges@);
        }
        out
    }

    /// A move to the right; see `slide`.
    pub fn slide_right(&mut self) -> (out: Outcome)
        requires
            old(self).wf(),
            old(self).slide_fits(Direction::Right),
        ensures
            final(self).board@ == slid(old(self).board@, Direction::Right),
            out.merges@ == slide_merges(old(self).board@, Direction::Right),
            out.moved == (slid(old(self).board@, Direction::Right) != old(self).board@),
            final(self).score == old(self).score + merge_total(out.merges@),
            final(self).state == old(self).state,
            final(self).wf(),
            final(self).board.ready(),
    {
        self.slide(Direction::Right)
    }

    /// A move to the left; see `slide`.
    pub fn slide_left(&mut self) -> (out: Outcome)
        requires
            old(self).wf(),
            old(self).slide_fits(Direction::Left),
        ensures
            final(self).board@ == slid(old(self).board@, Direction::Left),
            out.merges@ == slide_merges(old(self).board@, Direction::Left),
            out.moved == (slid(old(self).board@, Direction::Left) != old(self).board@),
            final(self).score == old(self).score + merge_total(out.merges@),
            final(self).state == old(self).state,
            final(self).wf(),
            final(self).board.ready(),
    {
        self.slide(Direction::Left)
    }

    /// A move down; see `slide`.
    pub fn slide_down(&mut self) -> (out: Outcome)
        requires
            old(self).wf(),
            old(self).slide_fits(Direction::Down),
        ensures
            final(self).board@ == slid(old(self).board@, Direction::Down),
            out.merges@ == slide_merges(old(self).board@, Direction::Down),
            out.moved == (slid(old(self).board@, Direction::Down) != old(self).board@),
            final(self).score == old(self).score + merge_total(out.merges@),
            final(self).state == old(self).state,
            final(self).wf(),
            final(self).board.ready(),
    {
        self.slide(Direction::Down)
    }

    /// A move up; see `slide`.
    pub fn slide_up(&mut self) -> (out: Outcome)
        requires
            old(self).wf(),
            old(self).slide_fits(Direction::Up),
        ensures
            final(self).board@ == slid(old(self).board@, Direction::Up),
            out.merges@ == slide_merges(old(self).board@, Direction::Up),
            out.moved == (slid(old(self).board@, Direction::Up) != old(self).board@),
            final(self).score == old(self).score + merge_total(out.merges@),
            final(self).state == old(self).state,
            final(self).wf(),
            final(self).board.ready(),
    {
        self.slide(Direction::Up)
    }

    /// Ends a move on a board whose tiles have come to rest: a new tile appears
    /// on an empty square drawn at random, or, if no square is empty, the game
    /// is over and the board stays as it is. The score is not touched.
    pub fn finish_move(&mut self)
        ensures
            has_empty(old(self).board@) ==> final(self).state == old(self).state && exists|
                slot: nat,
                seed: u32,
            |
                slot < empty_count(old(self).board@) && final(self).board@ == #[trigger] spawned(
                    old(self).board@,
                    slot,
                    seed,
                ),
            !has_empty(old(self).board@) ==> final(self).state == State::GameOver && final(self).board == old(self).board,
            final(self).score == old(self).score,
            old(self).wf() ==> final(self).wf(),
            old(self).board.ready() ==> final(self).board.ready(),
    {
        if self.board.has_empty_cell() {
            self.board.spawn();
        } else {
            self.state = State::GameOver;
        }
    }

    /// Ends a move as `finish_move` does, with the new tile given by `slot` and
    /// `seed` as `Board::spawn_at` reads them.
    pub fn finish_move_with(&mut self, slot: usize, seed: u32)
        requires
            has_empty(old(self).board@) ==> slot < empty_count(old(self).board@),
        ensures
            has_empty(old(self).board@) ==> final(self).state == old(self).state && final(self).board@ == spawned(old(self).board@, slot as nat, seed),
            !has_empty(old(self).board@) ==> final(self).state == State::GameOver && final(self).board == old(self).board,
            final(self).score == old(self).score,
            old(self).wf() ==> final(self).wf(),
            old(self).board.ready() ==> final(self).board.ready(),
    {
        if self.board.has_empty_cell() {
            self.board.spawn_at(slot, seed);
        } else {
            self.state = State::GameOver;
        }
    }

    /// What a released direction key does. While the game is in play, the tiles
    /// slide and merge, the marks of the merges are removed, and then either a
    /// new tile appears on an empty square drawn at random or, if the move left
    /// no square empty, the game is over. The new tile appears whether or not
    /// any tile moved. In any other state the key does nothing. Reports whether
    /// any tile moved or merged, and the merges.
    pub fn play(&mut self, dir: Direction) -> (out: Outcome)
        requires
            old(self).wf(),
            old(self).state == State::Playing ==> old(self).slide_fits(dir),
        ensures
            old(self).state != State::Playing ==> *final(self) == *old(self) && !out.moved
                && out.merges@.len() == 0,
            old(self).state == State::Playing ==> {
                let rested = after_slide(old(self).board@, dir);
                &&& out.merges@ == slide_merges(old(self).board@, dir)
                &&& out.moved == (slid(old(self).board@, dir) != old(self).board@)
                &&& final(self).score == old(self).score + merge_total(out.merges@)
                &&& final(self).state == state_after(rested)
                &&& !has_empty(rested) ==> final(self).board@ == rested
                &&& has_empty(rested) ==> exists|slot: nat, seed: u32|
                    slot < empty_count(rested) && final(self).board@ == #[trigger] spawned(
                        rested,
                        slot,
                        seed,
                    )
            },
            final(self).wf(),
    {
        if self.state != State::Playing {
            return Outcome { moved: false, merges: Vec::new() };
        }
        let out = self.slide(dir);
        self.board.clear_combined();
        proof {
            lemma_cleared_wf(slid(old(self).board@, dir));
        }
        self.finish_move();
        out
    }

    /// What `play` does, with the new tile given by `slot` and `seed` as
    /// `Board::spawn_at` reads them.
    pub fn play_with(&mut self, dir: Direction, slot: usize, seed: u32) -> (out: Outcome)
        requires
            old(self).wf(),
            old(self).state == State::Playing ==> old(self).slide_fits(dir),
            old(self).state == State::Playing && has_empty(after_slide(old(self).board@, dir))
                ==> slot < empty_count(after_slide(old(self).board@, dir)),
        ensures
            old(self).state != State::Playing ==> *final(self) == *old(self) && !out.moved
                && out.merges@.len() == 0,
            old(self).state == State::Playing ==> {
                let rested = after_slide(old(self).board@, dir);
                &&& out.merges@ == slide_merges(old(self).board@, dir)
                &&& out.moved == (slid(old(self).board@, dir) != old(self).board@)
                &&& final(self).score == old(self).score + merge_total(out.merges@)
                &&& final(self).state == state_after(rested)
                &&& final(self).board@ == if has_empty(rested) {
                    spawned(rested, slot as nat, seed)
                } else {
                    rested
                }
            },
            final(self).wf(),
    {
        if self.state != State::Playing {
            return Outcome { moved: false, merges: Vec::new() };
        }
        let out = self.slide(dir);
        self.board.clear_combined();
        proof {
            lemma_cleared_wf(slid(old(self).board@, dir));
        }
        self.finish_move_with(slot, seed);
        out
    }
}

} // verus!
