//! A single square of the grid: either empty or holding a tile.

use vstd::arithmetic::power2::{lemma2_to64, lemma_pow2_strictly_increases, lemma_pow2_unfold, pow2};
use vstd::prelude::*;
use vstd::std_specs::cmp::PartialEqSpecImpl;

verus! {

/// The largest exponent a tile can carry: a tile holds `2^e` with `1 <= e <= 31`.
pub const MAX_EXPONENT: u32 = 31;

/// The largest tile that can still be doubled without leaving `u32`.
pub const MAX_MERGEABLE: u32 = 0x4000_0000;

/// A tile shows a power of two, starting at two.
pub open spec fn is_tile_value(v: u32) -> bool {
    exists|e: nat| 1 <= e <= MAX_EXPONENT && v == #[trigger] pow2(e)
}

/// One square of the grid. A value of zero means that the square is empty.
/// `combined` marks a tile that was produced by a merge during the current move.
#[derive(Clone, Copy, Debug)]
pub struct Cell {
    pub value: u32,
    pub combined: bool,
}

impl Cell {
    /// The value is zero or a power of two, and an empty square carries no mark.
    pub open spec fn wf(self) -> bool {
        if self.value == 0 {
            !self.combined
        } else {
            is_tile_value(self.value)
        }
    }

    pub open spec fn spec_is_empty(&self) -> bool {
        self.value == 0
    }

    pub open spec fn spec_is_occupied(&self) -> bool {
        self.value != 0
    }

    /// The empty square.
    pub open spec fn blank() -> Cell {
        Cell { value: 0, combined: false }
    }

    /// A freshly placed tile, not yet merged in this move.
    pub open spec fn tile(value: u32) -> Cell {
        Cell { value, combined: false }
    }

    /// Whether a tile `moving` that arrives next to `self` merges into it: both hold
    /// the same value and neither has merged during this move.
    pub open spec fn absorbs(self, moving: Cell) -> bool {
        self.value == moving.value && !self.combined && !moving.combined
    }

    /// The tile that results when a second tile of the same value merges into `self`.
    pub open spec fn doubled(self) -> Cell {
        Cell { value: (self.value * 2) as u32, combined: true }
    }

    /// A tile that may take part in a merge without overflowing: only tiles that
    /// have not merged yet can merge, so only those are bounded.
    pub open spec fn can_double(self) -> bool {
        !self.combined ==> self.value <= MAX_MERGEABLE
    }

    pub fn empty() -> (c: Cell)
        ensures
            c == Cell::blank(),
            c.wf(),
    {
        Cell { value: 0, combined: false }
    }

    pub fn occupied(value: u32) -> (c: Cell)
        ensures
            c == Cell::tile(value),
    {
        Cell { value, combined: false }
    }

    #[verifier::when_used_as_spec(spec_is_empty)]
    pub fn is_empty(&self) -> (r: bool)
        ensures
            r == (self.value == 0),
    {
        self.value == 0
    }

    #[verifier::when_used_as_spec(spec_is_occupied)]
    pub fn is_occupied(&self) -> (r: bool)
        ensures
            r == (self.value != 0),
    {
        !self.is_empty()
    }

    /// Decides `wf` at run time.
    pub fn is_valid(&self) -> (r: bool)
        ensures
            r == self.wf(),
    {
        if self.value == 0 {
            !self.combined
        } else {
            is_tile(self.value)
        }
    }
}

/// Two cells are equal when they show the same value; the merge mark is not part
/// of a cell's identity.
impl PartialEq for Cell {
    fn eq(&self, other: &Cell) -> (r: bool) {
        self.value == other.value
    }
}

impl PartialEqSpecImpl for Cell {
    open spec fn obeys_eq_spec() -> bool {
        true
    }

    open spec fn eq_spec(&self, other: &Cell) -> bool {
        self.value == other.value
    }
}

/// Decides `is_tile_value` at run time.
pub fn is_tile(v: u32) -> (r: bool)
    ensures
        r == is_tile_value(v),
{
    let mut e: u32 = 1;
    let mut p: u32 = 2;
    proof {
        lemma2_to64();
    }
    while e < MAX_EXPONENT
        invariant
            1 <= e <= MAX_EXPONENT,
            p == pow2(e as nat),
            forall|k: nat| 1 <= k < e ==> v != #[trigger] pow2(k),
        decreases MAX_EXPONENT - e,
    {
        if v == p {
            return true;
        }
        proof {
            lemma_pow2_unfold((e + 1) as nat);
            lemma_pow2_strictly_increases(e as nat, 31);
            lemma2_to64();
        }
        p = p * 2;
        e = e + 1;
    }
    v == p
}

/// A doubled tile is a tile again, as long as the doubling stays within `u32`.
pub proof fn lemma_double_is_tile(v: u32)
    requires
        is_tile_value(v),
        v <= MAX_MERGEABLE,
    ensures
        is_tile_value((v * 2) as u32),
        v * 2 <= u32::MAX,
        v >= 2,
{
    let e = choose|e: nat| 1 <= e <= MAX_EXPONENT && v == #[trigger] pow2(e);
    lemma2_to64();
    if e >= 31 {
        assert(pow2(31) == 0x8000_0000);
    } else {
        lemma_pow2_unfold(e + 1);
        assert(pow2(e + 1) == (v * 2) as u32);
    }
    if e > 1 {
        lemma_pow2_strictly_increases(1, e);
    }
}

} // verus!
