//! Where each dove stands, as one bit per square of a 64-bit board mask
//! (0 for a dove in hand).
use crate::pieces::{color_to_index, dove_to_index, spec_color_index, spec_dove_index, Color, Dove};
use vstd::prelude::*;

verus! {

/// A set of dove kinds, one bit per kind in the order B, A, Y, M, T, H.
#[derive(Debug, Clone, Copy, PartialEq, Eq, Structural, Hash, Default)]
pub struct DoveSet {
    pub hash: u8,
}

impl DoveSet {
    pub fn contains(&self, dove: Dove) -> (r: bool)
        ensures
            r == ((self.hash & (1u8 << (spec_dove_index(dove) as u8))) != 0),
    {
        let i = dove_to_index(dove);
        self.hash & (1u8 << i) != 0
    }
}

/// The union of the first `k` masks.
pub open spec fn or_upto(p: Seq<u64>, k: int) -> u64
    decreases k,
{
    if k <= 0 {
        0
    } else {
        or_upto(p, k - 1) | p[k - 1]
    }
}

/// The union of the first `k` masks but the one at `skip`.
pub open spec fn or_except_upto(p: Seq<u64>, skip: int, k: int) -> u64
    decreases k,
{
    if k <= 0 {
        0
    } else if k - 1 == skip {
        or_except_upto(p, skip, k - 1)
    } else {
        or_except_upto(p, skip, k - 1) | p[k - 1]
    }
}

/// The kinds among the first `k` whose mask is empty (`in_hand`) or not.
pub open spec fn mask_upto(p: Seq<u64>, in_hand: bool, k: int) -> u8
    decreases k,
{
    if k <= 0 {
        0
    } else if (p[k - 1] == 0) == in_hand {
        mask_upto(p, in_hand, k - 1) | (1u8 << ((k - 1) as u8))
    } else {
        mask_upto(p, in_hand, k - 1)
    }
}

/// Position of each kind of dove of one player.
#[derive(Debug, Clone, Copy, Default)]
pub struct DovePositions {
    pub positions: [u64; 6],
}

impl DovePositions {
    pub fn new(positions: [u64; 6]) -> (r: Self)
        ensures
            r.positions == positions,
    {
        DovePositions { positions }
    }

    fn set_position(&mut self, dove: Dove, bit: u64)
        ensures
            final(self).positions@ == old(self).positions@.update(spec_dove_index(dove) as int, bit),
    {
        let i = dove_to_index(dove);
        self.positions[i] = bit;
    }

    fn position_of(&self, dove: Dove) -> (r: &u64)
        ensures
            *r == self.positions@[spec_dove_index(dove) as int],
    {
        let i = dove_to_index(dove);
        &self.positions[i]
    }

    fn union(&self) -> (r: u64)
        ensures
            r == or_upto(self.positions@, 6),
    {
        let mut acc: u64 = 0;
        let mut i: usize = 0;
        while i < 6
            invariant
                0 <= i <= 6,
                acc == or_upto(self.positions@, i as int),
            decreases 6 - i,
        {
            acc = acc | self.positions[i];
            i += 1;
        }
        acc
    }

    fn union_except(&self, dove: Dove) -> (r: u64)
        ensures
            r == or_except_upto(self.positions@, spec_dove_index(dove) as int, 6),
    {
        let index = dove_to_index(dove);
        let mut acc: u64 = 0;
        let mut i: usize = 0;
        while i < 6
            invariant
                0 <= i <= 6,
                index == spec_dove_index(dove),
                acc == or_except_upto(self.positions@, index as int, i as int),
            decreases 6 - i,
        {
            if i != index {
                acc = acc | self.positions[i];
            }
            i += 1;
        }
        acc
    }

    fn doves_mask(&self, in_hand: bool) -> (r: DoveSet)
        ensures
            r.hash == mask_upto(self.positions@, in_hand, 6),
    {
        let mut hash: u8 = 0;
        let mut i: usize = 0;
        while i < 6
            invariant
                0 <= i <= 6,
                hash == mask_upto(self.positions@, in_hand, i as int),
            decreases 6 - i,
        {
            if (self.positions[i] == 0) == in_hand {
                hash = hash | (1u8 << (i as u8));
            }
            i += 1;
        }
        DoveSet { hash }
    }

    fn doves_in_hand(&self) -> (r: DoveSet)
        ensures
            r.hash == mask_upto(self.positions@, true, 6),
    {
        self.doves_mask(true)
    }

    fn doves_on_field(&self) -> (r: DoveSet)
        ensures
            r.hash == mask_upto(self.positions@, false, 6),
    {
        self.doves_mask(false)
    }
}

/// Position of each dove of both players.
#[derive(Debug, Clone, Copy, Default)]
pub struct ColorDovePositions {
    pub positions: [DovePositions; 2],
}

impl ColorDovePositions {
    pub fn new(positions: [DovePositions; 2]) -> (r: Self)
        ensures
            r.positions == positions,
    {
        Self { positions }
    }

    pub open spec fn spec_of(self, color: Color) -> DovePositions {
        self.positions@[spec_color_index(color) as int]
    }

    pub fn dove_positions(&self, color: Color) -> (r: &DovePositions)
        ensures
            *r == self.spec_of(color),
    {
        let i = color_to_index(color);
        &self.positions[i]
    }

    pub fn set_position(&mut self, color: Color, dove: Dove, bit: u64)
        ensures
            final(self).spec_of(color).positions@ == old(self).spec_of(color).positions@.update(
                spec_dove_index(dove) as int,
                bit,
            ),
            final(self).spec_of(color.spec_toggle()) == old(self).spec_of(color.spec_toggle()),
    {
        let i = color_to_index(color);
        let mut p = self.positions[i];
        p.set_position(dove, bit);
        self.positions[i] = p;
    }

    pub fn position_of(&self, color: Color, dove: Dove) -> (r: &u64)
        ensures
            *r == self.spec_of(color).positions@[spec_dove_index(dove) as int],
    {
        self.dove_positions(color).position_of(dove)
    }

    /// The squares of all doves on the field.
    pub fn union(&self) -> (r: u64)
        ensures
            r == or_upto(self.positions@[0].positions@, 6) | or_upto(self.positions@[1].positions@, 6),
    {
        self.positions[0].union() | self.positions[1].union()
    }

    /// The squares of the doves of `color`.
    pub fn union_in_color(&self, color: Color) -> (r: u64)
        ensures
            r == or_upto(self.spec_of(color).positions@, 6),
    {
        self.dove_positions(color).union()
    }

    /// The squares of all doves but the `dove` of `color`.
    pub fn union_except(&self, color: Color, dove: Dove) -> (r: u64)
        ensures
            r == or_except_upto(self.spec_of(color).positions@, spec_dove_index(dove) as int, 6)
                | or_upto(self.spec_of(color.spec_toggle()).positions@, 6),
    {
        self.dove_positions(color).union_except(dove) | self.union_in_color(color.toggle())
    }

    pub fn doves_in_hand(&self, color: Color) -> (r: DoveSet)
        ensures
            r.hash == mask_upto(self.spec_of(color).positions@, true, 6),
    {
        self.dove_positions(color).doves_in_hand()
    }

    pub fn doves_on_field(&self, color: Color) -> (r: DoveSet)
        ensures
            r.hash == mask_upto(self.spec_of(color).positions@, false, 6),
    {
        self.dove_positions(color).doves_on_field()
    }

    /// Exchanges the doves of the two players.
    pub fn swap_color(&mut self)
        ensures
            final(self).positions@[0] == old(self).positions@[1],
            final(self).positions@[1] == old(self).positions@[0],
    {
        let a = self.positions[0];
        self.positions[0] = self.positions[1];
        self.positions[1] = a;
    }
}

} // verus!
