//! Reading packed boards from the byte format of saved board sets: 32-bit
//! big-endian words, each group written as its top, its bottoms, and the
//! delimiter `0xFFFF_FFFF`.
use crate::board::Board;
use vstd::prelude::*;

verus! {

/// The delimiter word that ends a group.
pub const DELIMITER: u32 = 0xFFFF_FFFF;

/// One word of the byte format, as read in context.
#[derive(Debug, Clone, Copy, PartialEq, Eq, Structural, Hash)]
pub enum Fragment {
    Top(u32),
    Bottom(u32),
    Delimiter,
}

/// The big-endian word at `pos`.
pub open spec fn word_at(bytes: Seq<u8>, pos: int) -> u32 {
    (bytes[pos] as int * 0x100_0000 + bytes[pos + 1] as int * 0x1_0000 + bytes[pos + 2] as int
        * 0x100 + bytes[pos + 3] as int) as u32
}

/// The values that the words from `pos` on give, reading with `next_is_top`
/// and the current top (already shifted to the high half).
pub open spec fn values_from(bytes: Seq<u8>, pos: int, next_is_top: bool, top: u64) -> Seq<u64>
    decreases bytes.len() - pos,
{
    if pos < 0 || pos + 4 > bytes.len() {
        seq![]
    } else {
        let w = word_at(bytes, pos);
        if w == DELIMITER {
            values_from(bytes, pos + 4, true, top)
        } else if next_is_top {
            values_from(bytes, pos + 4, false, (w as u64) << 32u64)
        } else {
            seq![top | (w as u64)] + values_from(bytes, pos + 4, false, top)
        }
    }
}

/// Every value that `bytes` holds, in order.
pub open spec fn stream_values(bytes: Seq<u8>) -> Seq<u64> {
    values_from(bytes, 0, true, 0)
}

fn read_word(bytes: &Vec<u8>, pos: usize) -> (r: u32)
    requires
        pos + 4 <= bytes@.len(),
    ensures
        r == word_at(bytes@, pos as int),
{
    let len = bytes.len();
    assert(pos + 4 <= len);
    let b0 = bytes[pos] as u32;
    let b1 = bytes[pos + 1] as u32;
    let b2 = bytes[pos + 2] as u32;
    let b3 = bytes[pos + 3] as u32;
    b0 * 0x100_0000 + b1 * 0x1_0000 + b2 * 0x100 + b3
}

/// Reads the words of a byte buffer one at a time.
#[derive(Debug, Clone)]
pub struct FragmentIter {
    pub bytes: Vec<u8>,
    pub pos: usize,
    pub next_is_top: bool,
}

impl FragmentIter {
    pub fn new(bytes: Vec<u8>) -> (r: Self)
        ensures
            r.bytes@ == bytes@,
            r.pos == 0,
            r.next_is_top,
    {
        FragmentIter { bytes, pos: 0, next_is_top: true }
    }

    /// The next word: `None` when fewer than four bytes are left; the
    /// delimiter; or a top (the first word of a group) or a bottom.
    pub fn try_next(&mut self) -> (r: Option<Fragment>)
        ensures
            final(self).bytes@ == old(self).bytes@,
            old(self).pos + 4 > old(self).bytes@.len() ==> r.is_none() && *final(self) == *old(self),
            old(self).pos + 4 <= old(self).bytes@.len() ==> ({
                let w = word_at(old(self).bytes@, old(self).pos as int);
                &&& final(self).pos == old(self).pos + 4
                &&& w == DELIMITER ==> r == Some(Fragment::Delimiter) && final(self).next_is_top
                &&& w != DELIMITER ==> r == (if old(self).next_is_top {
                    Some(Fragment::Top(w))
                } else {
                    Some(Fragment::Bottom(w))
                }) && !final(self).next_is_top
            }),
    {
        if self.bytes.len() < 4 || self.pos > self.bytes.len() - 4 {
            return None;
        }
        let n = read_word(&self.bytes, self.pos);
        self.pos = self.pos + 4;
        if n == DELIMITER {
            self.next_is_top = true;
            return Some(Fragment::Delimiter);
        }
        let ret = if self.next_is_top {
            Fragment::Top(n)
        } else {
            Fragment::Bottom(n)
        };
        self.next_is_top = false;
        Some(ret)
    }
}

/// Reads packed boards (`u64` values) from a byte buffer one at a time.
#[derive(Debug, Clone)]
pub struct LazyRawBoardLoader {
    pub fragment_iter: FragmentIter,
    pub top: u64,
}

impl LazyRawBoardLoader {
    /// The values not yet read.
    pub open spec fn pending(&self) -> Seq<u64> {
        values_from(
            self.fragment_iter.bytes@,
            self.fragment_iter.pos as int,
            self.fragment_iter.next_is_top,
            self.top,
        )
    }

    pub fn new(bytes: Vec<u8>) -> (r: Self)
        ensures
            r.pending() == stream_values(bytes@),
            r.fragment_iter.bytes@ == bytes@,
    {
        LazyRawBoardLoader { fragment_iter: FragmentIter::new(bytes), top: 0 }
    }

    /// The next value, if any is left.
    pub fn try_next(&mut self) -> (r: Option<u64>)
        ensures
            final(self).fragment_iter.bytes@ == old(self).fragment_iter.bytes@,
            old(self).pending().len() == 0 ==> r.is_none() && final(self).pending().len() == 0,
            old(self).pending().len() > 0 ==> r == Some(old(self).pending()[0])
                && final(self).pending() == old(self).pending().drop_first(),
    {
        loop
            invariant
                self.fragment_iter.bytes@ == old(self).fragment_iter.bytes@,
                self.pending() == old(self).pending(),
            decreases self.fragment_iter.bytes@.len() - self.fragment_iter.pos,
        {
            let ghost before = *self;
            let next = self.fragment_iter.try_next();
            match next {
                None => {
                    return None;
                },
                Some(Fragment::Delimiter) => {},
                Some(Fragment::Top(top)) => {
                    self.top = (top as u64) << 32;
                },
                Some(Fragment::Bottom(bottom)) => {
                    let v = self.top | (bottom as u64);
                    proof {
                        assert(before.pending() == seq![v] + self.pending());
                        assert(before.pending().drop_first() =~= self.pending());
                    }
                    return Some(v);
                },
            }
        }
    }
}

/// Reads boards from a byte buffer one at a time.
#[derive(Debug, Clone)]
pub struct LazyBoardLoader {
    pub raw: LazyRawBoardLoader,
}

impl LazyBoardLoader {
    pub fn new(bytes: Vec<u8>) -> (r: Self)
        ensures
            r.raw.pending() == stream_values(bytes@),
    {
        LazyBoardLoader { raw: LazyRawBoardLoader::new(bytes) }
    }

    pub fn raw(&self) -> (r: &LazyRawBoardLoader)
        ensures
            *r == self.raw,
    {
        &self.raw
    }

    pub fn into_raw(self) -> (r: LazyRawBoardLoader)
        ensures
            r == self.raw,
    {
        self.raw
    }

    /// The next board, if any is left.
    pub fn try_next(&mut self) -> (r: Option<Board>)
        ensures
            old(self).raw.pending().len() == 0 ==> r.is_none() && final(self).raw.pending().len()
                == 0,
            old(self).raw.pending().len() > 0 ==> r == Some(Board { raw: old(self).raw.pending()[0] })
                && final(self).raw.pending() == old(self).raw.pending().drop_first(),
    {
        match self.raw.try_next() {
            Some(h) => Some(Board::from_u64(h)),
            None => None,
        }
    }
}

} // verus!
