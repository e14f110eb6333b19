//! Positions in a circular buffer, told apart by the cycle they fall in.
//!
//! A position is a pair of a cycle and a byte offset within that cycle. The
//! same place can be named in two ways: the end of a cycle that used `h`
//! bytes is `(c, h)`, and the beginning of the cycle after it is `(c + 1, 0)`.
//! [`BegCursor`] and [`EndCursor`] keep the two readings apart, and the
//! conversions between them take the high mark of the cycle that is crossed.

use std::cmp::Ordering;
use vstd::prelude::*;
use vstd::std_specs::cmp::PartialOrdSpecImpl;

verus! {

/// Lexicographic order on `(cycle, offset)` pairs: an earlier cycle comes
/// first, and within one cycle the smaller offset.
pub open spec fn lex_le(a: (int, int), b: (int, int)) -> bool {
    a.0 < b.0 || (a.0 == b.0 && a.1 <= b.1)
}

/// The strict form of [`lex_le`].
pub open spec fn lex_lt(a: (int, int), b: (int, int)) -> bool {
    a.0 < b.0 || (a.0 == b.0 && a.1 < b.1)
}

/// How two `(cycle, offset)` pairs compare under [`lex_le`].
pub open spec fn lex_ordering(a: (int, int), b: (int, int)) -> Ordering {
    if lex_lt(a, b) {
        Ordering::Less
    } else if a == b {
        Ordering::Equal
    } else {
        Ordering::Greater
    }
}

/// The first byte of a region.
#[derive(Clone, Copy, Debug, PartialEq, Eq, Structural, Hash)]
pub struct BegCursor {
    pub cycle: isize,
    pub offset: isize,
}

/// One past the last byte of a region.
#[derive(Clone, Copy, Debug, PartialEq, Eq, Structural, Hash)]
pub struct EndCursor {
    pub cycle: isize,
    pub offset: isize,
}

/// A half-open region `[beg, end)` of the buffer.
///
/// `high_mark` is set on a region that opened a new cycle: it is the offset
/// at which the cycle before it stopped.
#[derive(Clone, Copy, Debug, PartialEq, Eq, Structural, Hash)]
pub struct Interval {
    /// The beginning of the region.
    pub beg: BegCursor,
    /// The end of the region.
    pub end: EndCursor,
    /// If set, the buffer wrapped around and this was the high water mark.
    pub high_mark: Option<isize>,
}

impl BegCursor {
    /// The cursor as a `(cycle, offset)` pair.
    pub open spec fn pos(self) -> (int, int) {
        (self.cycle as int, self.offset as int)
    }

    /// The end cursor that names the same place, given the high mark of the
    /// cycle before this one if the place is to be read as the end of that
    /// cycle.
    pub open spec fn spec_to_end(self, high_mark: Option<isize>) -> EndCursor {
        match high_mark {
            Some(h) => EndCursor { cycle: (self.cycle - 1) as isize, offset: h },
            None => EndCursor { cycle: self.cycle, offset: self.offset },
        }
    }

    /// The first byte of the first cycle.
    pub fn zero() -> (r: Self)
        ensures
            r == (BegCursor { cycle: 0, offset: 0 }),
    {
        BegCursor { cycle: 0, offset: 0 }
    }

    /// Whether nothing lies between this cursor and `other`, both taken in
    /// the same cycle.
    pub fn is_empty(&self, other: &EndCursor) -> (r: bool)
        requires
            self.cycle == other.cycle,
        ensures
            r == ((Interval { beg: *self, end: *other, high_mark: None }).spec_len() == 0),
            r == (self.offset == other.offset),
    {
        self.offset == other.offset
    }

    /// Reads this beginning as an end.
    ///
    /// With a high mark the cursor must sit at offset 0, and the result is
    /// the end of the cycle before it, at the high mark. Without one the
    /// result has the same cycle and offset.
    pub fn to_end(&self, high_mark: Option<isize>) -> (r: EndCursor)
        requires
            high_mark.is_some() ==> self.offset == 0 && self.cycle > isize::MIN,
        ensures
            r == self.spec_to_end(high_mark),
            high_mark matches Some(h) ==> r.cycle == self.cycle - 1 && r.offset == h,
            high_mark.is_none() ==> r.pos() == self.pos(),
    {
        match high_mark {
            Some(h) => EndCursor { offset: h, cycle: self.cycle - 1 },
            None => EndCursor { offset: self.offset, cycle: self.cycle },
        }
    }
}

impl EndCursor {
    /// The cursor as a `(cycle, offset)` pair.
    pub open spec fn pos(self) -> (int, int) {
        (self.cycle as int, self.offset as int)
    }

    /// Whether a region of `amount` bytes that starts here runs past
    /// `capacity`.
    pub open spec fn wraps(self, amount: int, capacity: int) -> bool {
        self.offset + amount > capacity
    }

    /// The region that [`EndCursor::next_region`] hands out.
    pub open spec fn spec_next_region(self, amount: int, capacity: int) -> Interval {
        if self.wraps(amount, capacity) {
            Interval {
                beg: BegCursor { cycle: (self.cycle + 1) as isize, offset: 0 },
                end: EndCursor { cycle: (self.cycle + 1) as isize, offset: amount as isize },
                high_mark: Some(self.offset),
            }
        } else {
            Interval {
                beg: BegCursor { cycle: self.cycle, offset: self.offset },
                end: EndCursor { cycle: self.cycle, offset: (self.offset + amount) as isize },
                high_mark: None,
            }
        }
    }

    /// The beginning cursor that names the same place, given the high mark
    /// of this cursor's cycle if it is known.
    pub open spec fn spec_to_beg(self, high_mark: Option<isize>) -> BegCursor {
        if high_mark == Some(self.offset) {
            BegCursor { cycle: (self.cycle + 1) as isize, offset: 0 }
        } else {
            BegCursor { cycle: self.cycle, offset: self.offset }
        }
    }

    /// The end of nothing, in the first cycle.
    pub fn zero() -> (r: Self)
        ensures
            r == (EndCursor { cycle: 0, offset: 0 }),
    {
        EndCursor { cycle: 0, offset: 0 }
    }

    /// Returns the next contiguous region of size `amount`, given that this
    /// cursor points into a circular buffer of size `capacity`.
    ///
    /// The region starts here if it fits below `capacity`. Otherwise it
    /// starts at offset 0 of the next cycle and records this cursor's offset
    /// as the high mark of the cycle it leaves. A region is never split.
    pub fn next_region(&self, amount: usize, capacity: usize) -> (r: Interval)
        requires
            amount <= isize::MAX,
            capacity <= isize::MAX,
            self.wraps(amount as int, capacity as int) ==> self.cycle < isize::MAX,
        ensures
            r == self.spec_next_region(amount as int, capacity as int),
            r.beg.cycle == r.end.cycle,
            r.end.offset - r.beg.offset == amount,
            r.beg.spec_to_end(r.high_mark) == *self,
            self.wraps(amount as int, capacity as int) ==> r.beg.pos() == (self.cycle + 1, 0int)
                && r.high_mark == Some(self.offset),
            !self.wraps(amount as int, capacity as int) ==> r.beg.pos() == self.pos()
                && r.high_mark.is_none(),
    {
        let reach: i128 = self.offset as i128 + amount as i128;
        if reach > capacity as i128 {
            // Not enough space: wrap to the next cycle.
            let cycle: isize = self.cycle + 1;
            Interval {
                beg: BegCursor { offset: 0, cycle },
                end: EndCursor { offset: amount as isize, cycle },
                high_mark: Some(self.offset),
            }
        } else {
            // Enough space: stay in this cycle. The beginning is never the
            // end point of the cycle, precisely because there is space left.
            Interval {
                beg: BegCursor { offset: self.offset, cycle: self.cycle },
                end: EndCursor { offset: reach as isize, cycle: self.cycle },
                high_mark: None,
            }
        }
    }

    /// Reads this end as a beginning.
    ///
    /// An end that sits exactly at the given high mark is the beginning of
    /// the next cycle. Any other keeps its cycle and offset.
    pub fn to_beg(&self, high_mark: Option<isize>) -> (r: BegCursor)
        requires
            high_mark == Some(self.offset) ==> self.cycle < isize::MAX,
        ensures
            r == self.spec_to_beg(high_mark),
            high_mark == Some(self.offset) ==> r.pos() == (self.cycle + 1, 0int),
            high_mark != Some(self.offset) ==> r.pos() == self.pos(),
    {
        if let Some(h) = high_mark {
            if h == self.offset {
                return BegCursor { offset: 0, cycle: self.cycle + 1 };
            }
        }
        BegCursor { offset: self.offset, cycle: self.cycle }
    }
}

impl Interval {
    /// The number of bytes in the region.
    ///
    /// Within one cycle it is the distance between the offsets. A region
    /// whose end lies in a later cycle also counts what the earlier cycle
    /// held up to its high mark.
    pub open spec fn spec_len(self) -> int {
        if self.end.cycle == self.beg.cycle {
            self.end.offset - self.beg.offset
        } else {
            self.end.offset + self.high_mark.unwrap() - self.beg.offset
        }
    }

    /// How two regions compare: by their beginnings, then by their ends.
    pub open spec fn ordering(self, other: Interval) -> Ordering {
        match lex_ordering(self.beg.pos(), other.beg.pos()) {
            Ordering::Equal => lex_ordering(self.end.pos(), other.end.pos()),
            o => o,
        }
    }

    /// The number of bytes in the region.
    pub fn len(&self) -> (r: isize)
        requires
            self.end.cycle != self.beg.cycle ==> self.end.cycle > self.beg.cycle
                && self.high_mark.is_some(),
            isize::MIN <= self.spec_len() <= isize::MAX,
        ensures
            r == self.spec_len(),
    {
        if self.end.cycle == self.beg.cycle {
            self.end.offset - self.beg.offset
        } else {
            let high_mark: isize = self.high_mark.unwrap();
            let n: i128 = self.end.offset as i128 + high_mark as i128 - self.beg.offset as i128;
            n as isize
        }
    }
}

impl Default for BegCursor {
    fn default() -> (r: Self)
        ensures
            r == (BegCursor { cycle: 0, offset: 0 }),
    {
        BegCursor { cycle: 0, offset: 0 }
    }
}

impl Default for EndCursor {
    fn default() -> (r: Self)
        ensures
            r == (EndCursor { cycle: 0, offset: 0 }),
    {
        EndCursor { cycle: 0, offset: 0 }
    }
}

impl Default for Interval {
    fn default() -> (r: Self)
        ensures
            r == (Interval {
                beg: BegCursor { cycle: 0, offset: 0 },
                end: EndCursor { cycle: 0, offset: 0 },
                high_mark: None,
            }),
    {
        Interval {
            beg: BegCursor { cycle: 0, offset: 0 },
            end: EndCursor { cycle: 0, offset: 0 },
            high_mark: None,
        }
    }
}

impl PartialOrd for BegCursor {
    fn partial_cmp(&self, other: &Self) -> (r: Option<Ordering>) {
        if self.cycle < other.cycle {
            Some(Ordering::Less)
        } else if self.cycle > other.cycle {
            Some(Ordering::Greater)
        } else if self.offset < other.offset {
            Some(Ordering::Less)
        } else if self.offset > other.offset {
            Some(Ordering::Greater)
        } else {
            Some(Ordering::Equal)
        }
    }
}

impl PartialOrdSpecImpl for BegCursor {
    open spec fn obeys_partial_cmp_spec() -> bool {
        true
    }

    open spec fn partial_cmp_spec(&self, other: &Self) -> Option<Ordering> {
        Some(lex_ordering(self.pos(), other.pos()))
    }
}

impl PartialOrd for EndCursor {
    fn partial_cmp(&self, other: &Self) -> (r: Option<Ordering>) {
        if self.cycle < other.cycle {
            Some(Ordering::Less)
        } else if self.cycle > other.cycle {
            Some(Ordering::Greater)
        } else if self.offset < other.offset {
            Some(Ordering::Less)
        } else if self.offset > other.offset {
            Some(Ordering::Greater)
        } else {
            Some(Ordering::Equal)
        }
    }
}

impl PartialOrdSpecImpl for EndCursor {
    open spec fn obeys_partial_cmp_spec() -> bool {
        true
    }

    open spec fn partial_cmp_spec(&self, other: &Self) -> Option<Ordering> {
        Some(lex_ordering(self.pos(), other.pos()))
    }
}

impl PartialOrd for Interval {
    fn partial_cmp(&self, other: &Self) -> (r: Option<Ordering>) {
        match self.beg.partial_cmp(&other.beg) {
            Some(Ordering::Equal) => self.end.partial_cmp(&other.end),
            o => o,
        }
    }
}

impl PartialOrdSpecImpl for Interval {
    open spec fn obeys_partial_cmp_spec() -> bool {
        true
    }

    open spec fn partial_cmp_spec(&self, other: &Self) -> Option<Ordering> {
        Some(self.ordering(*other))
    }
}

} // verus!
