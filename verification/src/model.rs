//! The channel's bookkeeping as a mathematical state, and the steps that
//! change it.
//!
//! Every operation on the channel happens under one lock, so the channel's
//! history is a sequence of steps on a [`ChannelView`]. Each step is a spec
//! function here. A producer's reservation is two kinds of step: one that
//! stakes the region out ([`ChannelView::stake`]), and, once the region no
//! longer collides with the slowest reader or the channel is closed, one
//! that grants it ([`ChannelView::grant`]) or takes it back
//! ([`ChannelView::abandon`]). Other steps may happen in between.

use crate::counter::least;
use crate::cursor::{lex_le, lex_lt, BegCursor, EndCursor, Interval};
use vstd::multiset::Multiset;
use vstd::prelude::*;

verus! {

/// Whether a writer whose region ends at `w` would run into a reader whose
/// first unread byte is at `r`.
///
/// Within one cycle there is never a collision. A writer that is a cycle
/// ahead collides once it reaches past the reader's offset, and a writer that
/// is further ahead always does.
pub open spec fn collides(w: EndCursor, r: BegCursor) -> bool {
    w.cycle > r.cycle && (w.offset > r.offset || w.cycle > r.cycle + 1)
}

impl Interval {
    /// Where the region before this one ended: the region's beginning, read
    /// as an end.
    pub open spec fn start(self) -> EndCursor {
        self.beg.spec_to_end(self.high_mark)
    }

    /// This region lies wholly before `other`.
    pub open spec fn precedes(self, other: Interval) -> bool {
        lex_le(self.end.pos(), other.beg.pos())
    }

    /// This region comes no later than `other` when regions are ordered by
    /// their beginnings and then by their ends.
    pub open spec fn no_later_than(self, other: Interval) -> bool {
        lex_lt(self.beg.pos(), other.beg.pos()) || (self.beg.pos() == other.beg.pos() && lex_le(
            self.end.pos(),
            other.end.pos(),
        ))
    }

    /// The bytes of the two regions, taken as ranges of buffer offsets
    /// whatever their cycles, do not overlap.
    pub open spec fn bytes_disjoint(self, other: Interval) -> bool {
        self.end.offset <= other.beg.offset || other.end.offset <= self.beg.offset
    }

    /// The shape of a region that a writer was handed in a buffer of
    /// `capacity` bytes: it lies within one cycle and within the buffer, and
    /// it carries a high mark exactly if it opened a new cycle.
    pub open spec fn write_shaped(self, capacity: int) -> bool {
        &&& self.beg.cycle == self.end.cycle
        &&& 0 <= self.beg.cycle
        &&& 0 <= self.beg.offset <= self.end.offset <= capacity
        &&& match self.high_mark {
            Some(h) => {
                &&& self.beg.offset == 0
                &&& 1 <= self.beg.cycle
                &&& 0 <= h <= capacity
                &&& h + self.end.offset > capacity
            },
            None => self.beg.offset == 0 ==> self.beg.cycle == 0,
        }
    }
}

/// `m` is in `ws` and no region of `ws` comes before it.
pub open spec fn is_first_write(ws: Set<Interval>, m: Interval) -> bool {
    &&& ws.contains(m)
    &&& forall|w: Interval| #[trigger] ws.contains(w) ==> m.no_later_than(w)
}

/// The earliest region of `ws`, if it has one.
pub open spec fn first_write(ws: Set<Interval>) -> Option<Interval> {
    if exists|m: Interval| is_first_write(ws, m) {
        Some(choose|m: Interval| is_first_write(ws, m))
    } else {
        None
    }
}

/// The state of a channel: what the lock protects, without the buffer.
pub struct ChannelView {
    /// The size of the buffer in bytes.
    pub capacity: int,
    /// Whether the channel still accepts writes.
    pub open: bool,
    /// From the earliest region a writer holds to the end of the last region
    /// staked out. The high mark is that of the last cycle a granted region
    /// left and no commit has crossed yet.
    pub writes: Interval,
    /// From the slowest reader to the end of what is committed. The high
    /// mark is that of the reader's cycle, once the commit has left it.
    pub reads: Interval,
    /// The regions staked out by writers and not yet released.
    pub outstanding_writes: Set<Interval>,
    /// Where each receiver stands and where each held readable slice begins.
    pub outstanding_reads: Multiset<BegCursor>,
}

impl ChannelView {
    /// A new channel over a buffer of `capacity` bytes.
    pub open spec fn fresh(capacity: int) -> ChannelView {
        let zero = Interval {
            beg: BegCursor { cycle: 0, offset: 0 },
            end: EndCursor { cycle: 0, offset: 0 },
            high_mark: None,
        };
        ChannelView {
            capacity,
            open: true,
            writes: zero,
            reads: zero,
            outstanding_writes: Set::empty(),
            outstanding_reads: Multiset::empty(),
        }
    }

    /// The channel after `close`.
    pub open spec fn close(self) -> ChannelView {
        ChannelView { open: false, ..self }
    }

    /// Whether the write head can still open another cycle: a machine limit
    /// on how often the buffer may wrap around.
    pub open spec fn can_wrap(self) -> bool {
        self.writes.end.cycle < isize::MAX - 1
    }

    /// Whether a request for `amount` bytes is taken up at all.
    pub open spec fn accepts(self, amount: int) -> bool {
        amount <= self.capacity && self.open
    }

    /// The region that a request for `amount` bytes stakes out.
    pub open spec fn claim(self, amount: int) -> Interval {
        self.writes.end.spec_next_region(amount, self.capacity)
    }

    /// The channel after a request for `amount` bytes was taken up: the
    /// region is outstanding and the write head has moved past it. With no
    /// earlier writer, the write tail moves to the region's beginning.
    pub open spec fn stake(self, amount: int) -> ChannelView {
        let inc = self.claim(amount);
        ChannelView {
            writes: Interval {
                beg: if self.outstanding_writes.is_empty() {
                    inc.beg
                } else {
                    self.writes.beg
                },
                end: inc.end,
                high_mark: self.writes.high_mark,
            },
            outstanding_writes: self.outstanding_writes.insert(inc),
            ..self
        }
    }

    /// Whether the writer of the staked region `inc` has to go on waiting.
    pub open spec fn must_wait(self, inc: Interval) -> bool {
        self.open && collides(inc.end, self.reads.beg)
    }

    /// The channel after the staked region `inc` was taken back because the
    /// channel is closed: the region is no longer outstanding and the write
    /// head is back where it stood before the region was staked out.
    pub open spec fn abandon(self, inc: Interval) -> ChannelView {
        ChannelView {
            writes: Interval { end: inc.start(), ..self.writes },
            outstanding_writes: self.outstanding_writes.remove(inc),
            ..self
        }
    }

    /// The channel after the staked region `inc` was granted: if the region
    /// opened a new cycle, its high mark is latched.
    pub open spec fn grant(self, inc: Interval) -> ChannelView {
        ChannelView {
            writes: Interval {
                high_mark: if inc.high_mark.is_some() {
                    inc.high_mark
                } else {
                    self.writes.high_mark
                },
                ..self.writes
            },
            ..self
        }
    }

    /// Whether `interval` is held by a writer: it is outstanding, it does
    /// not collide with the slowest reader, and if it opened a new cycle its
    /// high mark is the one latched.
    pub open spec fn granted(self, interval: Interval) -> bool {
        &&& self.outstanding_writes.contains(interval)
        &&& !collides(interval.end, self.reads.beg)
        &&& interval.high_mark.is_some() ==> self.writes.high_mark == interval.high_mark
    }

    /// The channel after a writer released `interval`.
    ///
    /// The write tail and the committed end move up to the earliest region
    /// still outstanding, or to the end of `interval` if none is. When the
    /// committed end enters a new cycle, the latched high mark becomes the
    /// readers' high mark.
    pub open spec fn unreserve_write(self, interval: Interval) -> ChannelView {
        let rest = self.outstanding_writes.remove(interval);
        let mn = first_write(rest);
        let tail = match mn {
            Some(e) => e.beg,
            None => interval.end.spec_to_beg(interval.high_mark),
        };
        let committed = match mn {
            Some(e) => e.start(),
            None => interval.end,
        };
        let crossed = committed.cycle > self.reads.end.cycle;
        ChannelView {
            writes: Interval {
                beg: tail,
                end: self.writes.end,
                high_mark: if crossed {
                    None
                } else {
                    self.writes.high_mark
                },
            },
            reads: Interval {
                beg: self.reads.beg,
                end: committed,
                high_mark: if crossed {
                    self.writes.high_mark
                } else {
                    self.reads.high_mark
                },
            },
            outstanding_writes: rest,
            ..self
        }
    }

    /// Where a receiver that registers now starts to read.
    pub open spec fn entry(self) -> EndCursor {
        self.reads.beg.spec_to_end(None)
    }

    /// The channel after a receiver registered.
    pub open spec fn register(self) -> ChannelView {
        ChannelView {
            outstanding_reads: self.outstanding_reads.insert(self.entry().spec_to_beg(None)),
            ..self
        }
    }

    /// Whether the readers' high mark is known exactly when it is needed:
    /// the committed end is either in the slowest reader's cycle, and no
    /// high mark is kept, or one cycle ahead of it, and one is.
    pub open spec fn marked(self) -> bool {
        match self.reads.high_mark {
            Some(h) => self.reads.end.cycle == self.reads.beg.cycle + 1,
            None => self.reads.end.cycle == self.reads.beg.cycle,
        }
    }

    /// Whether `cur` is a place where a receiver can stand: between the
    /// slowest reader and the committed end, and, if it is in an earlier
    /// cycle than the committed end, not beyond that cycle's high mark.
    pub open spec fn within_reads(self, cur: EndCursor) -> bool {
        &&& lex_le(self.reads.beg.pos(), cur.pos())
        &&& lex_le(cur.pos(), self.reads.end.pos())
        &&& 0 <= cur.offset
        &&& cur.cycle != self.reads.end.cycle ==> self.reads.high_mark.is_some() && cur.offset
            <= self.reads.high_mark.unwrap()
    }

    /// Whether a receiver that has read up to `cur` may ask for a slice.
    pub open spec fn admits(self, cur: EndCursor) -> bool {
        self.marked() && self.within_reads(cur)
    }

    /// Where the next slice of a receiver that has read up to `cur` begins.
    pub open spec fn resume(self, cur: EndCursor) -> BegCursor {
        cur.spec_to_beg(
            if cur.cycle == self.reads.end.cycle {
                None
            } else {
                self.reads.high_mark
            },
        )
    }

    /// What a receiver that has read up to `cur` can read next: everything
    /// up to the committed end, or, if that lies in a later cycle, the rest
    /// of the receiver's own cycle.
    pub open spec fn readable(self, cur: EndCursor) -> Interval {
        let beg = self.resume(cur);
        if beg.cycle == self.reads.end.cycle {
            Interval { beg, end: self.reads.end, high_mark: None }
        } else {
            Interval {
                beg,
                end: EndCursor { cycle: beg.cycle, offset: self.reads.high_mark.unwrap() },
                high_mark: None,
            }
        }
    }

    /// The channel after a receiver that had read up to `cur` was handed the
    /// slice `self.readable(cur)`.
    pub open spec fn next(self, cur: EndCursor) -> ChannelView {
        ChannelView {
            outstanding_reads: self.outstanding_reads.insert(self.readable(cur).beg).remove(
                cur.spec_to_beg(None),
            ),
            ..self
        }
    }

    /// Whether `interval` can be released as a readable slice: its end is a
    /// place where the receiver can stand.
    pub open spec fn may_unreserve_read(self, interval: Interval) -> bool {
        self.within_reads(interval.end)
    }

    /// The channel after a receiver released the readable slice `interval`.
    ///
    /// The receiver's position moves from the slice's beginning to its end,
    /// and the slowest reader is found anew. When the slowest reader enters
    /// a new cycle, the readers' high mark is forgotten.
    pub open spec fn unreserve_read(self, interval: Interval) -> ChannelView {
        let positions = self.outstanding_reads.remove(interval.beg).insert(
            interval.end.spec_to_beg(None),
        );
        let slowest = match least(positions) {
            Some(b) => b,
            None => interval.end.spec_to_beg(interval.high_mark),
        };
        ChannelView {
            reads: Interval {
                beg: slowest,
                end: self.reads.end,
                high_mark: if slowest.cycle > self.reads.beg.cycle {
                    None
                } else {
                    self.reads.high_mark
                },
            },
            outstanding_reads: positions,
            ..self
        }
    }

    /// Whether a receiver that has read up to `cur` should go on polling.
    pub open spec fn is_open(self, cur: EndCursor) -> bool {
        self.open || cur != self.reads.end
    }

    /// Whether some position is held so often that one more could not be
    /// counted.
    pub open spec fn saturated(self) -> bool {
        exists|b: BegCursor| #[trigger] self.outstanding_reads.count(b) >= usize::MAX
    }

    /// A cursor that lies within the buffer, in a cycle that was reached.
    pub open spec fn in_buffer(self, pos: (int, int)) -> bool {
        0 <= pos.0 && 0 <= pos.1 <= self.capacity
    }

    /// What holds of the readers' bookkeeping in every state.
    pub open spec fn reads_inv(self) -> bool {
        &&& self.in_buffer(self.reads.beg.pos())
        &&& self.in_buffer(self.reads.end.pos())
        &&& self.reads.high_mark matches Some(h) ==> 0 <= h <= self.capacity
        &&& lex_le(self.reads.beg.pos(), self.reads.end.pos())
        &&& forall|b: BegCursor| #[trigger]
            self.outstanding_reads.count(b) > 0 ==> {
                &&& lex_le(self.reads.beg.pos(), b.pos())
                &&& lex_le(b.pos(), self.reads.end.pos())
                &&& 0 <= b.offset <= self.capacity
            }
    }

    /// What holds of the outstanding writes in every state.
    pub open spec fn writes_inv(self) -> bool {
        &&& self.outstanding_writes.finite()
        &&& self.writes.high_mark matches Some(h) ==> 0 <= h <= self.capacity
        &&& forall|w: Interval| #[trigger]
            self.outstanding_writes.contains(w) ==> w.write_shaped(self.capacity) && w.end.cycle
                < isize::MAX
        &&& forall|a: Interval, b: Interval|
            #![trigger self.outstanding_writes.contains(a), self.outstanding_writes.contains(b)]
            self.outstanding_writes.contains(a) && self.outstanding_writes.contains(b) && a != b
                ==> a.precedes(b) || b.precedes(a)
        &&& forall|w: Interval| #[trigger]
            self.outstanding_writes.contains(w) ==> lex_le(self.reads.end.pos(), w.start().pos())
        &&& forall|v: Interval, w: Interval|
            #![trigger self.outstanding_writes.contains(v), self.outstanding_writes.contains(w)]
            self.outstanding_writes.contains(v) && self.outstanding_writes.contains(w)
                && w.high_mark.is_some() && v.end.cycle == w.beg.cycle - 1 ==> v.end.offset
                <= w.high_mark.unwrap()
    }

    /// What holds of the write head while the channel is open.
    pub open spec fn head_inv(self) -> bool {
        &&& self.in_buffer(self.writes.end.pos())
        &&& self.writes.end.cycle < isize::MAX
        &&& self.writes.end.offset == 0 ==> self.writes.end.cycle == 0
        &&& lex_le(self.reads.end.pos(), self.writes.end.pos())
        &&& forall|w: Interval| #[trigger]
            self.outstanding_writes.contains(w) ==> lex_le(w.end.pos(), self.writes.end.pos())
        &&& collides(self.writes.end, self.reads.beg) ==> exists|w: Interval| #[trigger]
            self.outstanding_writes.contains(w) && w.end == self.writes.end
    }

    /// The invariant of the channel: it holds of a fresh channel, and every
    /// step that is taken where it may be taken keeps it.
    pub open spec fn inv(self) -> bool {
        &&& 0 < self.capacity <= isize::MAX
        &&& self.reads_inv()
        &&& self.writes_inv()
        &&& self.open ==> self.head_inv()
    }
}

} // verus!
