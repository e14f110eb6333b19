//! The channel's bookkeeping: who holds which region of the buffer.
//!
//! A [`RawChannel`] is what the channel's lock protects, without the buffer
//! itself. It never blocks. A producer that has to wait is told so, and
//! asks again once a reader has moved on or the channel was closed.

use crate::counter::Counter;
use crate::cursor::{lex_le, BegCursor, EndCursor, Interval};
use crate::model::{collides, first_write, is_first_write, ChannelView};
use vstd::prelude::*;

verus! {

/// Whether a writer whose region ends at `w` would run into a reader whose
/// first unread byte is at `r`.
pub fn collide(w: &EndCursor, r: &BegCursor) -> (b: bool)
    ensures
        b == collides(*w, *r),
{
    // On the same cycle there can be no collision, because readers are kept
    // behind writers. The last case is a reader that is still parked at the
    // high mark of an earlier cycle.
    w.cycle > r.cycle && (w.offset > r.offset || w.cycle - 1 > r.cycle)
}

/// Whether `a` comes no later than `b`, going by beginnings and then by ends.
fn no_later(a: &Interval, b: &Interval) -> (r: bool)
    ensures
        r == a.no_later_than(*b),
{
    if a.beg.cycle != b.beg.cycle {
        a.beg.cycle < b.beg.cycle
    } else if a.beg.offset != b.beg.offset {
        a.beg.offset < b.beg.offset
    } else if a.end.cycle != b.end.cycle {
        a.end.cycle < b.end.cycle
    } else {
        a.end.offset <= b.end.offset
    }
}

/// Where `interval` stands in `ws`, if it is there.
fn find_write(ws: &Vec<Interval>, interval: &Interval) -> (r: Option<usize>)
    ensures
        match r {
            Some(i) => i < ws@.len() && ws@[i as int] == *interval,
            None => !ws@.contains(*interval),
        },
        r.is_some() == ws@.to_set().contains(*interval),
{
    let mut i: usize = 0;
    while i < ws.len()
        invariant
            i <= ws@.len(),
            forall|j: int| 0 <= j < i ==> ws@[j] != *interval,
        decreases ws@.len() - i,
    {
        if ws[i] == *interval {
            return Some(i);
        }
        i += 1;
    }
    None
}

/// Takes `interval` out of `ws`, if it is there.
fn take_out(ws: &mut Vec<Interval>, interval: &Interval)
    requires
        old(ws)@.no_duplicates(),
    ensures
        final(ws)@.no_duplicates(),
        final(ws)@.to_set() == old(ws)@.to_set().remove(*interval),
{
    match find_write(ws, interval) {
        Some(i) => {
            ws.swap_remove(i);
            proof {
                let before = old(ws)@;
                let after = ws@;
                assert forall|j: int, k: int|
                    0 <= j < after.len() && 0 <= k < after.len() && j != k implies after[j]
                    != after[k] by {
                    let jj = if j == i { before.len() - 1 } else { j };
                    let kk = if k == i { before.len() - 1 } else { k };
                    assert(after[j] == before[jj] && after[k] == before[kk]);
                }
                assert forall|x: Interval|
                    after.to_set().contains(x) == before.to_set().remove(*interval).contains(
                        x,
                    ) by {
                    if after.contains(x) {
                        let j = choose|j: int| 0 <= j < after.len() && after[j] == x;
                        let jj = if j == i { before.len() - 1 } else { j };
                        assert(before[jj] == x);
                    }
                    if before.contains(x) && x != *interval {
                        let j = choose|j: int| 0 <= j < before.len() && before[j] == x;
                        let jj = if j == before.len() - 1 { i as int } else { j };
                        assert(after[jj] == x);
                    }
                }
                assert(after.to_set() =~= before.to_set().remove(*interval));
            }
        },
        None => {
            assert(ws@.to_set() =~= ws@.to_set().remove(*interval));
        },
    }
}

/// The earliest region of `ws`, if it holds any.
fn earliest(ws: &Vec<Interval>) -> (r: Option<Interval>)
    ensures
        match r {
            Some(m) => is_first_write(ws@.to_set(), m),
            None => ws@.len() == 0,
        },
{
    if ws.len() == 0 {
        return None;
    }
    let mut best: usize = 0;
    let mut i: usize = 1;
    while i < ws.len()
        invariant
            best < i <= ws@.len(),
            forall|j: int| 0 <= j < i ==> ws@[best as int].no_later_than(#[trigger] ws@[j]),
        decreases ws@.len() - i,
    {
        if !no_later(&ws[best], &ws[i]) {
            best = i;
        }
        i += 1;
    }
    proof {
        let m = ws@[best as int];
        assert(ws@.to_set().contains(m));
        assert forall|w: Interval| #[trigger] ws@.to_set().contains(w) implies m.no_later_than(
            w,
        ) by {
            let j = choose|j: int| 0 <= j < ws@.len() && ws@[j] == w;
            assert(m.no_later_than(ws@[j]));
        }
    }
    Some(ws[best])
}

/// What a producer with a staked region is to do next.
#[derive(Clone, Copy, Debug, PartialEq, Eq, Structural)]
pub enum Grant {
    /// The region still collides with the slowest reader: wait for space,
    /// then ask again.
    Wait,
    /// No region is to be had: the channel is closed and the region was
    /// taken back, or the request was not taken up in the first place.
    Refused,
    /// The region is the producer's to write, until it is released.
    Ready(Interval),
}

/// The bookkeeping of one channel.
#[derive(Debug)]
pub struct RawChannel {
    capacity: usize,
    /// When closing the channel, we stop accepting writes.
    is_accepting_writes: bool,
    writes: Interval,
    reads: Interval,
    outstanding_writes: Vec<Interval>,
    outstanding_reads: Counter<BegCursor>,
}

impl View for RawChannel {
    type V = ChannelView;

    closed spec fn view(&self) -> ChannelView {
        ChannelView {
            capacity: self.capacity as int,
            open: self.is_accepting_writes,
            writes: self.writes,
            reads: self.reads,
            outstanding_writes: self.outstanding_writes@.to_set(),
            outstanding_reads: self.outstanding_reads@,
        }
    }
}

impl RawChannel {
    /// The stored collections are sound: no region is listed twice.
    pub closed spec fn stored_ok(&self) -> bool {
        &&& self.outstanding_writes@.no_duplicates()
        &&& self.outstanding_reads.wf()
    }

    /// The channel is well formed: its state satisfies the invariant.
    pub open spec fn wf(&self) -> bool {
        &&& self.stored_ok()
        &&& self@.inv()
    }

    /// A new, open channel over a buffer of `nbytes` bytes.
    pub fn new(nbytes: usize) -> (r: Self)
        requires
            0 < nbytes <= isize::MAX,
        ensures
            r.wf(),
            r@ == ChannelView::fresh(nbytes as int),
    {
        let r = RawChannel {
            capacity: nbytes,
            is_accepting_writes: true,
            writes: Interval { beg: BegCursor::zero(), end: EndCursor::zero(), high_mark: None },
            reads: Interval { beg: BegCursor::zero(), end: EndCursor::zero(), high_mark: None },
            outstanding_writes: Vec::new(),
            outstanding_reads: Counter::new(),
        };
        proof {
            assert(r.outstanding_writes@.to_set() =~= Set::<Interval>::empty());
            ChannelView::lemma_fresh_inv(nbytes as int);
        }
        r
    }

    /// Stops accepting writes. Closing twice is the same as closing once.
    pub fn close(&mut self)
        requires
            old(self).wf(),
        ensures
            final(self).wf(),
            final(self)@ == old(self)@.close(),
    {
        proof {
            self@.lemma_close_inv();
        }
        self.is_accepting_writes = false;
    }

    /// The size of the buffer in bytes.
    pub fn capacity(&self) -> (r: usize)
        ensures
            r == self@.capacity,
    {
        self.capacity
    }

    /// Whether the channel still accepts writes.
    pub fn is_accepting_writes(&self) -> (r: bool)
        ensures
            r == self@.open,
    {
        self.is_accepting_writes
    }

    /// From the earliest region held by a writer to the end of the last
    /// region staked out.
    pub fn writes(&self) -> (r: Interval)
        ensures
            r == self@.writes,
    {
        self.writes
    }

    /// From the slowest reader to the end of what is committed.
    pub fn reads(&self) -> (r: Interval)
        ensures
            r == self@.reads,
    {
        self.reads
    }

    /// Takes up a request for a writable region of `nbytes` bytes.
    ///
    /// A request larger than the buffer, or one on a closed channel, is
    /// turned down and changes nothing. Otherwise the next contiguous region
    /// is staked out: it starts at the write head, or at offset 0 of the
    /// next cycle if it would not fit below the end of the buffer. The
    /// region is not yet the producer's to write: ask [`RawChannel::poll_map`].
    pub fn begin_map(&mut self, nbytes: usize) -> (r: Option<Interval>)
        requires
            old(self).wf(),
            old(self)@.accepts(nbytes as int) ==> old(self)@.can_wrap(),
        ensures
            final(self).wf(),
            match r {
                Some(inc) => {
                    &&& old(self)@.accepts(nbytes as int)
                    &&& inc == old(self)@.claim(nbytes as int)
                    &&& inc.spec_len() == nbytes
                    &&& inc.start() == old(self)@.writes.end
                    &&& final(self)@ == old(self)@.stake(nbytes as int)
                },
                None => !old(self)@.accepts(nbytes as int) && final(self)@ == old(self)@,
            },
    {
        if nbytes > self.capacity || !self.is_accepting_writes {
            return None;
        }
        let inc = self.writes.end.next_region(nbytes, self.capacity);
        proof {
            self@.lemma_stake_inv(nbytes as int);
            self.outstanding_writes@.lemma_push_to_set_commute(inc);
            if self.outstanding_writes@.len() > 0 {
                assert(self.outstanding_writes@.to_set().contains(self.outstanding_writes@[0]));
            }
        }
        // The new region lies after every outstanding one, but if there is
        // none, the write tail has to follow it.
        if self.outstanding_writes.is_empty() {
            self.writes.beg = inc.beg;
        }
        self.writes.end = inc.end;
        if find_write(&self.outstanding_writes, &inc).is_none() {
            self.outstanding_writes.push(inc);
        }
        assert(self@.outstanding_writes =~= old(self)@.stake(nbytes as int).outstanding_writes);
        Some(inc)
    }

    /// Whether `interval` is staked out and not yet released or taken back.
    pub fn is_staked(&self, interval: &Interval) -> (r: bool)
        ensures
            r == self@.outstanding_writes.contains(*interval),
    {
        find_write(&self.outstanding_writes, interval).is_some()
    }

    /// Decides what becomes of the staked region `inc`.
    ///
    /// While the channel is open and the region collides with the slowest
    /// reader, the producer has to wait, and nothing changes. On a closed
    /// channel the region is taken back: it is no longer outstanding and the
    /// write head returns to where it stood before. No writable region is
    /// ever granted after close. Otherwise the region is granted, and if it
    /// opened a new cycle its high mark is latched.
    pub fn poll_map(&mut self, inc: &Interval) -> (r: Grant)
        requires
            old(self).wf(),
            old(self)@.outstanding_writes.contains(*inc),
        ensures
            final(self).wf(),
            match r {
                Grant::Wait => old(self)@.must_wait(*inc) && final(self)@ == old(self)@,
                Grant::Refused => !old(self)@.open && final(self)@ == old(self)@.abandon(*inc),
                Grant::Ready(region) => {
                    &&& region == *inc
                    &&& old(self)@.open
                    &&& !old(self)@.must_wait(*inc)
                    &&& final(self)@ == old(self)@.grant(*inc)
                    &&& final(self)@.granted(*inc)
                    &&& inc.beg.cycle - old(self)@.reads.beg.cycle < 2
                },
            },
    {
        if self.is_accepting_writes && collide(&inc.end, &self.reads.beg) {
            return Grant::Wait;
        }
        if !self.is_accepting_writes {
            // Once the channel stops accepting writes, it cannot be reopened.
            proof {
                self@.lemma_abandon_inv(*inc);
            }
            take_out(&mut self.outstanding_writes, inc);
            self.writes.end = inc.beg.to_end(inc.high_mark);
            return Grant::Refused;
        }
        proof {
            self@.lemma_grant_inv(*inc);
        }
        // If this region wraps, record its high mark for the writes. Later
        // it becomes the high mark for the reads.
        if inc.high_mark.is_some() {
            self.writes.high_mark = inc.high_mark;
        }
        Grant::Ready(*inc)
    }

    /// Whether `interval` is held by a writer and can be released: it is
    /// outstanding, it does not collide with the slowest reader, and if it
    /// opened a new cycle its high mark is the one latched.
    pub fn holds_write(&self, interval: &Interval) -> (r: bool)
        ensures
            r == self@.granted(*interval),
    {
        let latched = match interval.high_mark {
            Some(h) => match self.writes.high_mark {
                Some(g) => g == h,
                None => false,
            },
            None => true,
        };
        find_write(&self.outstanding_writes, interval).is_some() && !collide(
            &interval.end,
            &self.reads.beg,
        ) && latched
    }

    /// Releases the writable region `interval` and commits what is complete.
    ///
    /// Bytes become visible to readers only when all earlier writers have
    /// released: the committed end moves up to the earliest region that is
    /// still outstanding, or to the end of `interval` if none is. The write
    /// tail moves with it. When the committed end enters a new cycle, the
    /// latched high mark becomes the readers' high mark. The committed end
    /// never moves backward.
    pub fn unreserve_write(&mut self, interval: &Interval)
        requires
            old(self).wf(),
            old(self)@.granted(*interval),
        ensures
            final(self).wf(),
            final(self)@ == old(self)@.unreserve_write(*interval),
            lex_le(old(self)@.reads.end.pos(), final(self)@.reads.end.pos()),
    {
        proof {
            self@.lemma_unreserve_write_inv(*interval);
        }
        take_out(&mut self.outstanding_writes, interval);
        let mn = earliest(&self.outstanding_writes);
        proof {
            let rest = old(self)@.outstanding_writes.remove(*interval);
            match mn {
                Some(m) => {
                    old(self)@.lemma_first_write_leads(rest, m);
                },
                None => {
                    assert(rest =~= Set::<Interval>::empty());
                    assert(first_write(rest).is_none());
                },
            }
        }
        // With no writer left, the tail is where the released region ended.
        self.writes.beg = match mn {
            Some(e) => e.beg,
            None => interval.end.to_beg(interval.high_mark),
        };
        let c0: isize = self.reads.end.cycle;
        self.reads.end = match mn {
            Some(e) => e.beg.to_end(e.high_mark),
            None => interval.end,
        };
        let c1: isize = self.reads.end.cycle;
        // The commit crossed a cycle boundary: hand the high mark over.
        if c1 > c0 {
            self.reads.high_mark = self.writes.high_mark;
            self.writes.high_mark = None;
        }
    }

    /// Whether some read position is held so often that one more receiver
    /// or slice at it could not be counted.
    pub fn saturated(&self) -> (r: bool)
        requires
            self.wf(),
        ensures
            r == self@.saturated(),
    {
        let r = self.outstanding_reads.saturated();
        proof {
            let held = self.outstanding_reads@;
            if r {
                let k = choose|k: BegCursor| #[trigger] held.count(k) >= usize::MAX;
                assert(self@.outstanding_reads.count(k) >= usize::MAX);
            } else {
                assert forall|b: BegCursor| !(#[trigger] self@.outstanding_reads.count(b)
                    >= usize::MAX) by {
                    assert(!(held.count(b) >= usize::MAX));
                }
            }
        }
        r
    }

    /// Registers a receiver and returns where it starts to read: at the
    /// slowest reader's position. It sees what is committed from there on.
    pub fn register(&mut self) -> (cur: EndCursor)
        requires
            old(self).wf(),
            !old(self)@.saturated(),
        ensures
            final(self).wf(),
            cur == old(self)@.entry(),
            final(self)@ == old(self)@.register(),
    {
        proof {
            self@.lemma_register_inv();
        }
        let cur = self.reads.beg.to_end(None);
        self.outstanding_reads.insert(cur.to_beg(None));
        cur
    }

    /// Whether a receiver that has read up to `cur` should go on polling:
    /// the channel is open, or there is committed data it has not read.
    pub fn is_open(&self, cur: &EndCursor) -> (r: bool)
        ensures
            r == self@.is_open(*cur),
    {
        self.is_accepting_writes || *cur != self.reads.end
    }

    /// Whether `cur` is a place where a receiver can stand.
    fn within_reads(&self, cur: &EndCursor) -> (r: bool)
        ensures
            r == self@.within_reads(*cur),
    {
        let rb = self.reads.beg;
        let re = self.reads.end;
        let after_tail = rb.cycle < cur.cycle || (rb.cycle == cur.cycle && rb.offset <= cur.offset);
        let before_head = cur.cycle < re.cycle || (cur.cycle == re.cycle && cur.offset
            <= re.offset);
        let below_mark = cur.cycle == re.cycle || match self.reads.high_mark {
            Some(h) => cur.offset <= h,
            None => false,
        };
        after_tail && before_head && 0 <= cur.offset && below_mark
    }

    /// Whether a receiver that has read up to `cur` may ask for its next
    /// slice: `cur` lies between the slowest reader and the committed end,
    /// and the readers' high mark is known exactly if the committed end is a
    /// cycle ahead of the slowest reader.
    pub fn admits(&self, cur: &EndCursor) -> (r: bool)
        ensures
            r == self@.admits(*cur),
    {
        let rb = self.reads.beg;
        let re = self.reads.end;
        let marked = match self.reads.high_mark {
            Some(_) => rb.cycle < isize::MAX && re.cycle == rb.cycle + 1,
            None => re.cycle == rb.cycle,
        };
        marked && self.within_reads(cur)
    }

    /// Hands the receiver that has read up to `cur` its next readable
    /// region, if any byte is committed past `cur`.
    ///
    /// The region runs from `cur` to the committed end, or, if that lies in
    /// a later cycle, to the high mark of the receiver's cycle: a region
    /// never crosses a cycle boundary. A receiver that stands at the high
    /// mark continues at offset 0 of the next cycle. The region's end is the
    /// receiver's new position.
    pub fn next(&mut self, cur: &EndCursor) -> (r: Option<Interval>)
        requires
            old(self).wf(),
            old(self)@.admits(*cur),
            !old(self)@.saturated(),
        ensures
            final(self).wf(),
            match r {
                Some(interval) => {
                    &&& interval == old(self)@.readable(*cur)
                    &&& interval.spec_len() > 0
                    &&& final(self)@ == old(self)@.next(*cur)
                    &&& final(self)@.may_unreserve_read(interval)
                },
                None => old(self)@.readable(*cur).spec_len() == 0 && final(self)@ == old(self)@,
            },
    {
        proof {
            self@.lemma_next_inv(*cur);
        }
        // Only wrap if there's a cycle difference. This matters when `cur`
        // is at the committed end and that happens to be the high mark.
        let beg = cur.to_beg(
            if cur.cycle == self.reads.end.cycle {
                None
            } else {
                self.reads.high_mark
            },
        );
        // The region never straddles the cycle boundary, so it never
        // carries a high mark.
        let interval = if beg.cycle == self.reads.end.cycle {
            Interval { beg, end: self.reads.end, high_mark: None }
        } else {
            let high_mark: isize = self.reads.high_mark.unwrap();
            Interval { beg, end: EndCursor { cycle: beg.cycle, offset: high_mark }, high_mark: None }
        };
        if interval.len() == 0 {
            return None;
        }
        // Insert before remove, in case both keys coincide.
        self.outstanding_reads.insert(interval.beg);
        self.outstanding_reads.remove(&cur.to_beg(None));
        Some(interval)
    }

    /// Whether `interval` can be released as a readable region: its end is
    /// a place where the receiver can stand.
    pub fn may_unreserve_read(&self, interval: &Interval) -> (r: bool)
        ensures
            r == self@.may_unreserve_read(*interval),
    {
        self.within_reads(&interval.end)
    }

    /// Releases the readable region `interval`.
    ///
    /// The receiver's position moves from the region's beginning to its
    /// end, and the slowest reader is found anew. When the slowest reader
    /// enters a new cycle, the readers' high mark is forgotten. The slowest
    /// reader never moves backward.
    pub fn unreserve_read(&mut self, interval: &Interval)
        requires
            old(self).wf(),
            old(self)@.may_unreserve_read(*interval),
            !old(self)@.saturated(),
        ensures
            final(self).wf(),
            final(self)@ == old(self)@.unreserve_read(*interval),
            lex_le(old(self)@.reads.beg.pos(), final(self)@.reads.beg.pos()),
    {
        proof {
            broadcast use vstd::multiset::group_multiset_axioms;

            self@.lemma_unreserve_read_inv(*interval);
        }
        self.outstanding_reads.remove(&interval.beg);
        self.outstanding_reads.insert(interval.end.to_beg(None));
        let c0: isize = self.reads.beg.cycle;
        let slowest = match self.outstanding_reads.min() {
            Some(b) => *b,
            None => interval.end.to_beg(interval.high_mark),
        };
        self.reads.beg = slowest;
        let c1: isize = self.reads.beg.cycle;
        if c1 > c0 {
            self.reads.high_mark = None;
        }
    }
}

} // verus!
