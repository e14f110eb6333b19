//! Every step keeps the channel's invariant.

use crate::counter::{is_least, least, lemma_least_unique, TotalOrder};
use crate::cursor::{lex_le, lex_lt, BegCursor, EndCursor, Interval};
use crate::model::{collides, first_write, is_first_write, ChannelView};
use vstd::multiset::Multiset;
use vstd::prelude::*;

verus! {

/// A reader that moves forward never runs into a writer that it was clear
/// of.
pub proof fn lemma_collides_monotone(w: EndCursor, r: BegCursor, later: BegCursor)
    requires
        lex_le(r.pos(), later.pos()),
        !collides(w, r),
    ensures
        !collides(w, later),
{
}

/// A multiset that holds something has a least value.
pub proof fn lemma_least_exists<T: TotalOrder>(m: Multiset<T>)
    requires
        m.len() > 0,
    ensures
        least(m).is_some(),
        is_least(m, least(m).unwrap()),
{
    broadcast use vstd::multiset::group_multiset_axioms;

    let dom = m.dom();
    let r = |a: T, b: T| a.ord_le(b);
    assert(vstd::relations::total_ordering(r)) by {
        assert forall|x: T| #[trigger] r(x, x) by {
            T::lemma_total_order(x, x, x);
        }
        assert forall|x: T, y: T| #[trigger] r(x, y) && #[trigger] r(y, x) implies x == y by {
            T::lemma_total_order(x, y, x);
        }
        assert forall|x: T, y: T, z: T| #[trigger] r(x, y) && #[trigger] r(y, z) implies r(
            x,
            z,
        ) by {
            T::lemma_total_order(x, y, z);
        }
        assert forall|x: T, y: T| #[trigger] r(x, y) || #[trigger] r(y, x) by {
            T::lemma_total_order(x, y, x);
        }
    }
    assert(dom.len() > 0) by {
        let v = m.choose();
        assert(m.count(v) > 0);
        assert(dom.contains(v));
        if dom.len() == 0 {
            assert(dom =~= Set::<T>::empty());
        }
    }
    dom.find_unique_minimal_ensures(r);
    let x = dom.find_unique_minimal(r);
    assert(is_least(m, x)) by {
        assert forall|y: T| #[trigger] m.count(y) > 0 implies x.ord_le(y) by {
            assert(dom.contains(y));
            T::lemma_total_order(x, y, x);
            if !r(x, y) {
                assert(r(y, x));
            }
        }
    }
    lemma_least_unique(m, x);
}

/// A rank for the high mark, to order regions that begin and end alike.
spec fn high_mark_rank(h: Option<isize>) -> (int, int) {
    match h {
        Some(v) => (1, v as int),
        None => (0, 0),
    }
}

/// A total order on regions that refines `no_later_than`.
spec fn total_no_later_than(a: Interval, b: Interval) -> bool {
    lex_lt(a.beg.pos(), b.beg.pos()) || (a.beg.pos() == b.beg.pos() && (lex_lt(
        a.end.pos(),
        b.end.pos(),
    ) || (a.end.pos() == b.end.pos() && lex_le(
        high_mark_rank(a.high_mark),
        high_mark_rank(b.high_mark),
    ))))
}

/// A finite set of regions that holds something has an earliest region.
pub proof fn lemma_first_write_exists(ws: Set<Interval>)
    requires
        ws.finite(),
        ws.len() > 0,
    ensures
        first_write(ws).is_some(),
        is_first_write(ws, first_write(ws).unwrap()),
{
    let r = |a: Interval, b: Interval| total_no_later_than(a, b);
    assert(vstd::relations::total_ordering(r)) by {
        assert forall|x: Interval| #[trigger] r(x, x) by {}
        assert forall|x: Interval, y: Interval| #[trigger] r(x, y) && #[trigger] r(
            y,
            x,
        ) implies x == y by {
            assert(x.beg == y.beg);
            assert(x.end == y.end);
            assert(x.high_mark == y.high_mark);
        }
        assert forall|x: Interval, y: Interval, z: Interval| #[trigger]
            r(x, y) && #[trigger] r(y, z) implies r(x, z) by {}
        assert forall|x: Interval, y: Interval| #[trigger] r(x, y) || #[trigger] r(y, x) by {}
    }
    ws.find_unique_minimal_ensures(r);
    let m = ws.find_unique_minimal(r);
    assert(is_first_write(ws, m)) by {
        assert forall|w: Interval| #[trigger] ws.contains(w) implies m.no_later_than(w) by {
            if !r(m, w) {
                assert(r(w, m));
            }
        }
    }
}

impl ChannelView {
    /// Among the outstanding writes, the earliest lies wholly before every
    /// other, and begins where the commit may safely move to.
    pub proof fn lemma_first_write_leads(self, ws: Set<Interval>, m: Interval)
        requires
            self.writes_inv(),
            ws.subset_of(self.outstanding_writes),
            is_first_write(ws, m),
        ensures
            forall|w: Interval| #[trigger] ws.contains(w) && w != m ==> m.precedes(w),
            forall|w: Interval| #[trigger]
                ws.contains(w) ==> lex_le(m.start().pos(), w.start().pos()),
            first_write(ws) == Some(m),
    {
        assert(self.outstanding_writes.contains(m));
        assert forall|w: Interval| #[trigger] ws.contains(w) && w != m implies m.precedes(w) by {
            assert(self.outstanding_writes.contains(w));
            assert(m.no_later_than(w));
            assert(m.precedes(w) || w.precedes(m));
        }
        assert forall|w: Interval| #[trigger] ws.contains(w) implies lex_le(
            m.start().pos(),
            w.start().pos(),
        ) by {
            assert(self.outstanding_writes.contains(w));
            if w != m {
                assert(m.precedes(w));
            }
        }
        let c = choose|c: Interval| is_first_write(ws, c);
        if c != m {
            assert(m.precedes(c));
            assert(c.no_later_than(m));
        }
    }

    /// What holds of the write head carries over to a state with the same
    /// writes and committed end whose slowest reader is no further back.
    proof fn lemma_head_carries_over(self, t: ChannelView)
        requires
            self.head_inv(),
            t.capacity == self.capacity,
            t.writes.end == self.writes.end,
            t.reads.end == self.reads.end,
            t.outstanding_writes == self.outstanding_writes,
            lex_le(self.reads.beg.pos(), t.reads.beg.pos()),
        ensures
            t.head_inv(),
    {
        if collides(t.writes.end, t.reads.beg) {
            if !collides(self.writes.end, self.reads.beg) {
                lemma_collides_monotone(self.writes.end, self.reads.beg, t.reads.beg);
            }
            let w = choose|w: Interval| #[trigger]
                self.outstanding_writes.contains(w) && w.end == self.writes.end;
            assert(t.outstanding_writes.contains(w) && w.end == t.writes.end);
        }
    }

    /// A fresh channel satisfies the invariant.
    pub proof fn lemma_fresh_inv(capacity: int)
        requires
            0 < capacity <= isize::MAX,
        ensures
            ChannelView::fresh(capacity).inv(),
    {
        broadcast use vstd::multiset::group_multiset_axioms;

    }

    /// Closing keeps the invariant.
    pub proof fn lemma_close_inv(self)
        requires
            self.inv(),
        ensures
            self.close().inv(),
    {
    }

    /// Staking out a region keeps the invariant.
    pub proof fn lemma_stake_inv(self, amount: int)
        requires
            self.inv(),
            0 <= amount,
            self.accepts(amount),
            self.can_wrap(),
        ensures
            self.stake(amount).inv(),
            self.claim(amount).write_shaped(self.capacity),
            self.claim(amount).start() == self.writes.end,
            self.claim(amount).spec_len() == amount,
    {
        let inc = self.claim(amount);
        let t = self.stake(amount);
        assert(inc.write_shaped(self.capacity));
        assert(t.writes_inv());
        assert(t.head_inv()) by {
            assert(t.outstanding_writes.contains(inc) && inc.end == t.writes.end);
        }
    }

    /// Taking a staked region back keeps the invariant.
    pub proof fn lemma_abandon_inv(self, inc: Interval)
        requires
            self.inv(),
            !self.open,
        ensures
            self.abandon(inc).inv(),
    {
    }

    /// Granting a staked region keeps the invariant, and the region is less
    /// than two cycles ahead of the slowest reader.
    pub proof fn lemma_grant_inv(self, inc: Interval)
        requires
            self.inv(),
            self.outstanding_writes.contains(inc),
            !collides(inc.end, self.reads.beg),
        ensures
            self.grant(inc).inv(),
            inc.beg.cycle - self.reads.beg.cycle < 2,
    {
        if self.open {
            self.lemma_head_carries_over(self.grant(inc));
        }
    }

    /// Registering a receiver keeps the invariant.
    pub proof fn lemma_register_inv(self)
        requires
            self.inv(),
        ensures
            self.register().inv(),
    {
        broadcast use vstd::multiset::group_multiset_axioms;

        if self.open {
            self.lemma_head_carries_over(self.register());
        }
    }

    /// What a receiver can read next is a region within one cycle and within
    /// the buffer, and handing it out keeps the invariant.
    pub proof fn lemma_next_inv(self, cur: EndCursor)
        requires
            self.inv(),
            self.admits(cur),
        ensures
            self.next(cur).inv(),
            self.readable(cur).beg.cycle == self.readable(cur).end.cycle,
            0 <= self.readable(cur).beg.offset <= self.readable(cur).end.offset <= self.capacity,
            self.next(cur).may_unreserve_read(self.readable(cur)),
    {
        broadcast use vstd::multiset::group_multiset_axioms;

        if self.open {
            self.lemma_head_carries_over(self.next(cur));
        }
    }

    /// Releasing a readable slice keeps the invariant, and the slowest
    /// reader does not move backward.
    pub proof fn lemma_unreserve_read_inv(self, interval: Interval)
        requires
            self.inv(),
            self.may_unreserve_read(interval),
        ensures
            self.unreserve_read(interval).inv(),
            lex_le(self.reads.beg.pos(), self.unreserve_read(interval).reads.beg.pos()),
            is_least(
                self.unreserve_read(interval).outstanding_reads,
                self.unreserve_read(interval).reads.beg,
            ),
    {
        broadcast use vstd::multiset::group_multiset_axioms;

        let t = self.unreserve_read(interval);
        let positions = t.outstanding_reads;
        let landed = interval.end.spec_to_beg(None);
        assert(positions.count(landed) > 0);
        assert(positions.count(landed) <= positions.len());
        lemma_least_exists(positions);
        let slowest = least(positions).unwrap();
        assert(t.reads.beg == slowest);
        assert forall|b: BegCursor| #[trigger] positions.count(b) > 0 implies {
            &&& lex_le(self.reads.beg.pos(), b.pos())
            &&& lex_le(b.pos(), self.reads.end.pos())
            &&& 0 <= b.offset <= self.capacity
        } by {
            if b != landed {
                assert(self.outstanding_reads.count(b) > 0);
            }
        }
        assert(t.reads_inv());
        if self.open {
            self.lemma_head_carries_over(t);
        }
    }

    /// Releasing a granted region keeps the invariant, and the committed end
    /// does not move backward.
    pub proof fn lemma_unreserve_write_inv(self, interval: Interval)
        requires
            self.inv(),
            self.granted(interval),
        ensures
            self.unreserve_write(interval).inv(),
            lex_le(self.reads.end.pos(), self.unreserve_write(interval).reads.end.pos()),
    {
        let t = self.unreserve_write(interval);
        let rest = self.outstanding_writes.remove(interval);
        if rest.len() == 0 {
            assert(rest =~= Set::<Interval>::empty());
            assert(first_write(rest).is_none());
        } else {
            lemma_first_write_exists(rest);
            let m = first_write(rest).unwrap();
            self.lemma_first_write_leads(rest, m);
            assert(self.outstanding_writes.contains(m));
        }
        assert(t.reads_inv());
        assert(t.writes_inv());
        if self.open {
            if collides(t.writes.end, t.reads.beg) {
                let w = choose|w: Interval| #[trigger]
                    self.outstanding_writes.contains(w) && w.end == self.writes.end;
                assert(rest.contains(w));
            }
            assert(t.head_inv());
        }
    }
}

} // verus!
