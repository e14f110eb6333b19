//! High marks are latched and handed over in step with the cycles, so a
//! receiver that stands where the bookkeeping holds it is never turned away.
//!
//! The one step that can break this is taking back a staked region while a
//! later region is still outstanding: on a closed channel, with several
//! producers blocked, the order in which they give up is not controlled.
//! The lemmas here hold of every step but such a one.

use crate::cursor::{lex_le, BegCursor, EndCursor, Interval};
use crate::model::{collides, first_write, ChannelView};
use crate::steps::lemma_first_write_exists;
use vstd::prelude::*;

verus! {

impl ChannelView {
    /// Some outstanding region opens cycle `k`.
    pub open spec fn opens(self, k: int) -> bool {
        exists|w: Interval| #[trigger]
            self.outstanding_writes.contains(w) && w.high_mark.is_some() && w.beg.cycle == k
    }

    /// The boundary into cycle `k` is accounted for: it is the one whose
    /// high mark is latched, or the region that opens `k` is outstanding.
    pub open spec fn bridge_at(self, k: int) -> bool {
        (k == self.reads.end.cycle + 1 && self.writes.high_mark.is_some()) || self.opens(k)
    }

    /// Every cycle boundary between the committed end and cycle `upto` is
    /// accounted for.
    pub open spec fn bridged(self, upto: int) -> bool {
        forall|k: int| self.reads.end.cycle < k <= upto ==> #[trigger] self.bridge_at(k)
    }

    /// What holds of the latched high mark `h`: it belongs to the cycle of
    /// the committed end, which the slowest reader has reached and which no
    /// region outstanding in it exceeds.
    pub open spec fn latch_inv(self, h: isize) -> bool {
        &&& self.open ==> self.writes.end.cycle > self.reads.end.cycle
        &&& self.reads.end.offset <= h
        &&& self.reads.beg.cycle == self.reads.end.cycle
        &&& forall|w: Interval| #[trigger]
            self.outstanding_writes.contains(w) && w.end.cycle == self.reads.end.cycle
                ==> w.end.offset <= h
        &&& forall|w: Interval| #[trigger]
            self.outstanding_writes.contains(w) && w.high_mark.is_some() && w.beg.cycle
                == self.reads.end.cycle + 1 ==> w.high_mark == Some(h)
    }

    /// What holds of the readers' high mark: it is kept exactly while the
    /// committed end is a cycle ahead of the slowest reader, and no reader
    /// in the older cycle stands beyond it.
    pub open spec fn handover_inv(self) -> bool {
        match self.reads.high_mark {
            Some(h) => {
                &&& self.reads.end.cycle == self.reads.beg.cycle + 1
                &&& self.reads.beg.offset <= h
                &&& forall|b: BegCursor| #[trigger]
                    self.outstanding_reads.count(b) > 0 && b.cycle == self.reads.beg.cycle
                        ==> b.offset <= h
            },
            None => self.reads.end.cycle == self.reads.beg.cycle,
        }
    }

    /// The invariant of the high marks.
    pub open spec fn marks_inv(self) -> bool {
        &&& forall|w: Interval| #[trigger]
            self.outstanding_writes.contains(w) ==> self.bridged(w.beg.cycle as int)
        &&& self.open ==> self.bridged(self.writes.end.cycle as int)
        &&& self.writes.high_mark matches Some(h) ==> self.latch_inv(h)
        &&& self.handover_inv()
    }

    /// Nothing outstanding lies beyond `region`.
    pub open spec fn is_last_write(self, region: Interval) -> bool {
        forall|w: Interval| #[trigger]
            self.outstanding_writes.contains(w) && w != region ==> w.precedes(region)
    }

    /// Under the invariants a receiver may stand at every position that the
    /// bookkeeping holds, the slowest reader's among them.
    pub proof fn lemma_held_positions_admitted(self, b: BegCursor)
        requires
            self.inv(),
            self.marks_inv(),
            self.outstanding_reads.count(b) > 0 || b == self.reads.beg,
        ensures
            self.admits(b.spec_to_end(None)),
    {
    }

    /// A fresh channel satisfies the invariant of the high marks.
    pub proof fn lemma_fresh_marks(capacity: int)
        requires
            0 < capacity <= isize::MAX,
        ensures
            ChannelView::fresh(capacity).marks_inv(),
    {
    }

    /// Closing keeps the invariant of the high marks.
    pub proof fn lemma_close_marks(self)
        requires
            self.inv(),
            self.marks_inv(),
        ensures
            self.close().marks_inv(),
    {
        let t = self.close();
        assert forall|upto: int| self.bridged(upto) implies t.bridged(upto) by {
            self.lemma_bridged_carries(t, upto);
        }
        assert forall|w: Interval| #[trigger] t.outstanding_writes.contains(w) implies t.bridged(
            w.beg.cycle as int,
        ) by {
            assert(self.bridged(w.beg.cycle as int));
        }
        if t.writes.high_mark.is_some() {
            let h = t.writes.high_mark.unwrap();
            assert(self.latch_inv(h));
            assert(t.latch_inv(h));
        }
    }

    /// Boundaries that are accounted for stay so in a state with the same
    /// committed cycle, at least the same regions that open cycles, and a
    /// latch that is still set if it was.
    proof fn lemma_bridged_carries(self, t: ChannelView, upto: int)
        requires
            self.bridged(upto),
            t.reads.end.cycle == self.reads.end.cycle,
            self.writes.high_mark.is_some() ==> t.writes.high_mark.is_some(),
            forall|w: Interval|
                self.outstanding_writes.contains(w) && w.high_mark.is_some()
                    ==> #[trigger] t.outstanding_writes.contains(w) || (w.beg.cycle
                    == self.reads.end.cycle + 1 && t.writes.high_mark.is_some()),
        ensures
            t.bridged(upto),
    {
        assert forall|k: int| t.reads.end.cycle < k <= upto implies #[trigger] t.bridge_at(k) by {
            assert(self.bridge_at(k));
            if !(k == self.reads.end.cycle + 1 && self.writes.high_mark.is_some()) {
                let w = choose|w: Interval| #[trigger]
                    self.outstanding_writes.contains(w) && w.high_mark.is_some() && w.beg.cycle
                        == k;
                if t.outstanding_writes.contains(w) {
                    assert(t.opens(k));
                }
            }
        }
    }

    /// Staking out a region keeps the invariant of the high marks.
    pub proof fn lemma_stake_marks(self, amount: int)
        requires
            self.inv(),
            self.marks_inv(),
            0 <= amount,
            self.accepts(amount),
            self.can_wrap(),
        ensures
            self.stake(amount).marks_inv(),
    {
        let inc = self.claim(amount);
        let t = self.stake(amount);
        self.lemma_stake_inv(amount);
        assert(t.outstanding_writes.contains(inc));
        assert forall|upto: int| self.bridged(upto) implies t.bridged(upto) by {
            self.lemma_bridged_carries(t, upto);
        }
        assert(t.bridged(inc.beg.cycle as int)) by {
            assert(self.bridged(self.writes.end.cycle as int));
            assert(t.bridged(self.writes.end.cycle as int));
            assert forall|k: int| t.reads.end.cycle < k <= inc.beg.cycle implies #[trigger]
                t.bridge_at(k) by {
                if k <= self.writes.end.cycle {
                    assert(t.bridge_at(k));
                } else {
                    assert(inc.high_mark.is_some() && inc.beg.cycle == k);
                    assert(t.opens(k));
                }
            }
        }
        assert forall|w: Interval| #[trigger] t.outstanding_writes.contains(w) implies t.bridged(
            w.beg.cycle as int,
        ) by {
            if w != inc {
                assert(self.outstanding_writes.contains(w));
                assert(self.bridged(w.beg.cycle as int));
            }
        }
        if t.writes.high_mark.is_some() {
            let h = t.writes.high_mark.unwrap();
            assert(self.latch_inv(h));
            assert(t.latch_inv(h));
        }
    }

    /// Granting a staked region keeps the invariant of the high marks.
    pub proof fn lemma_grant_marks(self, inc: Interval)
        requires
            self.inv(),
            self.marks_inv(),
            self.open,
            self.outstanding_writes.contains(inc),
            !collides(inc.end, self.reads.beg),
        ensures
            self.grant(inc).marks_inv(),
            self.grant(inc).granted(inc),
    {
        let t = self.grant(inc);
        assert forall|upto: int| self.bridged(upto) implies t.bridged(upto) by {
            self.lemma_bridged_carries(t, upto);
        }
        assert forall|w: Interval| #[trigger] t.outstanding_writes.contains(w) implies t.bridged(
            w.beg.cycle as int,
        ) by {
            assert(self.bridged(w.beg.cycle as int));
        }
        assert(self.bridged(self.writes.end.cycle as int));
        if inc.high_mark.is_some() {
            let h = inc.high_mark.unwrap();
            assert(inc.write_shaped(self.capacity));
            assert(lex_le(self.reads.end.pos(), inc.start().pos()));
            assert(lex_le(inc.end.pos(), self.writes.end.pos()));
            assert(inc.beg.cycle == self.reads.end.cycle + 1);
            assert(self.reads.beg.cycle == self.reads.end.cycle);
            assert(self.handover_inv());
            assert(t.latch_inv(h)) by {
                assert forall|w: Interval| #[trigger]
                    t.outstanding_writes.contains(w) && w.high_mark.is_some() && w.beg.cycle
                        == t.reads.end.cycle + 1 implies w.high_mark == Some(h) by {
                    assert(w.write_shaped(self.capacity));
                    if w != inc {
                        assert(w.precedes(inc) || inc.precedes(w));
                    }
                }
            }
        } else {
            if self.writes.high_mark.is_some() {
                assert(self.latch_inv(self.writes.high_mark.unwrap()));
            }
        }
    }

    /// Taking back the last outstanding region keeps the invariant of the
    /// high marks.
    pub proof fn lemma_abandon_marks(self, inc: Interval)
        requires
            self.inv(),
            self.marks_inv(),
            !self.open,
            self.outstanding_writes.contains(inc),
            self.is_last_write(inc),
        ensures
            self.abandon(inc).marks_inv(),
    {
        let t = self.abandon(inc);
        assert(inc.write_shaped(self.capacity));
        assert forall|w: Interval| #[trigger] t.outstanding_writes.contains(w) implies t.bridged(
            w.beg.cycle as int,
        ) by {
            assert(self.outstanding_writes.contains(w));
            assert(w.write_shaped(self.capacity));
            assert(w.precedes(inc));
            assert(self.bridged(w.beg.cycle as int));
            assert forall|k: int| t.reads.end.cycle < k <= w.beg.cycle implies #[trigger]
                t.bridge_at(k) by {
                assert(self.bridge_at(k));
                if !(k == self.reads.end.cycle + 1 && self.writes.high_mark.is_some()) {
                    let o = choose|o: Interval| #[trigger]
                        self.outstanding_writes.contains(o) && o.high_mark.is_some()
                            && o.beg.cycle == k;
                    assert(o != inc);
                    assert(t.outstanding_writes.contains(o));
                    assert(t.opens(k));
                }
            }
        }
        if t.writes.high_mark.is_some() {
            let h = t.writes.high_mark.unwrap();
            assert(self.latch_inv(h));
            assert(t.latch_inv(h));
        }
    }

    /// Registering a receiver keeps the invariant of the high marks.
    pub proof fn lemma_register_marks(self)
        requires
            self.inv(),
            self.marks_inv(),
        ensures
            self.register().marks_inv(),
    {
        broadcast use vstd::multiset::group_multiset_axioms;

        let t = self.register();
        assert forall|upto: int| self.bridged(upto) implies t.bridged(upto) by {
            self.lemma_bridged_carries(t, upto);
        }
        assert forall|w: Interval| #[trigger] t.outstanding_writes.contains(w) implies t.bridged(
            w.beg.cycle as int,
        ) by {
            assert(self.bridged(w.beg.cycle as int));
        }
        if t.writes.high_mark.is_some() {
            let h = t.writes.high_mark.unwrap();
            assert(self.latch_inv(h));
            assert(t.latch_inv(h));
        }
        assert(self.handover_inv());
        assert(t.handover_inv());
    }

    /// Handing out a readable slice keeps the invariant of the high marks.
    pub proof fn lemma_next_marks(self, cur: EndCursor)
        requires
            self.inv(),
            self.marks_inv(),
            self.admits(cur),
        ensures
            self.next(cur).marks_inv(),
    {
        broadcast use vstd::multiset::group_multiset_axioms;

        let t = self.next(cur);
        assert forall|upto: int| self.bridged(upto) implies t.bridged(upto) by {
            self.lemma_bridged_carries(t, upto);
        }
        assert forall|w: Interval| #[trigger] t.outstanding_writes.contains(w) implies t.bridged(
            w.beg.cycle as int,
        ) by {
            assert(self.bridged(w.beg.cycle as int));
        }
        if t.writes.high_mark.is_some() {
            let h = t.writes.high_mark.unwrap();
            assert(self.latch_inv(h));
            assert(t.latch_inv(h));
        }
        assert(self.handover_inv());
        assert(t.handover_inv());
    }

    /// Releasing a readable slice keeps the invariant of the high marks.
    pub proof fn lemma_unreserve_read_marks(self, interval: Interval)
        requires
            self.inv(),
            self.marks_inv(),
            self.may_unreserve_read(interval),
        ensures
            self.unreserve_read(interval).marks_inv(),
    {
        broadcast use vstd::multiset::group_multiset_axioms;

        let t = self.unreserve_read(interval);
        self.lemma_unreserve_read_inv(interval);
        assert forall|upto: int| self.bridged(upto) implies t.bridged(upto) by {
            self.lemma_bridged_carries(t, upto);
        }
        assert forall|w: Interval| #[trigger] t.outstanding_writes.contains(w) implies t.bridged(
            w.beg.cycle as int,
        ) by {
            assert(self.bridged(w.beg.cycle as int));
        }
        assert(self.handover_inv());
        assert(t.outstanding_reads.count(t.reads.beg) > 0);
        if t.writes.high_mark.is_some() {
            let h = t.writes.high_mark.unwrap();
            assert(self.latch_inv(h));
            assert(t.latch_inv(h));
        }
        assert(t.handover_inv());
    }

    /// Releasing a granted region keeps the invariant of the high marks,
    /// and the committed end advances by at most one cycle.
    #[verifier::rlimit(30)]
    pub proof fn lemma_unreserve_write_marks(self, interval: Interval)
        requires
            self.inv(),
            self.marks_inv(),
            self.granted(interval),
        ensures
            self.unreserve_write(interval).marks_inv(),
            self.unreserve_write(interval).reads.end.cycle <= self.reads.end.cycle + 1,
    {
        let t = self.unreserve_write(interval);
        let rest = self.outstanding_writes.remove(interval);
        let c = self.reads.end.cycle as int;
        self.lemma_unreserve_write_inv(interval);
        assert(interval.write_shaped(self.capacity));
        assert(lex_le(self.reads.end.pos(), interval.start().pos()));
        assert(self.bridged(interval.beg.cycle as int));
        // The earliest region that stays outstanding, if there is one.
        let some_left = rest.len() != 0;
        let mn = first_write(rest).unwrap();
        if some_left {
            lemma_first_write_exists(rest);
            self.lemma_first_write_leads(rest, mn);
            assert(self.outstanding_writes.contains(mn));
            assert(mn.write_shaped(self.capacity));
            assert(self.bridged(mn.beg.cycle as int));
            assert(t.reads.end == mn.start());
        } else {
            assert(rest =~= Set::<Interval>::empty());
            assert(first_write(rest).is_none());
            assert(t.reads.end == interval.end);
        }
        // The commit does not skip a cycle.
        assert(t.reads.end.cycle <= c + 1) by {
            if some_left && mn.start().cycle >= c + 2 {
                assert(self.bridge_at(c + 2));
                let o = choose|o: Interval| #[trigger]
                    self.outstanding_writes.contains(o) && o.high_mark.is_some() && o.beg.cycle
                        == c + 2;
                assert(rest.contains(o));
                assert(lex_le(mn.start().pos(), o.start().pos()));
            }
        }
        let crossed = t.reads.end.cycle > c;
        // The commit enters a cycle only over a latched high mark.
        if crossed && self.writes.high_mark.is_none() {
            assert(self.bridge_at(c + 1));
            let o = choose|o: Interval| #[trigger]
                self.outstanding_writes.contains(o) && o.high_mark.is_some() && o.beg.cycle == c
                    + 1;
            assert(o != interval);
            assert(rest.contains(o));
            assert(lex_le(mn.start().pos(), o.start().pos()));
            assert(false);
        }
        if self.writes.high_mark.is_some() {
            assert(self.latch_inv(self.writes.high_mark.unwrap()));
        }
        assert(self.handover_inv());
        if crossed {
            let h = self.writes.high_mark.unwrap();
            assert forall|upto: int| self.bridged(upto) implies t.bridged(upto) by {
                assert forall|k: int| t.reads.end.cycle < k <= upto implies #[trigger] t.bridge_at(
                    k,
                ) by {
                    assert(self.bridge_at(k));
                    let o = choose|o: Interval| #[trigger]
                        self.outstanding_writes.contains(o) && o.high_mark.is_some()
                            && o.beg.cycle == k;
                    assert(rest.contains(o));
                    assert(t.opens(k));
                }
            }
            assert(t.handover_inv()) by {
                assert forall|b: BegCursor| #[trigger]
                    t.outstanding_reads.count(b) > 0 && b.cycle
                        == t.reads.beg.cycle implies b.offset <= h by {
                    assert(lex_le(b.pos(), self.reads.end.pos()));
                }
            }
        } else {
            assert forall|upto: int| self.bridged(upto) implies t.bridged(upto) by {
                self.lemma_bridged_carries(t, upto);
            }
            if t.writes.high_mark.is_some() {
                let h = t.writes.high_mark.unwrap();
                assert(t.latch_inv(h));
            }
        }
        assert forall|w: Interval| #[trigger] t.outstanding_writes.contains(w) implies t.bridged(
            w.beg.cycle as int,
        ) by {
            assert(self.outstanding_writes.contains(w));
            assert(self.bridged(w.beg.cycle as int));
        }
        if t.open {
            assert(self.bridged(self.writes.end.cycle as int));
        }
    }
}

} // verus!
