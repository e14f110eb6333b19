//! While regions are released in the order in which they were staked out,
//! the outstanding regions form one unbroken chain from the committed end to
//! the write head, and each release commits exactly the region released.
//!
//! Two kinds of step break the chain, and the lemmas here leave them out: a
//! writer that releases while an earlier region is still outstanding (its
//! bytes are committed only by a later in-order release), and a staked
//! region that is taken back while a later one is outstanding.

use crate::cursor::{lex_le, BegCursor, EndCursor, Interval};
use crate::model::{collides, first_write, is_first_write, ChannelView};
use crate::steps::lemma_first_write_exists;
use vstd::prelude::*;

verus! {

impl ChannelView {
    /// Some other outstanding region ends where `w` starts.
    pub open spec fn has_predecessor(self, w: Interval) -> bool {
        exists|v: Interval| #[trigger]
            self.outstanding_writes.contains(v) && v != w && v.end == w.start()
    }

    /// The high mark of `region` is the one latched.
    pub open spec fn latched(self, region: Interval) -> bool {
        region.high_mark.is_some() && self.writes.high_mark == region.high_mark
    }

    /// `tail` names the place `head`, as a beginning: the same position, or
    /// offset 0 of the cycle after it.
    pub open spec fn names_same_place(tail: BegCursor, head: EndCursor) -> bool {
        tail.pos() == head.pos() || tail.pos() == (head.cycle + 1, 0int)
    }

    /// With nothing outstanding, the write head is at the committed end and
    /// the write tail names the same place.
    pub open spec fn chain_empty_ok(self) -> bool {
        self.outstanding_writes.is_empty() ==> {
            &&& self.writes.end == self.reads.end
            &&& Self::names_same_place(self.writes.beg, self.writes.end)
        }
    }

    /// The last outstanding region reaches the write head.
    pub open spec fn chain_reaches_head(self) -> bool {
        !self.outstanding_writes.is_empty() ==> exists|w: Interval| #[trigger]
            self.outstanding_writes.contains(w) && w.end == self.writes.end
    }

    /// Every outstanding region starts at the committed end or where
    /// another one ends, and none reaches past the write head.
    pub open spec fn chain_linked(self) -> bool {
        forall|w: Interval| #[trigger]
            self.outstanding_writes.contains(w) ==> {
                &&& w.start() == self.reads.end || self.has_predecessor(w)
                &&& lex_le(w.end.pos(), self.writes.end.pos())
            }
    }

    /// The write tail is at the beginning of the earliest outstanding
    /// region.
    pub open spec fn tail_at_first(self) -> bool {
        forall|m: Interval|
            is_first_write(self.outstanding_writes, m) ==> self.writes.beg == m.beg
    }

    /// A latched high mark belongs to an outstanding region, the one that
    /// opens the cycle after the committed end.
    pub open spec fn latch_is_held(self) -> bool {
        self.writes.high_mark.is_some() ==> exists|w: Interval| #[trigger]
            self.outstanding_writes.contains(w) && self.latched(w) && w.beg.cycle
                == self.reads.end.cycle + 1
    }

    /// The outstanding regions form one chain from the committed end to the
    /// write head, the write tail is at its first link, and a latched high
    /// mark belongs to a region that is still outstanding.
    pub open spec fn tight(self) -> bool {
        &&& self.chain_empty_ok()
        &&& self.chain_reaches_head()
        &&& self.chain_linked()
        &&& self.tail_at_first()
        &&& self.latch_is_held()
    }

    /// A fresh channel is tight.
    pub proof fn lemma_fresh_tight(capacity: int)
        ensures
            ChannelView::fresh(capacity).tight(),
    {
    }

    /// Two outstanding regions that start at the same place, of which the
    /// first lies before the second: the first is empty.
    proof fn lemma_same_start(self, a: Interval, b: Interval)
        requires
            self.writes_inv(),
            self.outstanding_writes.contains(a),
            self.outstanding_writes.contains(b),
            a != b,
            a.precedes(b),
            a.start() == b.start(),
        ensures
            a.end == b.start(),
    {
        assert(a.write_shaped(self.capacity));
        assert(b.write_shaped(self.capacity));
    }

    /// While the chain is tight, the earliest outstanding region starts at
    /// the committed end.
    pub proof fn lemma_first_starts_at_commit(self, m: Interval)
        requires
            self.inv(),
            self.tight(),
            is_first_write(self.outstanding_writes, m),
        ensures
            m.start() == self.reads.end,
    {
        if m.start() != self.reads.end {
            let v = choose|v: Interval| #[trigger]
                self.outstanding_writes.contains(v) && v != m && v.end == m.start();
            assert(m.write_shaped(self.capacity));
            assert(v.write_shaped(self.capacity));
            assert(m.no_later_than(v));
            assert(v.precedes(m) || m.precedes(v));
        }
    }

    /// While the chain is tight, releasing the earliest outstanding region
    /// commits exactly that region: the committed end moves from where the
    /// region starts to where it ends. The chain stays tight.
    #[verifier::rlimit(30)]
    pub proof fn lemma_unreserve_write_tight(self, interval: Interval)
        requires
            self.inv(),
            self.tight(),
            self.granted(interval),
            is_first_write(self.outstanding_writes, interval),
        ensures
            self.unreserve_write(interval).tight(),
            interval.start() == self.reads.end,
            self.unreserve_write(interval).reads.end == interval.end,
    {
        let t = self.unreserve_write(interval);
        let rest = self.outstanding_writes.remove(interval);
        self.lemma_unreserve_write_inv(interval);
        self.lemma_first_starts_at_commit(interval);
        self.lemma_first_write_leads(self.outstanding_writes, interval);
        assert(interval.write_shaped(self.capacity));
        if rest.len() == 0 {
            assert(rest =~= Set::<Interval>::empty());
            assert(first_write(rest).is_none());
            let w = choose|w: Interval| #[trigger]
                self.outstanding_writes.contains(w) && w.end == self.writes.end;
            assert(w == interval);
            assert(t.tight());
        } else {
            lemma_first_write_exists(rest);
            let mn = first_write(rest).unwrap();
            self.lemma_first_write_leads(rest, mn);
            assert(self.outstanding_writes.contains(mn));
            assert(mn.write_shaped(self.capacity));
            assert(interval.precedes(mn));
            // Every region that is left starts at the end of the released
            // one, or has a predecessor that is left too.
            assert forall|w: Interval| #[trigger] rest.contains(w) implies w.start()
                == interval.end || t.has_predecessor(w) by {
                assert(self.outstanding_writes.contains(w));
                assert(interval.precedes(w));
                if w.start() == self.reads.end {
                    self.lemma_same_start(interval, w);
                } else {
                    let v = choose|v: Interval| #[trigger]
                        self.outstanding_writes.contains(v) && v != w && v.end == w.start();
                    if v != interval {
                        assert(rest.contains(v) && v != w && v.end == w.start());
                    }
                }
            }
            assert(mn.start() == interval.end) by {
                if mn.start() != interval.end {
                    let v = choose|v: Interval| #[trigger]
                        t.outstanding_writes.contains(v) && v != mn && v.end == mn.start();
                    assert(self.outstanding_writes.contains(v));
                    assert(v.write_shaped(self.capacity));
                    assert(mn.no_later_than(v));
                    assert(v.precedes(mn) || mn.precedes(v));
                }
            }
            assert(t.reads.end == interval.end);
            assert(exists|w: Interval| #[trigger]
                t.outstanding_writes.contains(w) && w.end == t.writes.end) by {
                let w = choose|w: Interval| #[trigger]
                    self.outstanding_writes.contains(w) && w.end == self.writes.end;
                if w == interval {
                    assert(lex_le(mn.end.pos(), self.writes.end.pos()));
                    assert(t.outstanding_writes.contains(mn) && mn.end == t.writes.end);
                } else {
                    assert(t.outstanding_writes.contains(w) && w.end == t.writes.end);
                }
            }
            assert forall|m: Interval| is_first_write(t.outstanding_writes, m) implies t.writes.beg
                == m.beg by {
                self.lemma_first_write_leads(rest, m);
            }
            if t.writes.high_mark.is_some() {
                let w = choose|w: Interval| #[trigger]
                    self.outstanding_writes.contains(w) && self.latched(w) && w.beg.cycle
                        == self.reads.end.cycle + 1;
                assert(w != interval);
                assert(t.outstanding_writes.contains(w) && t.latched(w) && w.beg.cycle
                    == t.reads.end.cycle + 1);
            }
            assert(!t.outstanding_writes.is_empty()) by {
                assert(t.outstanding_writes.contains(mn));
            }
            assert(t.tight());
        }
    }

    /// Staking out a region keeps the chain tight.
    #[verifier::rlimit(30)]
    pub proof fn lemma_stake_tight(self, amount: int)
        requires
            self.inv(),
            self.tight(),
            0 <= amount,
            self.accepts(amount),
            self.can_wrap(),
        ensures
            self.stake(amount).tight(),
    {
        let inc = self.claim(amount);
        let t = self.stake(amount);
        self.lemma_stake_inv(amount);
        assert(t.outstanding_writes.contains(inc) && inc.end == t.writes.end);
        assert(!t.outstanding_writes.is_empty());
        assert forall|w: Interval| #[trigger] t.outstanding_writes.contains(w) implies (w.start()
            == t.reads.end || t.has_predecessor(w)) && lex_le(
            w.end.pos(),
            t.writes.end.pos(),
        ) by {
            if self.outstanding_writes.contains(w) {
                if w.start() != self.reads.end {
                    let v = choose|v: Interval| #[trigger]
                        self.outstanding_writes.contains(v) && v != w && v.end == w.start();
                    assert(t.outstanding_writes.contains(v) && v != w && v.end == w.start());
                }
            } else {
                assert(w == inc);
                if !self.outstanding_writes.is_empty() {
                    let v = choose|v: Interval| #[trigger]
                        self.outstanding_writes.contains(v) && v.end == self.writes.end;
                    assert(t.outstanding_writes.contains(v) && v != w && v.end == w.start());
                }
            }
        }
        assert forall|m: Interval| is_first_write(t.outstanding_writes, m) implies t.writes.beg
            == m.beg by {
            if self.outstanding_writes.is_empty() {
                assert(t.outstanding_writes.contains(inc));
                assert(m.no_later_than(inc));
                if m != inc {
                    assert(self.outstanding_writes.contains(m));
                }
            } else {
                lemma_first_write_exists(self.outstanding_writes);
                let m0 = first_write(self.outstanding_writes).unwrap();
                assert(self.writes.beg == m0.beg);
                assert(t.outstanding_writes.contains(m0));
                assert(m.no_later_than(m0));
                assert(m0.write_shaped(self.capacity));
                if m != inc {
                    assert(self.outstanding_writes.contains(m));
                    assert(m0.no_later_than(m));
                }
            }
        }
        if t.writes.high_mark.is_some() {
            let w = choose|w: Interval| #[trigger]
                self.outstanding_writes.contains(w) && self.latched(w) && w.beg.cycle
                    == self.reads.end.cycle + 1;
            assert(t.outstanding_writes.contains(w) && t.latched(w) && w.beg.cycle
                == t.reads.end.cycle + 1);
        }
    }

    /// Granting a staked region keeps the chain tight.
    pub proof fn lemma_grant_tight(self, inc: Interval)
        requires
            self.inv(),
            self.tight(),
            self.open,
            self.outstanding_writes.contains(inc),
            !collides(inc.end, self.reads.beg),
        ensures
            self.grant(inc).tight(),
    {
        let t = self.grant(inc);
        assert(inc.write_shaped(self.capacity));
        assert(lex_le(self.reads.end.pos(), inc.start().pos()));
        assert(t.outstanding_writes.contains(inc));
        let w = choose|w: Interval| #[trigger]
            self.outstanding_writes.contains(w) && w.end == self.writes.end;
        assert(t.outstanding_writes.contains(w) && w.end == t.writes.end);
        assert forall|w: Interval| #[trigger] t.outstanding_writes.contains(w) implies w.start()
            == t.reads.end || t.has_predecessor(w) by {
            if w.start() != self.reads.end {
                let v = choose|v: Interval| #[trigger]
                    self.outstanding_writes.contains(v) && v != w && v.end == w.start();
                assert(t.outstanding_writes.contains(v) && v != w && v.end == w.start());
            }
        }
        if t.writes.high_mark.is_some() {
            if inc.high_mark.is_some() {
                assert(t.outstanding_writes.contains(inc) && t.latched(inc) && inc.beg.cycle
                    == t.reads.end.cycle + 1);
            } else {
                let w = choose|w: Interval| #[trigger]
                    self.outstanding_writes.contains(w) && self.latched(w) && w.beg.cycle
                        == self.reads.end.cycle + 1;
                assert(t.outstanding_writes.contains(w) && t.latched(w) && w.beg.cycle
                    == t.reads.end.cycle + 1);
            }
        }
    }

    /// When the last outstanding region is taken back, whatever is left
    /// ends no later than where that region started.
    proof fn lemma_abandon_rest_ends(self, inc: Interval, u: Interval)
        requires
            self.writes_inv(),
            self.outstanding_writes.contains(inc),
            self.is_last_write(inc),
            self.outstanding_writes.contains(u),
            u != inc,
        ensures
            lex_le(u.end.pos(), inc.start().pos()),
            u.precedes(inc),
            !inc.no_later_than(u),
    {
        assert(inc.write_shaped(self.capacity));
        assert(u.write_shaped(self.capacity));
        assert(u.precedes(inc));
    }

    proof fn lemma_abandon_head(self, inc: Interval)
        requires
            self.inv(),
            self.tight(),
            self.outstanding_writes.contains(inc),
            self.is_last_write(inc),
        ensures
            self.abandon(inc).chain_empty_ok(),
            self.abandon(inc).chain_reaches_head(),
    {
        let t = self.abandon(inc);
        let rest = t.outstanding_writes;
        assert(inc.write_shaped(self.capacity));
        if inc.start() != self.reads.end {
            let v = choose|v: Interval| #[trigger]
                self.outstanding_writes.contains(v) && v != inc && v.end == inc.start();
            assert(rest.contains(v) && v.end == t.writes.end);
        } else {
            if !rest.is_empty() {
                let u = choose|u: Interval| rest.contains(u);
                assert(rest.contains(u)) by {
                    if forall|x: Interval| !rest.contains(x) {
                        assert(rest =~= Set::<Interval>::empty());
                    }
                }
                self.lemma_abandon_rest_ends(inc, u);
                assert(u.write_shaped(self.capacity));
                assert(lex_le(self.reads.end.pos(), u.start().pos()));
                assert(rest.contains(u) && u.end == t.writes.end);
            }
        }
        if rest.is_empty() {
            assert(is_first_write(self.outstanding_writes, inc)) by {
                assert forall|w: Interval| #[trigger]
                    self.outstanding_writes.contains(w) implies inc.no_later_than(w) by {
                    if w != inc {
                        assert(rest.contains(w));
                    }
                }
            }
            assert(self.writes.beg == inc.beg);
        }
    }

    proof fn lemma_abandon_linked(self, inc: Interval)
        requires
            self.inv(),
            self.tight(),
            self.outstanding_writes.contains(inc),
            self.is_last_write(inc),
        ensures
            self.abandon(inc).chain_linked(),
    {
        let t = self.abandon(inc);
        let rest = t.outstanding_writes;
        assert forall|w: Interval| #[trigger] rest.contains(w) implies (w.start() == t.reads.end
            || t.has_predecessor(w)) && lex_le(w.end.pos(), t.writes.end.pos()) by {
            self.lemma_abandon_rest_ends(inc, w);
            if w.start() != self.reads.end {
                let v = choose|v: Interval| #[trigger]
                    self.outstanding_writes.contains(v) && v != w && v.end == w.start();
                assert(w.write_shaped(self.capacity));
                assert(inc.write_shaped(self.capacity));
                assert(v != inc);
                assert(rest.contains(v) && v != w && v.end == w.start());
            }
        }
    }

    proof fn lemma_abandon_tail(self, inc: Interval)
        requires
            self.inv(),
            self.tight(),
            self.outstanding_writes.contains(inc),
            self.is_last_write(inc),
        ensures
            self.abandon(inc).tail_at_first(),
    {
        let t = self.abandon(inc);
        let rest = t.outstanding_writes;
        assert forall|m: Interval| is_first_write(rest, m) implies t.writes.beg == m.beg by {
            self.lemma_abandon_rest_ends(inc, m);
            assert(is_first_write(self.outstanding_writes, m)) by {
                assert forall|w: Interval| #[trigger]
                    self.outstanding_writes.contains(w) implies m.no_later_than(w) by {
                    if w != inc {
                        assert(rest.contains(w));
                    } else {
                        assert(m.write_shaped(self.capacity));
                        assert(inc.write_shaped(self.capacity));
                    }
                }
            }
        }
    }

    /// Taking back the last outstanding region, if its high mark is not the
    /// one latched, keeps the chain tight.
    pub proof fn lemma_abandon_tight(self, inc: Interval)
        requires
            self.inv(),
            self.tight(),
            !self.open,
            self.outstanding_writes.contains(inc),
            self.is_last_write(inc),
            !self.latched(inc),
        ensures
            self.abandon(inc).tight(),
    {
        let t = self.abandon(inc);
        self.lemma_abandon_head(inc);
        self.lemma_abandon_linked(inc);
        self.lemma_abandon_tail(inc);
        assert(t.latch_is_held()) by {
            if t.writes.high_mark.is_some() {
                let w = choose|w: Interval| #[trigger]
                    self.outstanding_writes.contains(w) && self.latched(w) && w.beg.cycle
                        == self.reads.end.cycle + 1;
                assert(t.outstanding_writes.contains(w) && t.latched(w) && w.beg.cycle
                    == t.reads.end.cycle + 1);
            }
        }
    }

    /// What the readers do, and closing, leaves the chain as it is.
    pub proof fn lemma_readers_keep_tight(self, t: ChannelView)
        requires
            self.tight(),
            t.writes == self.writes,
            t.reads.end == self.reads.end,
            t.outstanding_writes == self.outstanding_writes,
        ensures
            t.tight(),
    {
        if !self.outstanding_writes.is_empty() {
            let w = choose|w: Interval| #[trigger]
                self.outstanding_writes.contains(w) && w.end == self.writes.end;
            assert(t.outstanding_writes.contains(w) && w.end == t.writes.end);
        }
        assert forall|w: Interval| #[trigger] t.outstanding_writes.contains(w) implies w.start()
            == t.reads.end || t.has_predecessor(w) by {
            if w.start() != self.reads.end {
                let v = choose|v: Interval| #[trigger]
                    self.outstanding_writes.contains(v) && v != w && v.end == w.start();
                assert(t.outstanding_writes.contains(v) && v != w && v.end == w.start());
            }
        }
        if t.writes.high_mark.is_some() {
            let w = choose|w: Interval| #[trigger]
                self.outstanding_writes.contains(w) && self.latched(w) && w.beg.cycle
                    == self.reads.end.cycle + 1;
            assert(t.outstanding_writes.contains(w) && t.latched(w) && w.beg.cycle
                == t.reads.end.cycle + 1);
        }
    }
}

} // verus!
