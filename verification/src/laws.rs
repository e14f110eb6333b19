//! What the bookkeeping guarantees, stated of single states and steps.

use crate::cursor::{lex_le, BegCursor, EndCursor, Interval};
use crate::history::Step;
use crate::model::{collides, is_first_write, ChannelView};
use vstd::prelude::*;

verus! {

impl ChannelView {
    /// No outstanding region collides with the slowest reader: no producer
    /// is waiting for space.
    pub open spec fn nobody_waits(self) -> bool {
        forall|w: Interval| #[trigger]
            self.outstanding_writes.contains(w) ==> !collides(w.end, self.reads.beg)
    }

    /// The bytes that are committed but not yet handed to a receiver that
    /// has read up to `cur`.
    pub open spec fn backlog(self, cur: EndCursor) -> int {
        (Interval {
            beg: cur.spec_to_beg(None),
            end: self.reads.end,
            high_mark: self.reads.high_mark,
        }).spec_len()
    }

    /// No overlap: two distinct regions that writers hold never share a
    /// byte of the buffer, whatever their cycles.
    ///
    /// This is stated of regions that are clear of the slowest reader. A
    /// region that is staked out for a producer that still waits may lie
    /// over the bytes of a held one: that is what the producer waits for.
    pub proof fn lemma_held_writes_disjoint(self, a: Interval, b: Interval)
        requires
            self.inv(),
            self.outstanding_writes.contains(a),
            self.outstanding_writes.contains(b),
            a != b,
            !collides(a.end, self.reads.beg),
            !collides(b.end, self.reads.beg),
        ensures
            a.bytes_disjoint(b),
    {
        assert(a.write_shaped(self.capacity));
        assert(b.write_shaped(self.capacity));
        assert(a.precedes(b) || b.precedes(a));
        assert(lex_le(self.reads.end.pos(), a.start().pos()));
        assert(lex_le(self.reads.end.pos(), b.start().pos()));
    }

    /// A region that a writer holds never shares a byte with a region that
    /// a receiver can be handed.
    pub proof fn lemma_held_write_clear_of_readable(self, w: Interval, cur: EndCursor)
        requires
            self.inv(),
            self.outstanding_writes.contains(w),
            !collides(w.end, self.reads.beg),
            self.admits(cur),
        ensures
            w.bytes_disjoint(self.readable(cur)),
    {
        assert(w.write_shaped(self.capacity));
        assert(lex_le(self.reads.end.pos(), w.start().pos()));
    }

    /// Readers behind writers: while the channel is open the slowest reader
    /// is in no later cycle than the write head, and, unless a producer is
    /// waiting for space, the write head is at most one cycle ahead of it.
    pub proof fn lemma_readers_behind_writers(self)
        requires
            self.inv(),
            self.open,
        ensures
            self.reads.beg.cycle <= self.writes.end.cycle,
            self.nobody_waits() ==> self.writes.end.cycle <= self.reads.beg.cycle + 1,
            forall|w: Interval| #[trigger]
                self.outstanding_writes.contains(w) && !collides(w.end, self.reads.beg)
                    ==> self.reads.beg.cycle <= w.end.cycle <= self.reads.beg.cycle + 1,
    {
        if self.nobody_waits() && collides(self.writes.end, self.reads.beg) {
            let w = choose|w: Interval| #[trigger]
                self.outstanding_writes.contains(w) && w.end == self.writes.end;
            assert(!collides(w.end, self.reads.beg));
        }
        assert forall|w: Interval| #[trigger]
            self.outstanding_writes.contains(w) && !collides(
                w.end,
                self.reads.beg,
            ) implies self.reads.beg.cycle <= w.end.cycle <= self.reads.beg.cycle + 1 by {
            assert(w.write_shaped(self.capacity));
            assert(lex_le(self.reads.end.pos(), w.start().pos()));
        }
    }

    /// Exactness under quiescence: when no region is outstanding and the
    /// slowest reader has caught up with the committed end, the write head
    /// is at the committed end, the write tail names the same place, and no
    /// high mark is kept.
    pub proof fn lemma_quiescent(self)
        requires
            self.inv(),
            self.marks_inv(),
            self.tight(),
            self.outstanding_writes.is_empty(),
            self.reads.beg.pos() == self.reads.end.pos(),
        ensures
            self.writes.end == self.reads.end,
            Self::names_same_place(self.writes.beg, self.writes.end),
            self.writes.high_mark.is_none(),
            self.reads.high_mark.is_none(),
            forall|b: BegCursor| #[trigger]
                self.outstanding_reads.count(b) > 0 ==> b.pos() == self.reads.end.pos(),
    {
        if self.writes.high_mark.is_some() {
            let w = choose|w: Interval| #[trigger]
                self.outstanding_writes.contains(w) && self.latched(w) && w.beg.cycle
                    == self.reads.end.cycle + 1;
            assert(false);
        }
    }

    /// What a receiver is handed comes off its backlog, and it is handed
    /// nothing only when its backlog is empty. Where the handed region ends
    /// the receiver may stand.
    pub proof fn lemma_next_takes_from_backlog(self, cur: EndCursor)
        requires
            self.inv(),
            self.admits(cur),
        ensures
            self.readable(cur).spec_len() >= 0,
            self.backlog(cur) == self.readable(cur).spec_len() + self.backlog(
                self.readable(cur).end,
            ),
            self.readable(cur).spec_len() == 0 <==> self.backlog(cur) == 0,
            self.admits(self.readable(cur).end),
            self.next(cur).reads == self.reads,
    {
    }

    /// A receiver reads all that is committed in at most two regions: the
    /// rest of its own cycle, and what is committed of the next.
    pub proof fn lemma_two_regions_drain(self, cur: EndCursor)
        requires
            self.inv(),
            self.admits(cur),
        ensures
            self.admits(self.readable(cur).end),
            self.admits(self.readable(self.readable(cur).end).end),
            self.backlog(self.readable(self.readable(cur).end).end) == 0,
            self.backlog(cur) == self.readable(cur).spec_len() + self.readable(
                self.readable(cur).end,
            ).spec_len(),
    {
        self.lemma_next_takes_from_backlog(cur);
        self.lemma_next_takes_from_backlog(self.readable(cur).end);
    }

    /// A receiver that should not go on polling has an empty backlog.
    pub proof fn lemma_not_open_is_drained(self, cur: EndCursor)
        requires
            !self.is_open(cur),
        ensures
            !self.open,
            self.backlog(cur) == 0,
    {
    }

    /// How a release moves the committed end from this state to `t`: it
    /// stays in its cycle and does not go back, or it enters the next cycle,
    /// which the slowest reader has not reached yet, and the high mark of the
    /// cycle it leaves becomes known. The slowest reader stays where it is.
    pub open spec fn commit_moves(self, t: ChannelView) -> bool {
        &&& t.capacity == self.capacity
        &&& t.reads.beg == self.reads.beg
        &&& 0 <= self.reads.end.offset <= self.capacity
        &&& 0 <= t.reads.end.offset <= self.capacity
        &&& if t.reads.end.cycle == self.reads.end.cycle {
            &&& self.reads.end.offset <= t.reads.end.offset
            &&& t.reads.high_mark == self.reads.high_mark
        } else {
            &&& t.reads.end.cycle == self.reads.end.cycle + 1
            &&& self.reads.beg.cycle == self.reads.end.cycle
            &&& self.reads.high_mark.is_none()
            &&& t.reads.high_mark.is_some()
            &&& self.reads.end.offset <= t.reads.high_mark.unwrap() <= self.capacity
        }
    }

    /// Every release of a held region moves the committed end as
    /// `commit_moves` says, in whatever order regions are released.
    pub proof fn lemma_release_moves_commit(self, interval: Interval)
        requires
            self.inv(),
            self.marks_inv(),
            self.granted(interval),
        ensures
            self.commit_moves(self.unreserve_write(interval)),
    {
        self.lemma_unreserve_write_inv(interval);
        self.lemma_unreserve_write_marks(interval);
        assert(self.handover_inv());
        assert(self.unreserve_write(interval).handover_inv());
        if self.writes.high_mark.is_some() {
            assert(self.latch_inv(self.writes.high_mark.unwrap()));
        }
    }

    /// What a release commits is added to the backlog of every receiver:
    /// the bytes between the committed end before and after it.
    pub proof fn lemma_commit_adds_to_backlog(self, interval: Interval, cur: EndCursor)
        requires
            self.inv(),
            self.marks_inv(),
            self.granted(interval),
            self.admits(cur),
        ensures
            self.unreserve_write(interval).admits(cur),
            self.unreserve_write(interval).admits(self.reads.end),
            self.unreserve_write(interval).backlog(self.reads.end) >= 0,
            self.unreserve_write(interval).backlog(cur) == self.backlog(cur)
                + self.unreserve_write(interval).backlog(self.reads.end),
    {
        self.lemma_release_moves_commit(interval);
    }

    /// While the chain of outstanding regions is tight, the release of the
    /// earliest of them commits exactly that region.
    pub proof fn lemma_in_order_release_commits_region(self, interval: Interval)
        requires
            self.inv(),
            self.tight(),
            self.granted(interval),
            is_first_write(self.outstanding_writes, interval),
        ensures
            interval.start() == self.reads.end,
            self.unreserve_write(interval).reads.end == interval.end,
            self.unreserve_write(interval).backlog(self.reads.end) == interval.spec_len(),
            interval.spec_len() >= 0,
    {
        self.lemma_unreserve_write_tight(interval);
        assert(interval.write_shaped(self.capacity));
    }

    /// The release of a readable region changes no backlog.
    pub proof fn lemma_read_release_keeps_backlog(self, interval: Interval, cur: EndCursor)
        requires
            self.inv(),
            self.marks_inv(),
            self.may_unreserve_read(interval),
            self.unreserve_read(interval).within_reads(cur),
        ensures
            self.unreserve_read(interval).admits(cur),
            self.unreserve_read(interval).backlog(cur) == self.backlog(cur),
    {
        self.lemma_unreserve_read_inv(interval);
        self.lemma_unreserve_read_marks(interval);
        assert(self.handover_inv());
        assert(self.unreserve_read(interval).handover_inv());
    }

    /// Progress, as far as one state shows it: when the slowest reader has
    /// caught up with the committed end, the earliest staked region has to
    /// wait only if it opened a new cycle and is longer than what the cycle
    /// before it used. Such a region waits for good: no reader can move on
    /// before it is committed.
    pub proof fn lemma_drained_readers_free_writer(self, inc: Interval)
        requires
            self.inv(),
            self.tight(),
            is_first_write(self.outstanding_writes, inc),
            self.reads.beg.pos() == self.reads.end.pos(),
        ensures
            collides(inc.end, self.reads.beg) <==> inc.high_mark.is_some() && inc.end.offset
                > inc.high_mark.unwrap(),
    {
        self.lemma_first_starts_at_commit(inc);
        assert(inc.write_shaped(self.capacity));
    }

    /// A region that is staked out stays so, and a region that a writer
    /// holds stays releasable, whatever else happens, until the region
    /// itself is released or taken back.
    pub proof fn lemma_held_write_stays_releasable(self, step: Step, region: Interval)
        requires
            self.inv(),
            self.enabled(step),
            self.outstanding_writes.contains(region),
            step != (Step::ReleaseWrite { region }),
            step != (Step::Abandon { region }),
        ensures
            self.after(step).outstanding_writes.contains(region),
            self.granted(region) ==> self.after(step).granted(region),
    {
        let t = self.after(step);
        self.lemma_step(step);
        assert(region.write_shaped(self.capacity));
        assert(lex_le(self.reads.end.pos(), region.start().pos()));
        if self.granted(region) {
            assert(!collides(region.end, t.reads.beg));
            match step {
                Step::Grant { region: other } => {
                    assert(other.write_shaped(self.capacity));
                    assert(lex_le(self.reads.end.pos(), other.start().pos()));
                    if other != region {
                        assert(other.precedes(region) || region.precedes(other));
                    }
                },
                Step::ReleaseWrite { region: other } => {
                    let rest = self.outstanding_writes.remove(other);
                    assert(rest.contains(region));
                    if rest.len() == 0 {
                        assert(rest =~= Set::<Interval>::empty());
                    }
                    crate::steps::lemma_first_write_exists(rest);
                    let mn = crate::model::first_write(rest).unwrap();
                    self.lemma_first_write_leads(rest, mn);
                },
                _ => {},
            }
        }
    }

    /// A readable region that a receiver holds stays releasable, whatever
    /// else happens, as long as its beginning is among the read positions
    /// held.
    pub proof fn lemma_held_read_stays_releasable(self, step: Step, region: Interval)
        requires
            self.inv(),
            self.marks_inv(),
            self.enabled(step),
            region.beg.cycle == region.end.cycle,
            region.beg.offset <= region.end.offset,
            self.may_unreserve_read(region),
            self.after(step).outstanding_reads.count(region.beg) > 0,
        ensures
            self.after(step).may_unreserve_read(region),
    {
        let t = self.after(step);
        self.lemma_step(step);
        assert(self.handover_inv());
        if self.writes.high_mark.is_some() {
            assert(self.latch_inv(self.writes.high_mark.unwrap()));
        }
        match step {
            Step::ReleaseWrite { region: other } => {
                self.lemma_unreserve_write_marks(other);
            },
            Step::ReleaseRead { region: other } => {
                self.lemma_unreserve_read_marks(other);
                assert(t.handover_inv());
            },
            _ => {},
        }
    }
}

} // verus!
