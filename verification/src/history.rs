//! Histories: what holds of a channel after any sequence of steps.
//!
//! The threads that share a channel take their steps one at a time, under
//! the lock, in an order that nothing controls. A history is any such
//! order. What is proved here of every history holds of every interleaving
//! of producers, consumers and `close`.
//!
//! Each operation of [`crate::channel::RawChannel`] that changes the state
//! takes one step: `begin_map` a `Stake`, `poll_map` a `Grant` or an
//! `Abandon`, `unreserve_write` a `ReleaseWrite`, `register` a `Register`,
//! `next` a `Next`, `unreserve_read` a `ReleaseRead` and `close` a `Close`.
//! A call of [`crate::sender::Sender::map`] takes a `Stake` and then a
//! `Grant`, or one of the two, or an `Abandon`. A `Write` is what a producer
//! does to the buffer while it holds a region.

use crate::cursor::{lex_le, BegCursor, EndCursor, Interval};
use crate::model::{collides, is_first_write, ChannelView};
use vstd::prelude::*;

verus! {

/// One change of the channel's state.
pub enum Step {
    /// A request for `amount` bytes is taken up and its region staked out.
    Stake { amount: int },
    /// The staked `region` is granted to its producer.
    Grant { region: Interval },
    /// The staked `region` is taken back from a producer that gives up.
    Abandon { region: Interval },
    /// A producer writes `byte` at offset `at` of the buffer, inside the
    /// `region` that it holds.
    Write { region: Interval, at: int, byte: u8 },
    /// A producer releases `region`.
    ReleaseWrite { region: Interval },
    /// A receiver registers.
    Register,
    /// A receiver that has read up to `cur` is handed a region.
    Next { cur: EndCursor },
    /// A receiver releases `region`.
    ReleaseRead { region: Interval },
    /// The channel is closed.
    Close,
}

impl ChannelView {
    /// Whether `step` can be taken in this state.
    pub open spec fn enabled(self, step: Step) -> bool {
        match step {
            Step::Stake { amount } => 0 <= amount && self.accepts(amount) && self.can_wrap(),
            Step::Grant { region } => self.open && self.outstanding_writes.contains(region)
                && !collides(region.end, self.reads.beg),
            Step::Abandon { region } => !self.open && self.outstanding_writes.contains(region),
            Step::Write { region, at, byte } => self.granted(region) && region.beg.offset <= at
                < region.end.offset,
            Step::ReleaseWrite { region } => self.granted(region),
            Step::Register => true,
            Step::Next { cur } => self.admits(cur) && self.readable(cur).spec_len() > 0,
            Step::ReleaseRead { region } => self.may_unreserve_read(region),
            Step::Close => true,
        }
    }

    /// The state after `step`.
    pub open spec fn after(self, step: Step) -> ChannelView {
        match step {
            Step::Stake { amount } => self.stake(amount),
            Step::Grant { region } => self.grant(region),
            Step::Abandon { region } => self.abandon(region),
            Step::Write { region, at, byte } => self,
            Step::ReleaseWrite { region } => self.unreserve_write(region),
            Step::Register => self.register(),
            Step::Next { cur } => self.next(cur),
            Step::ReleaseRead { region } => self.unreserve_read(region),
            Step::Close => self.close(),
        }
    }

    /// Whether `step` keeps to the order of the reservations: a region is
    /// released only when no earlier one is outstanding, and taken back
    /// only when no later one is and it was never granted a high mark.
    pub open spec fn orderly(self, step: Step) -> bool {
        match step {
            Step::ReleaseWrite { region } => is_first_write(self.outstanding_writes, region),
            Step::Abandon { region } => self.is_last_write(region) && !self.latched(region),
            _ => true,
        }
    }

    /// Whether `step` takes a staked region back only when no later one is
    /// outstanding.
    pub open spec fn retreats_last(self, step: Step) -> bool {
        match step {
            Step::Abandon { region } => self.is_last_write(region),
            _ => true,
        }
    }

    /// The bytes that `step` commits: those between the committed end
    /// before it and after it.
    pub open spec fn commits(self, step: Step) -> int {
        match step {
            Step::ReleaseWrite { region } => self.unreserve_write(region).backlog(self.reads.end),
            _ => 0,
        }
    }

    /// The bytes that `step` releases: the length of a region that a
    /// producer is done with.
    pub open spec fn releases(step: Step) -> int {
        match step {
            Step::ReleaseWrite { region } => region.spec_len(),
            _ => 0,
        }
    }

    /// The state after `steps`, taken one after another.
    pub open spec fn run(self, steps: Seq<Step>) -> ChannelView
        decreases steps.len(),
    {
        if steps.len() == 0 {
            self
        } else {
            self.run(steps.drop_last()).after(steps.last())
        }
    }

    /// Whether each of `steps` can be taken in the state that the steps
    /// before it lead to.
    pub open spec fn runnable(self, steps: Seq<Step>) -> bool
        decreases steps.len(),
    {
        steps.len() == 0 || (self.runnable(steps.drop_last()) && self.run(
            steps.drop_last(),
        ).enabled(steps.last()))
    }

    /// Whether each of `steps` keeps to the order of the reservations.
    pub open spec fn runs_orderly(self, steps: Seq<Step>) -> bool
        decreases steps.len(),
    {
        steps.len() == 0 || (self.runs_orderly(steps.drop_last()) && self.run(
            steps.drop_last(),
        ).orderly(steps.last()))
    }

    /// Whether each of `steps` that takes a staked region back does so when
    /// no later one is outstanding.
    pub open spec fn runs_retreating_last(self, steps: Seq<Step>) -> bool
        decreases steps.len(),
    {
        steps.len() == 0 || (self.runs_retreating_last(steps.drop_last()) && self.run(
            steps.drop_last(),
        ).retreats_last(steps.last()))
    }

    /// Every step keeps the invariant, and moves neither the committed end
    /// nor the slowest reader backward.
    pub proof fn lemma_step(self, step: Step)
        requires
            self.inv(),
            self.enabled(step),
        ensures
            self.after(step).inv(),
            self.after(step).capacity == self.capacity,
            lex_le(self.reads.end.pos(), self.after(step).reads.end.pos()),
            lex_le(self.reads.beg.pos(), self.after(step).reads.beg.pos()),
            !self.open ==> !self.after(step).open,
    {
        match step {
            Step::Stake { amount } => self.lemma_stake_inv(amount),
            Step::Grant { region } => self.lemma_grant_inv(region),
            Step::Abandon { region } => self.lemma_abandon_inv(region),
            Step::Write { region, at, byte } => {},
            Step::ReleaseWrite { region } => self.lemma_unreserve_write_inv(region),
            Step::Register => self.lemma_register_inv(),
            Step::Next { cur } => self.lemma_next_inv(cur),
            Step::ReleaseRead { region } => self.lemma_unreserve_read_inv(region),
            Step::Close => self.lemma_close_inv(),
        }
    }

    /// Every step keeps the invariant of the high marks, unless it takes a
    /// staked region back while a later one is outstanding. Regions may be
    /// released in any order.
    pub proof fn lemma_marks_step(self, step: Step)
        requires
            self.inv(),
            self.marks_inv(),
            self.enabled(step),
            self.retreats_last(step),
        ensures
            self.after(step).marks_inv(),
    {
        match step {
            Step::Stake { amount } => self.lemma_stake_marks(amount),
            Step::Grant { region } => self.lemma_grant_marks(region),
            Step::Abandon { region } => self.lemma_abandon_marks(region),
            Step::Write { region, at, byte } => {},
            Step::ReleaseWrite { region } => self.lemma_unreserve_write_marks(region),
            Step::Register => self.lemma_register_marks(),
            Step::Next { cur } => self.lemma_next_marks(cur),
            Step::ReleaseRead { region } => self.lemma_unreserve_read_marks(region),
            Step::Close => self.lemma_close_marks(),
        }
    }

    /// Every step that keeps to the order of the reservations keeps the
    /// invariant of the high marks and keeps the chain of outstanding
    /// regions tight.
    pub proof fn lemma_orderly_step(self, step: Step)
        requires
            self.inv(),
            self.marks_inv(),
            self.tight(),
            self.enabled(step),
            self.orderly(step),
        ensures
            self.after(step).marks_inv(),
            self.after(step).tight(),
    {
        let t = self.after(step);
        self.lemma_marks_step(step);
        match step {
            Step::Stake { amount } => self.lemma_stake_tight(amount),
            Step::Grant { region } => self.lemma_grant_tight(region),
            Step::Abandon { region } => self.lemma_abandon_tight(region),
            Step::Write { region, at, byte } => {},
            Step::ReleaseWrite { region } => self.lemma_unreserve_write_tight(region),
            Step::Register => self.lemma_readers_keep_tight(t),
            Step::Next { cur } => self.lemma_readers_keep_tight(t),
            Step::ReleaseRead { region } => self.lemma_readers_keep_tight(t),
            Step::Close => self.lemma_readers_keep_tight(t),
        }
    }

    /// Commit monotonicity, of every interleaving: whatever steps are
    /// taken, the invariant holds after them, and neither the committed end
    /// nor the slowest reader has moved backward. A closed channel stays
    /// closed.
    pub proof fn lemma_run(self, steps: Seq<Step>)
        requires
            self.inv(),
            self.runnable(steps),
        ensures
            self.run(steps).inv(),
            self.run(steps).capacity == self.capacity,
            lex_le(self.reads.end.pos(), self.run(steps).reads.end.pos()),
            lex_le(self.reads.beg.pos(), self.run(steps).reads.beg.pos()),
            !self.open ==> !self.run(steps).open,
        decreases steps.len(),
    {
        if steps.len() > 0 {
            self.lemma_run(steps.drop_last());
            self.run(steps.drop_last()).lemma_step(steps.last());
        }
    }

    /// The three invariants together.
    #[verifier::opaque]
    pub open spec fn in_order(self) -> bool {
        self.inv() && self.marks_inv() && self.tight()
    }

    proof fn lemma_in_order_step(self, step: Step)
        requires
            self.in_order(),
            self.enabled(step),
            self.orderly(step),
        ensures
            self.after(step).in_order(),
    {
        reveal(ChannelView::in_order);
        self.lemma_step(step);
        self.lemma_orderly_step(step);
    }

    pub proof fn lemma_in_order_run(self, steps: Seq<Step>)
        requires
            self.in_order(),
            self.runnable(steps),
            self.runs_orderly(steps),
        ensures
            self.run(steps).in_order(),
        decreases steps.len(),
    {
        if steps.len() > 0 {
            self.lemma_in_order_run(steps.drop_last());
            self.run(steps.drop_last()).lemma_in_order_step(steps.last());
        }
    }

    /// Of every interleaving that keeps to the order of the reservations:
    /// the invariant of the high marks holds after it and the chain of
    /// outstanding regions is tight.
    pub proof fn lemma_orderly_run(self, steps: Seq<Step>)
        requires
            self.inv(),
            self.marks_inv(),
            self.tight(),
            self.runnable(steps),
            self.runs_orderly(steps),
        ensures
            self.run(steps).inv(),
            self.run(steps).marks_inv(),
            self.run(steps).tight(),
    {
        assert(self.in_order()) by {
            reveal(ChannelView::in_order);
        }
        self.lemma_in_order_run(steps);
        assert(self.run(steps).inv() && self.run(steps).marks_inv() && self.run(steps).tight()) by {
            reveal(ChannelView::in_order);
        }
    }

    /// The invariant and the invariant of the high marks together.
    #[verifier::opaque]
    pub open spec fn marks_kept(self) -> bool {
        self.inv() && self.marks_inv()
    }

    pub proof fn lemma_marks_kept_run(self, steps: Seq<Step>)
        requires
            self.marks_kept(),
            self.runnable(steps),
            self.runs_retreating_last(steps),
        ensures
            self.run(steps).marks_kept(),
        decreases steps.len(),
    {
        if steps.len() > 0 {
            self.lemma_marks_kept_run(steps.drop_last());
            let s = self.run(steps.drop_last());
            reveal(ChannelView::marks_kept);
            s.lemma_step(steps.last());
            s.lemma_marks_step(steps.last());
        }
    }

    /// Of every interleaving in which a staked region is taken back only
    /// when no later one is outstanding: the invariant of the high marks
    /// holds after it.
    pub proof fn lemma_marks_run(self, steps: Seq<Step>)
        requires
            self.inv(),
            self.marks_inv(),
            self.runnable(steps),
            self.runs_retreating_last(steps),
        ensures
            self.run(steps).inv(),
            self.run(steps).marks_inv(),
    {
        assert(self.marks_kept()) by {
            reveal(ChannelView::marks_kept);
        }
        self.lemma_marks_kept_run(steps);
        reveal(ChannelView::marks_kept);
    }

    /// A receiver is never turned away: after any steps of a new channel,
    /// a receiver may ask for a region wherever the bookkeeping holds a read
    /// position, provided that no staked region was taken back while a
    /// later one was outstanding.
    pub proof fn lemma_receivers_admitted(capacity: int, steps: Seq<Step>, b: BegCursor)
        requires
            0 < capacity <= isize::MAX,
            ChannelView::fresh(capacity).runnable(steps),
            ChannelView::fresh(capacity).runs_retreating_last(steps),
            ChannelView::fresh(capacity).run(steps).outstanding_reads.count(b) > 0,
        ensures
            ChannelView::fresh(capacity).run(steps).admits(b.spec_to_end(None)),
    {
        let s = ChannelView::fresh(capacity);
        Self::lemma_fresh_inv(capacity);
        Self::lemma_fresh_marks(capacity);
        s.lemma_marks_run(steps);
        s.run(steps).lemma_held_positions_admitted(b);
    }

    /// Where a receiver stands after `steps`, of which those at the indices
    /// in `own` are its own: it started at `cur` and moved to the end of
    /// each region that it was handed.
    pub open spec fn cursor_after(self, cur: EndCursor, steps: Seq<Step>, own: Set<int>)
        -> EndCursor
        decreases steps.len(),
    {
        if steps.len() == 0 {
            cur
        } else {
            let before = self.cursor_after(cur, steps.drop_last(), own);
            if own.contains(steps.len() - 1) {
                self.run(steps.drop_last()).readable(before).end
            } else {
                before
            }
        }
    }

    /// The bytes that the receiver was handed in the course of `steps`.
    pub open spec fn bytes_read(self, cur: EndCursor, steps: Seq<Step>, own: Set<int>) -> int
        decreases steps.len(),
    {
        if steps.len() == 0 {
            0
        } else {
            let before = self.cursor_after(cur, steps.drop_last(), own);
            self.bytes_read(cur, steps.drop_last(), own) + if own.contains(steps.len() - 1) {
                self.run(steps.drop_last()).readable(before).spec_len()
            } else {
                0
            }
        }
    }

    /// The bytes that were committed in the course of `steps`.
    pub open spec fn bytes_committed(self, steps: Seq<Step>) -> int
        decreases steps.len(),
    {
        if steps.len() == 0 {
            0
        } else {
            self.bytes_committed(steps.drop_last()) + self.run(steps.drop_last()).commits(
                steps.last(),
            )
        }
    }

    /// The bytes that producers released in the course of `steps`.
    pub open spec fn bytes_released(steps: Seq<Step>) -> int
        decreases steps.len(),
    {
        if steps.len() == 0 {
            0
        } else {
            Self::bytes_released(steps.drop_last()) + Self::releases(steps.last())
        }
    }

    /// Whether `steps` are a history of the channel with a receiver in it
    /// that starts at `cur`: the receiver's own steps, at the indices in
    /// `own`, are requests for a region from where it stands, and it may
    /// stand where it does after each step.
    pub open spec fn follows(self, cur: EndCursor, steps: Seq<Step>, own: Set<int>) -> bool
        decreases steps.len(),
    {
        if steps.len() == 0 {
            self.admits(cur)
        } else {
            &&& self.follows(cur, steps.drop_last(), own)
            &&& own.contains(steps.len() - 1) ==> steps.last() == (Step::Next {
                cur: self.cursor_after(cur, steps.drop_last(), own),
            })
            &&& self.run(steps).within_reads(self.cursor_after(cur, steps, own))
        }
    }

    /// A history that follows a receiver starts where the receiver may
    /// stand.
    pub proof fn lemma_follows_from_admitted(self, cur: EndCursor, steps: Seq<Step>, own: Set<int>)
        requires
            self.follows(cur, steps, own),
        ensures
            self.admits(cur),
        decreases steps.len(),
    {
        if steps.len() > 0 {
            self.lemma_follows_from_admitted(cur, steps.drop_last(), own);
        }
    }

    /// A history that keeps to the order of the reservations takes staked
    /// regions back only when no later one is outstanding.
    pub proof fn lemma_orderly_retreats_last(self, steps: Seq<Step>)
        requires
            self.runs_orderly(steps),
        ensures
            self.runs_retreating_last(steps),
        decreases steps.len(),
    {
        if steps.len() > 0 {
            self.lemma_orderly_retreats_last(steps.drop_last());
        }
    }

    /// What one step does to a receiver's account: what it is handed and
    /// what it still can read afterwards add up to what it could read
    /// before and what the step commits.
    pub proof fn lemma_account_step(self, step: Step, before: EndCursor, own: bool)
        requires
            self.inv(),
            self.marks_inv(),
            self.enabled(step),
            self.retreats_last(step),
            self.admits(before),
            own ==> step == (Step::Next { cur: before }),
            self.after(step).within_reads(
                if own {
                    self.readable(before).end
                } else {
                    before
                },
            ),
        ensures
            ({
                let now = if own {
                    self.readable(before).end
                } else {
                    before
                };
                let handed = if own {
                    self.readable(before).spec_len()
                } else {
                    0
                };
                &&& self.after(step).admits(now)
                &&& handed >= 0
                &&& self.commits(step) >= 0
                &&& handed + self.after(step).backlog(now) == self.backlog(before) + self.commits(
                    step,
                )
            }),
    {
        let t = self.after(step);
        self.lemma_step(step);
        self.lemma_marks_step(step);
        assert(t.handover_inv());
        if own {
            self.lemma_next_takes_from_backlog(before);
            assert(t.reads == self.reads);
        } else {
            match step {
                Step::ReleaseWrite { region } => {
                    self.lemma_commit_adds_to_backlog(region, before);
                },
                Step::ReleaseRead { region } => {
                    self.lemma_read_release_keeps_backlog(region, before);
                },
                _ => {
                    assert(t.reads == self.reads);
                },
            }
        }
    }

    /// A receiver's account balances and the receiver may stand where it
    /// does.
    #[verifier::opaque]
    pub open spec fn balanced(
        self,
        start: ChannelView,
        cur: EndCursor,
        now: EndCursor,
        read: int,
        committed: int,
    ) -> bool {
        &&& self.admits(now)
        &&& read >= 0
        &&& committed >= 0
        &&& read + self.backlog(now) == start.backlog(cur) + committed
    }

    proof fn lemma_balanced_run(self, cur: EndCursor, steps: Seq<Step>, own: Set<int>)
        requires
            self.marks_kept(),
            self.runnable(steps),
            self.runs_retreating_last(steps),
            self.follows(cur, steps, own),
        ensures
            self.run(steps).balanced(
                self,
                cur,
                self.cursor_after(cur, steps, own),
                self.bytes_read(cur, steps, own),
                self.bytes_committed(steps),
            ),
        decreases steps.len(),
    {
        if steps.len() == 0 {
            reveal(ChannelView::balanced);
        } else {
            let earlier = steps.drop_last();
            let step = steps.last();
            let s = self.run(earlier);
            let before = self.cursor_after(cur, earlier, own);
            let mine = own.contains(steps.len() - 1);
            self.lemma_balanced_run(cur, earlier, own);
            self.lemma_marks_kept_run(earlier);
            assert(s.inv() && s.marks_inv()) by {
                reveal(ChannelView::marks_kept);
            }
            assert(s.admits(before)) by {
                reveal(ChannelView::balanced);
            }
            s.lemma_account_step(step, before, mine);
            reveal(ChannelView::balanced);
        }
    }

    /// Nothing committed is lost on the way to a receiver. In every
    /// interleaving, with regions released in any order, what a receiver
    /// has read and what it still can read add up to what it could read at
    /// the start and what was committed since, provided that no staked
    /// region was taken back while a later one was outstanding.
    pub proof fn lemma_reads_what_is_committed(
        self,
        cur: EndCursor,
        steps: Seq<Step>,
        own: Set<int>,
    )
        requires
            self.inv(),
            self.marks_inv(),
            self.runnable(steps),
            self.runs_retreating_last(steps),
            self.follows(cur, steps, own),
        ensures
            self.run(steps).admits(self.cursor_after(cur, steps, own)),
            self.bytes_read(cur, steps, own) >= 0,
            self.bytes_committed(steps) >= 0,
            self.bytes_read(cur, steps, own) + self.run(steps).backlog(
                self.cursor_after(cur, steps, own),
            ) == self.backlog(cur) + self.bytes_committed(steps),
    {
        assert(self.marks_kept()) by {
            reveal(ChannelView::marks_kept);
        }
        self.lemma_balanced_run(cur, steps, own);
        reveal(ChannelView::balanced);
    }

    /// While regions are released in the order in which they were staked
    /// out, what is committed is what was released.
    pub proof fn lemma_in_order_commits_what_is_released(self, steps: Seq<Step>)
        requires
            self.inv(),
            self.marks_inv(),
            self.tight(),
            self.runnable(steps),
            self.runs_orderly(steps),
        ensures
            self.bytes_committed(steps) == Self::bytes_released(steps),
        decreases steps.len(),
    {
        if steps.len() > 0 {
            let earlier = steps.drop_last();
            let s = self.run(earlier);
            self.lemma_in_order_commits_what_is_released(earlier);
            self.lemma_orderly_run(earlier);
            match steps.last() {
                Step::ReleaseWrite { region } => {
                    s.lemma_in_order_release_commits_region(region);
                },
                _ => {},
            }
        }
    }

    /// No lost bytes: in every interleaving that keeps to the order of the
    /// reservations, what a receiver has read and what it still can read
    /// add up to what it could read at the start and what producers have
    /// released since. A receiver that starts with nothing to read and ends
    /// with nothing left to read has read exactly what was released.
    pub proof fn lemma_no_lost_bytes(self, cur: EndCursor, steps: Seq<Step>, own: Set<int>)
        requires
            self.inv(),
            self.marks_inv(),
            self.tight(),
            self.runnable(steps),
            self.runs_orderly(steps),
            self.follows(cur, steps, own),
        ensures
            self.run(steps).admits(self.cursor_after(cur, steps, own)),
            self.bytes_read(cur, steps, own) + self.run(steps).backlog(
                self.cursor_after(cur, steps, own),
            ) == self.backlog(cur) + Self::bytes_released(steps),
            self.backlog(cur) == 0 && self.run(steps).backlog(self.cursor_after(cur, steps, own))
                == 0 ==> self.bytes_read(cur, steps, own) == Self::bytes_released(steps),
    {
        self.lemma_orderly_retreats_last(steps);
        self.lemma_reads_what_is_committed(cur, steps, own);
        self.lemma_in_order_commits_what_is_released(steps);
    }
}

} // verus!
