//! The bytes: what receivers are handed is the stream that was committed,
//! byte for byte.
//!
//! The buffer and the stream are followed here as sequences of bytes beside
//! the bookkeeping. Producers write into the regions they hold, a release
//! appends to the stream the bytes that it commits, and a receiver is handed
//! the bytes of its region as they stand in the buffer. Every receiver
//! reads the stream without a gap and without a change, in whatever order
//! the producers release their regions.

use crate::cursor::{lex_le, EndCursor, Interval};
use crate::history::Step;
use crate::model::{is_first_write, ChannelView};
use vstd::prelude::*;

verus! {

impl ChannelView {
    /// Where the slowest reader stands, as the end of what it has read.
    pub open spec fn slowest(self) -> EndCursor {
        self.reads.beg.spec_to_end(None)
    }

    /// The bytes in `buf` that are committed but not yet handed to a
    /// receiver that has read up to `cur`: up to the committed end, or, if
    /// that lies in the next cycle, up to the high mark and then from
    /// offset 0 to the committed end.
    pub open spec fn unread(self, buf: Seq<u8>, cur: EndCursor) -> Seq<u8> {
        if cur.cycle == self.reads.end.cycle {
            buf.subrange(cur.offset as int, self.reads.end.offset as int)
        } else {
            buf.subrange(cur.offset as int, self.reads.high_mark.unwrap() as int) + buf.subrange(
                0,
                self.reads.end.offset as int,
            )
        }
    }

    /// The bytes of `region` in `buf`.
    pub open spec fn bytes_of(buf: Seq<u8>, region: Interval) -> Seq<u8> {
        buf.subrange(region.beg.offset as int, region.end.offset as int)
    }

    /// The buffer holds the stream: what the slowest reader has not read
    /// yet is the end of `log`, the bytes committed so far.
    pub open spec fn faithful(self, buf: Seq<u8>, log: Seq<u8>) -> bool {
        &&& buf.len() == self.capacity
        &&& self.backlog(self.slowest()) <= log.len()
        &&& self.unread(buf, self.slowest()) == log.subrange(
            log.len() - self.backlog(self.slowest()),
            log.len() as int,
        )
    }

    /// The buffer after `step`.
    pub open spec fn buffer_step(step: Step, buf: Seq<u8>) -> Seq<u8> {
        match step {
            Step::Write { region, at, byte } => buf.update(at, byte),
            _ => buf,
        }
    }

    /// The stream after `step`, taken in this state with the buffer `buf`:
    /// a release appends the bytes that it commits, those between the
    /// committed end before it and after it.
    pub open spec fn log_step(self, step: Step, buf: Seq<u8>, log: Seq<u8>) -> Seq<u8> {
        match step {
            Step::ReleaseWrite { region } => log + self.unreserve_write(region).unread(
                buf,
                self.reads.end,
            ),
            _ => log,
        }
    }

    /// What is unread has the length of the backlog.
    pub proof fn lemma_unread_len(self, buf: Seq<u8>, cur: EndCursor)
        requires
            self.inv(),
            self.admits(cur),
            buf.len() == self.capacity,
        ensures
            self.unread(buf, cur).len() == self.backlog(cur),
            self.backlog(cur) >= 0,
    {
    }

    /// What a receiver has not read yet is the end of what the slowest
    /// reader has not read yet.
    proof fn lemma_unread_nested(self, buf: Seq<u8>, cur: EndCursor)
        requires
            self.inv(),
            self.admits(cur),
            self.admits(self.slowest()),
            buf.len() == self.capacity,
        ensures
            0 <= self.backlog(cur) <= self.backlog(self.slowest()),
            self.unread(buf, cur) == self.unread(buf, self.slowest()).subrange(
                self.backlog(self.slowest()) - self.backlog(cur),
                self.backlog(self.slowest()),
            ),
    {
        let slow = self.slowest();
        let whole = self.unread(buf, slow);
        let part = self.unread(buf, cur);
        let skip = self.backlog(slow) - self.backlog(cur);
        self.lemma_unread_len(buf, cur);
        self.lemma_unread_len(buf, slow);
        assert(part =~= whole.subrange(skip, self.backlog(slow)));
    }

    /// While the buffer holds the stream, what any receiver has not read
    /// yet is the end of the stream.
    pub proof fn lemma_unread_is_end_of_log(self, buf: Seq<u8>, log: Seq<u8>, cur: EndCursor)
        requires
            self.inv(),
            self.marks_inv(),
            self.faithful(buf, log),
            self.admits(cur),
        ensures
            0 <= self.backlog(cur) <= log.len(),
            self.unread(buf, cur) == log.subrange(log.len() - self.backlog(cur), log.len() as int),
    {
        self.lemma_held_positions_admitted(self.reads.beg);
        self.lemma_unread_nested(buf, cur);
        let slow = self.slowest();
        let n = log.len() as int;
        assert(log.subrange(n - self.backlog(slow), n).subrange(
            self.backlog(slow) - self.backlog(cur),
            self.backlog(slow),
        ) =~= log.subrange(n - self.backlog(cur), n));
    }

    /// While the buffer holds the stream, the bytes of the region that a
    /// receiver is handed are the next bytes of the stream.
    pub proof fn lemma_handed_is_next_of_log(self, buf: Seq<u8>, log: Seq<u8>, cur: EndCursor)
        requires
            self.inv(),
            self.marks_inv(),
            self.faithful(buf, log),
            self.admits(cur),
        ensures
            0 <= self.readable(cur).spec_len() <= self.backlog(cur) <= log.len(),
            Self::bytes_of(buf, self.readable(cur)) == log.subrange(
                log.len() - self.backlog(cur),
                log.len() - self.backlog(cur) + self.readable(cur).spec_len(),
            ),
    {
        self.lemma_unread_is_end_of_log(buf, log, cur);
        self.lemma_unread_len(buf, cur);
        self.lemma_next_takes_from_backlog(cur);
        let r = self.readable(cur);
        let n = log.len() as int;
        let b = self.backlog(cur);
        assert(Self::bytes_of(buf, r) =~= self.unread(buf, cur).subrange(0, r.spec_len()));
        assert(log.subrange(n - b, n).subrange(0, r.spec_len()) =~= log.subrange(
            n - b,
            n - b + r.spec_len(),
        ));
    }

    /// A producer never writes where a byte is still unread: a byte written
    /// into a held region leaves the unread bytes as they are.
    pub proof fn lemma_write_spares_unread(self, buf: Seq<u8>, region: Interval, at: int, byte: u8)
        requires
            self.inv(),
            self.admits(self.slowest()),
            buf.len() == self.capacity,
            self.granted(region),
            region.beg.offset <= at < region.end.offset,
        ensures
            self.unread(buf.update(at, byte), self.slowest()) == self.unread(buf, self.slowest()),
    {
        assert(region.write_shaped(self.capacity));
        assert(lex_le(self.reads.end.pos(), region.start().pos()));
        assert(self.unread(buf.update(at, byte), self.slowest()) =~= self.unread(
            buf,
            self.slowest(),
        ));
    }

    /// Where the committed end moves as `commit_moves` says, what it passes
    /// is appended to what is unread.
    proof fn lemma_commit_appends(self, t: ChannelView, buf: Seq<u8>)
        requires
            self.commit_moves(t),
            self.admits(self.slowest()),
            self.reads.high_mark matches Some(h) ==> 0 <= h <= self.capacity,
            0 <= self.reads.beg.offset <= self.capacity,
            buf.len() == self.capacity,
        ensures
            t.unread(buf, self.slowest()) == self.unread(buf, self.slowest()) + t.unread(
                buf,
                self.reads.end,
            ),
    {
        assert(t.unread(buf, self.slowest()) =~= self.unread(buf, self.slowest()) + t.unread(
            buf,
            self.reads.end,
        ));
    }

    /// While the chain of outstanding regions is tight, what the release of
    /// the earliest of them commits are the bytes of that region.
    pub proof fn lemma_in_order_release_appends_region(self, buf: Seq<u8>, region: Interval)
        requires
            self.inv(),
            self.tight(),
            self.granted(region),
            is_first_write(self.outstanding_writes, region),
            buf.len() == self.capacity,
        ensures
            self.unreserve_write(region).unread(buf, self.reads.end) == Self::bytes_of(
                buf,
                region,
            ),
    {
        self.lemma_in_order_release_commits_region(region);
        assert(region.write_shaped(self.capacity));
        let t = self.unreserve_write(region);
        assert(t.unread(buf, self.reads.end) =~= Self::bytes_of(buf, region));
    }

    /// A byte written into a held region leaves the buffer holding the
    /// stream.
    proof fn lemma_faithful_write(
        self,
        buf: Seq<u8>,
        log: Seq<u8>,
        region: Interval,
        at: int,
        byte: u8,
    )
        requires
            self.inv(),
            self.marks_inv(),
            self.faithful(buf, log),
            self.granted(region),
            region.beg.offset <= at < region.end.offset,
        ensures
            self.faithful(buf.update(at, byte), log),
    {
        self.lemma_held_positions_admitted(self.reads.beg);
        self.lemma_write_spares_unread(buf, region, at, byte);
    }

    /// The release of a held region leaves the buffer holding the stream,
    /// which has grown by the bytes that the release commits.
    proof fn lemma_faithful_release_write(self, buf: Seq<u8>, log: Seq<u8>, region: Interval)
        requires
            self.inv(),
            self.marks_inv(),
            self.faithful(buf, log),
            self.granted(region),
        ensures
            self.unreserve_write(region).faithful(
                buf,
                log + self.unreserve_write(region).unread(buf, self.reads.end),
            ),
            self.unreserve_write(region).unread(buf, self.reads.end).len()
                == self.unreserve_write(region).backlog(self.reads.end),
    {
        let t = self.unreserve_write(region);
        let slow = self.slowest();
        let n = log.len() as int;
        self.lemma_held_positions_admitted(self.reads.beg);
        self.lemma_release_moves_commit(region);
        self.lemma_commit_adds_to_backlog(region, slow);
        self.lemma_commit_appends(t, buf);
        self.lemma_unreserve_write_inv(region);
        t.lemma_unread_len(buf, self.reads.end);
        let added = t.unread(buf, self.reads.end);
        let b = self.backlog(slow);
        assert(log.subrange(n - b, n) + added =~= (log + added).subrange(n - b, n + added.len()));
    }

    /// The release of a readable region leaves the buffer holding the
    /// stream.
    proof fn lemma_faithful_release_read(self, buf: Seq<u8>, log: Seq<u8>, region: Interval)
        requires
            self.inv(),
            self.marks_inv(),
            self.faithful(buf, log),
            self.may_unreserve_read(region),
        ensures
            self.unreserve_read(region).faithful(buf, log),
    {
        let t = self.unreserve_read(region);
        let now = t.slowest();
        self.lemma_unreserve_read_inv(region);
        self.lemma_unreserve_read_marks(region);
        assert(self.admits(now)) by {
            assert(self.handover_inv());
            if t.reads.beg != region.end.spec_to_beg(None) {
                broadcast use vstd::multiset::group_multiset_axioms;

                assert(self.outstanding_reads.count(t.reads.beg) > 0);
            }
        }
        self.lemma_unread_is_end_of_log(buf, log, now);
        assert(t.within_reads(now)) by {
            t.lemma_held_positions_admitted(t.reads.beg);
        }
        self.lemma_read_release_keeps_backlog(region, now);
        assert(t.unread(buf, now) == self.unread(buf, now)) by {
            assert(t.reads.end == self.reads.end);
            assert(now.cycle != t.reads.end.cycle ==> t.reads.high_mark == self.reads.high_mark);
        }
    }

    /// A step that leaves the readers' bookkeeping alone leaves the buffer
    /// holding the stream.
    proof fn lemma_faithful_same_reads(self, t: ChannelView, buf: Seq<u8>, log: Seq<u8>)
        requires
            self.faithful(buf, log),
            t.reads == self.reads,
            t.capacity == self.capacity,
        ensures
            t.faithful(buf, log),
    {
    }

    /// Every step leaves the buffer holding the stream, unless it takes a
    /// staked region back while a later one is outstanding.
    pub proof fn lemma_faithful_step(self, buf: Seq<u8>, log: Seq<u8>, step: Step)
        requires
            self.inv(),
            self.marks_inv(),
            self.faithful(buf, log),
            self.enabled(step),
        ensures
            self.after(step).faithful(
                Self::buffer_step(step, buf),
                self.log_step(step, buf, log),
            ),
            self.log_step(step, buf, log).len() == log.len() + self.commits(step),
    {
        let t = self.after(step);
        match step {
            Step::Write { region, at, byte } => {
                self.lemma_faithful_write(buf, log, region, at, byte);
            },
            Step::ReleaseWrite { region } => {
                self.lemma_faithful_release_write(buf, log, region);
            },
            Step::ReleaseRead { region } => {
                self.lemma_faithful_release_read(buf, log, region);
            },
            Step::Stake { amount } => {
                self.lemma_faithful_same_reads(t, buf, log);
            },
            Step::Grant { region } => {
                self.lemma_faithful_same_reads(t, buf, log);
            },
            Step::Abandon { region } => {
                self.lemma_faithful_same_reads(t, buf, log);
            },
            Step::Register => {
                self.lemma_faithful_same_reads(t, buf, log);
            },
            Step::Next { cur } => {
                self.lemma_faithful_same_reads(t, buf, log);
            },
            Step::Close => {
                self.lemma_faithful_same_reads(t, buf, log);
            },
        }
    }

    /// The buffer after `steps`.
    pub open spec fn buffer_after(buf: Seq<u8>, steps: Seq<Step>) -> Seq<u8>
        decreases steps.len(),
    {
        if steps.len() == 0 {
            buf
        } else {
            Self::buffer_step(steps.last(), Self::buffer_after(buf, steps.drop_last()))
        }
    }

    /// The stream after `steps`.
    pub open spec fn log_after(self, buf: Seq<u8>, log: Seq<u8>, steps: Seq<Step>) -> Seq<u8>
        decreases steps.len(),
    {
        if steps.len() == 0 {
            log
        } else {
            self.run(steps.drop_last()).log_step(
                steps.last(),
                Self::buffer_after(buf, steps.drop_last()),
                self.log_after(buf, log, steps.drop_last()),
            )
        }
    }

    /// The buffer of a new channel holds the empty stream, whatever is in
    /// it.
    pub proof fn lemma_fresh_faithful(capacity: int, buf: Seq<u8>)
        requires
            buf.len() == capacity,
        ensures
            ChannelView::fresh(capacity).faithful(buf, Seq::empty()),
    {
        let s = ChannelView::fresh(capacity);
        assert(s.unread(buf, s.slowest()) =~= Seq::<u8>::empty().subrange(0, 0));
    }

    proof fn lemma_faithful_kept_run(self, buf: Seq<u8>, log: Seq<u8>, steps: Seq<Step>)
        requires
            self.marks_kept(),
            self.faithful(buf, log),
            self.runnable(steps),
            self.runs_retreating_last(steps),
        ensures
            self.run(steps).faithful(
                Self::buffer_after(buf, steps),
                self.log_after(buf, log, steps),
            ),
            self.log_after(buf, log, steps).len() == log.len() + self.bytes_committed(steps),
        decreases steps.len(),
    {
        if steps.len() > 0 {
            let earlier = steps.drop_last();
            let s = self.run(earlier);
            self.lemma_faithful_kept_run(buf, log, earlier);
            self.lemma_marks_kept_run(earlier);
            assert(s.inv() && s.marks_inv()) by {
                reveal(ChannelView::marks_kept);
            }
            s.lemma_faithful_step(
                Self::buffer_after(buf, earlier),
                self.log_after(buf, log, earlier),
                steps.last(),
            );
        }
    }

    /// In every interleaving the buffer goes on holding the stream, and
    /// the stream grows by what is committed, provided that no staked
    /// region was taken back while a later one was outstanding.
    pub proof fn lemma_faithful_run(self, buf: Seq<u8>, log: Seq<u8>, steps: Seq<Step>)
        requires
            self.inv(),
            self.marks_inv(),
            self.faithful(buf, log),
            self.runnable(steps),
            self.runs_retreating_last(steps),
        ensures
            self.run(steps).faithful(
                Self::buffer_after(buf, steps),
                self.log_after(buf, log, steps),
            ),
            self.log_after(buf, log, steps).len() == log.len() + self.bytes_committed(steps),
    {
        assert(self.marks_kept()) by {
            reveal(ChannelView::marks_kept);
        }
        self.lemma_faithful_kept_run(buf, log, steps);
    }

    /// The bytes that the receiver was handed in the course of `steps`, one
    /// region after another.
    pub open spec fn seen(
        self,
        buf: Seq<u8>,
        cur: EndCursor,
        steps: Seq<Step>,
        own: Set<int>,
    ) -> Seq<u8>
        decreases steps.len(),
    {
        if steps.len() == 0 {
            Seq::empty()
        } else {
            let before = self.cursor_after(cur, steps.drop_last(), own);
            self.seen(buf, cur, steps.drop_last(), own) + if own.contains(steps.len() - 1) {
                Self::bytes_of(
                    Self::buffer_after(buf, steps.drop_last()),
                    self.run(steps.drop_last()).readable(before),
                )
            } else {
                Seq::empty()
            }
        }
    }

    /// A receiver reads the stream: the buffer holds the stream, the
    /// receiver stands `read` bytes after the place `started` of the stream
    /// where it began, and what it has seen are the bytes of the stream
    /// between the two.
    #[verifier::opaque]
    pub open spec fn on_stream(
        self,
        buf: Seq<u8>,
        log: Seq<u8>,
        now: EndCursor,
        started: int,
        read: int,
        seen: Seq<u8>,
    ) -> bool {
        &&& self.faithful(buf, log)
        &&& self.admits(now)
        &&& 0 <= started
        &&& 0 <= read
        &&& 0 <= self.backlog(now)
        &&& started + read + self.backlog(now) == log.len()
        &&& seen == log.subrange(started, started + read)
    }

    /// One step keeps a receiver on the stream.
    proof fn lemma_stream_step(
        self,
        buf: Seq<u8>,
        log: Seq<u8>,
        step: Step,
        before: EndCursor,
        own: bool,
        started: int,
        read: int,
        seen: Seq<u8>,
    )
        requires
            self.inv(),
            self.marks_inv(),
            self.on_stream(buf, log, before, started, read, seen),
            self.enabled(step),
            self.retreats_last(step),
            own ==> step == (Step::Next { cur: before }),
            self.after(step).within_reads(
                if own {
                    self.readable(before).end
                } else {
                    before
                },
            ),
        ensures
            self.after(step).on_stream(
                Self::buffer_step(step, buf),
                self.log_step(step, buf, log),
                if own {
                    self.readable(before).end
                } else {
                    before
                },
                started,
                read + if own {
                    self.readable(before).spec_len()
                } else {
                    0
                },
                seen + if own {
                    Self::bytes_of(buf, self.readable(before))
                } else {
                    Seq::empty()
                },
            ),
    {
        reveal(ChannelView::on_stream);
        let t = self.after(step);
        let later = self.log_step(step, buf, log);
        self.lemma_faithful_step(buf, log, step);
        self.lemma_account_step(step, before, own);
        self.lemma_step(step);
        assert(log =~= later.subrange(0, log.len() as int));
        let now = if own {
            self.readable(before).end
        } else {
            before
        };
        assert(t.backlog(now) >= 0) by {
            t.lemma_unread_len(Self::buffer_step(step, buf), now);
        }
        if own {
            self.lemma_handed_is_next_of_log(buf, log, before);
            let handed = self.readable(before).spec_len();
            assert(later == log);
            assert(log.subrange(started, started + read) + log.subrange(
                started + read,
                started + read + handed,
            ) =~= log.subrange(started, started + read + handed));
        } else {
            assert(seen + Seq::<u8>::empty() =~= seen);
            assert(later.subrange(started, started + read) =~= log.subrange(
                started,
                started + read,
            ));
        }
    }

    proof fn lemma_stream_run(
        self,
        buf: Seq<u8>,
        log: Seq<u8>,
        cur: EndCursor,
        steps: Seq<Step>,
        own: Set<int>,
    )
        requires
            self.marks_kept(),
            self.on_stream(buf, log, cur, log.len() - self.backlog(cur), 0, Seq::empty()),
            self.runnable(steps),
            self.runs_retreating_last(steps),
            self.follows(cur, steps, own),
        ensures
            self.run(steps).on_stream(
                Self::buffer_after(buf, steps),
                self.log_after(buf, log, steps),
                self.cursor_after(cur, steps, own),
                log.len() - self.backlog(cur),
                self.bytes_read(cur, steps, own),
                self.seen(buf, cur, steps, own),
            ),
        decreases steps.len(),
    {
        if steps.len() > 0 {
            let earlier = steps.drop_last();
            let s = self.run(earlier);
            self.lemma_stream_run(buf, log, cur, earlier, own);
            self.lemma_marks_kept_run(earlier);
            assert(s.inv() && s.marks_inv()) by {
                reveal(ChannelView::marks_kept);
            }
            s.lemma_stream_step(
                Self::buffer_after(buf, earlier),
                self.log_after(buf, log, earlier),
                steps.last(),
                self.cursor_after(cur, earlier, own),
                own.contains(steps.len() - 1),
                log.len() - self.backlog(cur),
                self.bytes_read(cur, earlier, own),
                self.seen(buf, cur, earlier, own),
            );
        }
    }

    /// Every receiver reads the stream. In every interleaving, with regions
    /// released in any order, what a receiver has seen are the bytes of the
    /// stream from the place where it began, as many as it has read, and
    /// the buffer still holds what is unread, provided that no staked
    /// region was taken back while a later one was outstanding.
    pub proof fn lemma_receiver_reads_stream(
        self,
        buf: Seq<u8>,
        log: Seq<u8>,
        cur: EndCursor,
        steps: Seq<Step>,
        own: Set<int>,
    )
        requires
            self.inv(),
            self.marks_inv(),
            self.faithful(buf, log),
            self.runnable(steps),
            self.runs_retreating_last(steps),
            self.follows(cur, steps, own),
        ensures
            0 <= self.backlog(cur) <= log.len(),
            0 <= self.bytes_read(cur, steps, own),
            log.len() - self.backlog(cur) + self.bytes_read(cur, steps, own) <= self.log_after(
                buf,
                log,
                steps,
            ).len(),
            self.seen(buf, cur, steps, own) == self.log_after(buf, log, steps).subrange(
                log.len() - self.backlog(cur),
                log.len() - self.backlog(cur) + self.bytes_read(cur, steps, own),
            ),
            self.run(steps).faithful(
                Self::buffer_after(buf, steps),
                self.log_after(buf, log, steps),
            ),
    {
        self.lemma_follows_from_admitted(cur, steps, own);
        self.lemma_unread_is_end_of_log(buf, log, cur);
        assert(self.marks_kept()) by {
            reveal(ChannelView::marks_kept);
        }
        let started = log.len() - self.backlog(cur);
        assert(self.on_stream(buf, log, cur, started, 0, Seq::empty())) by {
            reveal(ChannelView::on_stream);
            assert(log.subrange(started, started) =~= Seq::<u8>::empty());
        }
        self.lemma_stream_run(buf, log, cur, steps, own);
        reveal(ChannelView::on_stream);
    }

    /// Broadcast equality: two receivers that start at the same place see
    /// the same bytes. In every interleaving, with regions released in any
    /// order, what the one that has read less has seen is the beginning of
    /// what the other has seen, and once both have read all that is
    /// committed they have seen the same, provided that no staked region
    /// was taken back while a later one was outstanding.
    pub proof fn lemma_broadcast(
        self,
        buf: Seq<u8>,
        log: Seq<u8>,
        cur: EndCursor,
        steps: Seq<Step>,
        one: Set<int>,
        other: Set<int>,
    )
        requires
            self.inv(),
            self.marks_inv(),
            self.faithful(buf, log),
            self.runnable(steps),
            self.runs_retreating_last(steps),
            self.follows(cur, steps, one),
            self.follows(cur, steps, other),
        ensures
            self.bytes_read(cur, steps, one) <= self.bytes_read(cur, steps, other) ==> self.seen(
                buf,
                cur,
                steps,
                one,
            ) == self.seen(buf, cur, steps, other).subrange(0, self.bytes_read(cur, steps, one)),
            self.run(steps).backlog(self.cursor_after(cur, steps, one)) == 0 && self.run(
                steps,
            ).backlog(self.cursor_after(cur, steps, other)) == 0 ==> self.seen(
                buf,
                cur,
                steps,
                one,
            ) == self.seen(buf, cur, steps, other),
    {
        self.lemma_receiver_reads_stream(buf, log, cur, steps, one);
        self.lemma_receiver_reads_stream(buf, log, cur, steps, other);
        self.lemma_reads_what_is_committed(cur, steps, one);
        self.lemma_reads_what_is_committed(cur, steps, other);
        let end_log = self.log_after(buf, log, steps);
        let started = log.len() - self.backlog(cur);
        let a = self.bytes_read(cur, steps, one);
        let b = self.bytes_read(cur, steps, other);
        if a <= b {
            assert(end_log.subrange(started, started + b).subrange(0, a) =~= end_log.subrange(
                started,
                started + a,
            ));
        }
    }
}

} // verus!
