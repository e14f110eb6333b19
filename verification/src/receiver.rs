//! A receiver's own state: how far it has read.

use crate::channel::RawChannel;
use crate::cursor::{EndCursor, Interval};
use vstd::prelude::*;

verus! {

/// One consumer of a channel. It sees every byte that is committed after
/// it registered, in order, exactly once.
#[derive(Debug)]
pub struct Receiver {
    /// The read position. This is the end of the last region handed out,
    /// and often the beginning of the next.
    cur: EndCursor,
}

impl View for Receiver {
    type V = EndCursor;

    closed spec fn view(&self) -> EndCursor {
        self.cur
    }
}

impl Receiver {
    /// Registers a receiver with `ch`. It starts at the slowest reader's
    /// position.
    pub fn new(ch: &mut RawChannel) -> (r: Self)
        requires
            old(ch).wf(),
            !old(ch)@.saturated(),
        ensures
            final(ch).wf(),
            r@ == old(ch)@.entry(),
            final(ch)@ == old(ch)@.register(),
    {
        Receiver { cur: ch.register() }
    }

    /// How far the receiver has read.
    pub fn cur(&self) -> (r: EndCursor)
        ensures
            r == self@,
    {
        self.cur
    }

    /// Whether the receiver should go on polling: the channel is open, or
    /// there is committed data that the receiver has not read.
    pub fn is_open(&self, ch: &RawChannel) -> (r: bool)
        ensures
            r == ch@.is_open(self@),
    {
        ch.is_open(&self.cur)
    }

    /// Whether the receiver may ask `ch` for its next region.
    pub fn is_admitted(&self, ch: &RawChannel) -> (r: bool)
        ensures
            r == ch@.admits(self@),
    {
        ch.admits(&self.cur)
    }

    /// Hands the receiver its next readable region, if any byte is
    /// committed past its position, and moves the receiver to the region's
    /// end. Does not wait: with nothing to read it returns `None` and
    /// changes nothing.
    pub fn next(&mut self, ch: &mut RawChannel) -> (r: Option<Interval>)
        requires
            old(ch).wf(),
            old(ch)@.admits(old(self)@),
            !old(ch)@.saturated(),
        ensures
            final(ch).wf(),
            match r {
                Some(interval) => {
                    &&& interval == old(ch)@.readable(old(self)@)
                    &&& interval.spec_len() > 0
                    &&& final(self)@ == interval.end
                    &&& final(ch)@ == old(ch)@.next(old(self)@)
                    &&& final(ch)@.may_unreserve_read(interval)
                },
                None => {
                    &&& old(ch)@.readable(old(self)@).spec_len() == 0
                    &&& final(self)@ == old(self)@
                    &&& final(ch)@ == old(ch)@
                },
            },
    {
        match ch.next(&self.cur) {
            Some(interval) => {
                self.cur = interval.end;
                Some(interval)
            },
            None => None,
        }
    }

    /// Releases the readable region `interval` that the receiver was
    /// handed. The receiver stays where it is.
    pub fn unreserve(&mut self, ch: &mut RawChannel, interval: &Interval)
        requires
            old(ch).wf(),
            old(ch)@.may_unreserve_read(*interval),
            !old(ch)@.saturated(),
        ensures
            final(ch).wf(),
            final(ch)@ == old(ch)@.unreserve_read(*interval),
            final(self)@ == old(self)@,
    {
        ch.unreserve_read(interval);
    }
}

} // verus!
